//! Who a link leads to.

use vstd::prelude::*;

verus! {

/// The handle that the controller gave to a link.
#[derive(Clone, Copy, Debug, PartialEq, Eq, Structural)]
pub struct ConnHandle(pub u16);

impl ConnHandle {
    /// The handle with the given number.
    pub fn new(val: u16) -> (r: Self)
        ensures
            r == ConnHandle(val),
    {
        ConnHandle(val)
    }
}

/// How a host tells its peers apart.
///
/// The identity of a peer is not stable: a link starts out with none, has the raw connection address
/// before encryption and the bonded identity after it, and a peer with a private address rotates it.
/// Which identities belong to the same peer is for the host to say; [`Identity`] says it by address
/// and resolving key.
pub trait PeerIdentity: Copy {
    /// `other` belongs to the peer that `self` identifies.
    spec fn same_peer(&self, other: &Self) -> bool;

    /// The identity of a link whose peer is not known yet.
    spec fn blank() -> Self;

    /// Whether `other` belongs to the peer that `self` identifies.
    fn match_identity(&self, other: &Self) -> (r: bool)
        ensures
            r == self.same_peer(other),
    ;

    /// Whether the peer is not known yet.
    fn is_unset(&self) -> (r: bool)
        ensures
            r == (*self == Self::blank()),
    ;

    /// The identity of a link whose peer is not known yet.
    fn unset() -> (r: Self)
        ensures
            r == Self::blank(),
    ;
}

/// A device address.
#[derive(Clone, Copy, Debug, PartialEq, Eq)]
pub struct Address {
    /// The kind of address: 0 is public.
    pub kind: u8,
    /// The address.
    pub addr: [u8; 6],
}

impl Address {
    /// The address of the given kind.
    pub fn new(kind: u8, addr: [u8; 6]) -> (r: Self)
        ensures
            r == (Address { kind, addr }),
    {
        Address { kind, addr }
    }

    /// Whether both are the same address.
    pub fn same(&self, other: &Self) -> (r: bool)
        ensures
            r == (*self == *other),
    {
        if self.kind != other.kind {
            return false;
        }
        let mut i: usize = 0;
        while i < 6
            invariant
                i <= 6,
                forall|j: int| 0 <= j < i ==> self.addr@[j] == other.addr@[j],
            decreases 6 - i,
        {
            if self.addr[i] != other.addr[i] {
                return false;
            }
            i = i + 1;
        }
        assert(self.addr =~= other.addr);
        true
    }
}

/// The identity of a peer device.
#[derive(Clone, Copy, Debug, PartialEq, Eq)]
pub struct Identity {
    /// The identity address.
    pub addr: Address,
    /// The identity resolving key, if the peer gave one.
    pub irk: Option<u128>,
}

impl Default for Identity {
    fn default() -> (r: Self)
        ensures
            r == Identity::blank(),
    {
        Identity { addr: Address { kind: 0, addr: [0, 0, 0, 0, 0, 0] }, irk: None }
    }
}

impl PeerIdentity for Identity {
    open spec fn same_peer(&self, other: &Self) -> bool {
        self.addr == other.addr || (self.irk is Some && self.irk == other.irk)
    }

    open spec fn blank() -> Self {
        Identity { addr: Address { kind: 0, addr: [0, 0, 0, 0, 0, 0] }, irk: None }
    }

    fn match_identity(&self, other: &Self) -> (r: bool) {
        if self.addr.same(&other.addr) {
            return true;
        }
        match (self.irk, other.irk) {
            (Some(a), Some(b)) => a == b,
            _ => false,
        }
    }

    fn is_unset(&self) -> (r: bool) {
        let blank = Identity::default();
        self.addr.same(&blank.addr) && self.irk.is_none()
    }

    fn unset() -> (r: Self) {
        Identity::default()
    }
}

// ---- Laws ----

/// Two identities belong to the same peer exactly if kind and bytes of their addresses agree, or both
/// have a resolving key and the keys agree.
pub proof fn theorem_same_peer(a: Identity, b: Identity)
    ensures
        a.same_peer(&b) <==> {
            ||| a.addr.kind == b.addr.kind && forall|i: int|
                0 <= i < 6 ==> #[trigger] a.addr.addr@[i] == b.addr.addr@[i]
            ||| a.irk is Some && b.irk is Some && a.irk->0 == b.irk->0
        },
{
    if a.addr.kind == b.addr.kind && (forall|i: int|
        0 <= i < 6 ==> #[trigger] a.addr.addr@[i] == b.addr.addr@[i]) {
        assert(a.addr.addr =~= b.addr.addr);
    }
}

/// An identity belongs to the peer that it identifies, and two that belong to the same peer do so
/// either way round.
pub proof fn theorem_same_peer_either_way(a: Identity, b: Identity)
    ensures
        a.same_peer(&a),
        a.same_peer(&b) <==> b.same_peer(&a),
{
}

/// The peer is not known yet exactly if its address is public and all zero and it gave no resolving
/// key.
pub proof fn theorem_unknown_peer(a: Identity)
    ensures
        a == Identity::blank() <==> {
            &&& a.addr.kind == 0
            &&& forall|i: int| 0 <= i < 6 ==> #[trigger] a.addr.addr@[i] == 0
            &&& a.irk is None
        },
{
    if a.addr.kind == 0 && (forall|i: int| 0 <= i < 6 ==> #[trigger] a.addr.addr@[i] == 0) {
        assert(a.addr.addr =~= [0, 0, 0, 0, 0, 0]);
    }
}

} // verus!
