//! The tables of all clients, and which client has which.
//!
//! There is one slot per connection that the controller can hold. A slot remembers the client that
//! used it last, together with the values that this client wrote, so that a client that comes back
//! finds its subscriptions as it left them.

use vstd::prelude::*;

use crate::builder::{announced, buildable, indexed, needed_size};
use crate::bytes;
use crate::config::CLIENT_ATT_TABLE_SIZE;
use crate::error::{AttErrorCode, Error};
use crate::identity::{ConnHandle, PeerIdentity};
use crate::layout;
use crate::layout::{Attribute, ENTRY_SIZE, HEADER_SIZE, MAX_VALUE_LEN, VARIABLE_LEN_FLAG};
use crate::table;
use crate::table::ClientAttTable;
use crate::view::ClientAttTableView;

verus! {

// ---- Slots ----

/// The client that a slot belongs to.
#[derive(Debug)]
pub struct Client<I> {
    /// Who the client is, as far as that is known.
    pub identity: I,
    /// Whether the client's link is up.
    pub is_connected: bool,
    /// The handle of the client's link.
    pub handle: Option<ConnHandle>,
    /// The number of the claim that gave the client its slot.
    pub seq: u32,
}

impl<I: PeerIdentity> Clone for Client<I> {
    fn clone(&self) -> (r: Self)
        ensures
            r == *self,
    {
        *self
    }
}

impl<I: PeerIdentity> Copy for Client<I> {

}

impl<I: PeerIdentity> Client<I> {
    /// The client of a slot that was never claimed.
    pub open spec fn nobody() -> Self {
        Client { identity: I::blank(), is_connected: false, handle: None, seq: 0 }
    }

    /// The client of a slot that was never claimed.
    fn unclaimed() -> (r: Self)
        ensures
            r == Self::nobody(),
    {
        Client { identity: I::unset(), is_connected: false, handle: None, seq: 0 }
    }

    /// Replaces what is known of who the client is.
    fn set_identity(&mut self, identity: I)
        ensures
            *final(self) == (Client { identity, ..*old(self) }),
    {
        self.identity = identity;
    }
}

/// What is asked of a slot.
pub enum Criterion<I> {
    /// The slot is that of the given link.
    Holds(ConnHandle),
    /// The slot has no link, and its client was the given peer.
    Returning(I),
    /// The slot has no link and no known client.
    Anonymous,
    /// The slot's client is not connected.
    Disconnected,
    /// The slot's client identifies the given peer.
    Identifies(I),
    /// The given peer identifies the slot's client.
    KnownAs(I),
}

impl<I: PeerIdentity> Criterion<I> {
    /// The slot of client `c` is one that is asked for.
    pub open spec fn fits(self, c: Client<I>) -> bool {
        match self {
            Criterion::Holds(handle) => c.handle == Some(handle),
            Criterion::Returning(peer) => c.handle is None && c.identity.same_peer(&peer),
            Criterion::Anonymous => c.handle is None && c.identity == I::blank(),
            Criterion::Disconnected => !c.is_connected,
            Criterion::Identifies(peer) => c.identity.same_peer(&peer),
            Criterion::KnownAs(peer) => peer.same_peer(&c.identity),
        }
    }

    fn met_by(&self, c: &Client<I>) -> (r: bool)
        ensures
            r == self.fits(*c),
    {
        match self {
            Criterion::Holds(handle) => has_handle(c, *handle),
            Criterion::Returning(peer) => c.handle.is_none() && c.identity.match_identity(peer),
            Criterion::Anonymous => c.handle.is_none() && c.identity.is_unset(),
            Criterion::Disconnected => !c.is_connected,
            Criterion::Identifies(peer) => c.identity.match_identity(peer),
            Criterion::KnownAs(peer) => peer.match_identity(&c.identity),
        }
    }
}

fn has_handle<I: PeerIdentity>(c: &Client<I>, handle: ConnHandle) -> (r: bool)
    ensures
        r == (c.handle == Some(handle)),
{
    match c.handle {
        Some(h) => h == handle,
        None => false,
    }
}

/// A slot as the contracts see it: its client, and the storage of its table.
#[verifier::ext_equal]
pub struct Slot<I> {
    /// The client that the slot belongs to.
    pub client: Client<I>,
    /// The storage of the client's table.
    pub bytes: Seq<u8>,
}

/// Slot `i` is the first one of `s` that is asked for.
pub open spec fn is_first<I: PeerIdentity>(s: Seq<Slot<I>>, want: Criterion<I>, i: int) -> bool {
    &&& 0 <= i < s.len()
    &&& want.fits(s[i].client)
    &&& forall|j: int| 0 <= j < i ==> !want.fits((#[trigger] s[j]).client)
}

/// The first slot of `s` that is asked for.
pub open spec fn first<I: PeerIdentity>(s: Seq<Slot<I>>, want: Criterion<I>) -> Option<int> {
    if exists|i: int| is_first(s, want, i) {
        Some(choose|i: int| is_first(s, want, i))
    } else {
        None
    }
}

/// Slot `i` is the one of `s` that was claimed longest ago; the first such one, if there are more.
pub open spec fn is_oldest<I>(s: Seq<Slot<I>>, i: int) -> bool {
    &&& 0 <= i < s.len()
    &&& forall|j: int| 0 <= j < s.len() ==> s[i].client.seq <= (#[trigger] s[j]).client.seq
    &&& forall|j: int| 0 <= j < i ==> s[i].client.seq < (#[trigger] s[j]).client.seq
}

/// The slot of `s` that was claimed longest ago.
pub open spec fn oldest<I>(s: Seq<Slot<I>>) -> Option<int> {
    if exists|i: int| is_oldest(s, i) {
        Some(choose|i: int| is_oldest(s, i))
    } else {
        None
    }
}

/// The highest number of a claim on a slot of `s`.
pub open spec fn latest<I>(s: Seq<Slot<I>>) -> u32
    decreases s.len(),
{
    if s.len() == 0 {
        0
    } else if latest(s.drop_last()) >= s.last().client.seq {
        latest(s.drop_last())
    } else {
        s.last().client.seq
    }
}

/// The number of the next claim. It starts over when numbers run out.
pub open spec fn next_seq<I>(s: Seq<Slot<I>>) -> u32 {
    if latest(s) == u32::MAX {
        0
    } else {
        (latest(s) + 1) as u32
    }
}

/// A first slot is the first slot.
pub(crate) proof fn lemma_first<I: PeerIdentity>(s: Seq<Slot<I>>, want: Criterion<I>, i: int)
    requires
        is_first(s, want, i),
    ensures
        first(s, want) == Some(i),
{
    let k = choose|k: int| is_first(s, want, k);
    assert(is_first(s, want, k));
    if k < i {
        assert(!want.fits(s[k].client));
    } else if i < k {
        assert(!want.fits(s[i].client));
    }
}

/// If a slot is asked for, there is a first one, no later than it.
pub(crate) proof fn lemma_some_first<I: PeerIdentity>(s: Seq<Slot<I>>, want: Criterion<I>, i: int)
    requires
        0 <= i < s.len(),
        want.fits(s[i].client),
    ensures
        first(s, want) matches Some(k) && k <= i && is_first(s, want, k),
    decreases i,
{
    if exists|j: int| 0 <= j < i && want.fits((#[trigger] s[j]).client) {
        let j = choose|j: int| 0 <= j < i && want.fits((#[trigger] s[j]).client);
        lemma_some_first(s, want, j);
    } else {
        assert(is_first(s, want, i));
        lemma_first(s, want, i);
    }
}

/// No first slot means that none is asked for, and the other way round.
pub(crate) proof fn lemma_no_first<I: PeerIdentity>(s: Seq<Slot<I>>, want: Criterion<I>)
    ensures
        first(s, want) is None <==> forall|i: int|
            0 <= i < s.len() ==> !want.fits((#[trigger] s[i]).client),
{
    if first(s, want) is None {
        assert forall|i: int| 0 <= i < s.len() implies !want.fits((#[trigger] s[i]).client) by {
            if want.fits(s[i].client) {
                lemma_some_first(s, want, i);
            }
        }
    } else {
        let k = first(s, want)->0;
        assert(is_first(s, want, k));
    }
}

/// An oldest slot is the oldest slot.
pub(crate) proof fn lemma_oldest<I>(s: Seq<Slot<I>>, i: int)
    requires
        is_oldest(s, i),
    ensures
        oldest(s) == Some(i),
{
    let k = choose|k: int| is_oldest(s, k);
    assert(is_oldest(s, k));
    assert(s[i].client.seq <= s[k].client.seq);
    assert(s[k].client.seq <= s[i].client.seq);
}

// ---- What the operations do ----

/// The slot that a new link claims, and whether its values are cleared for that.
///
/// In this order: the slot that the link already has; one that its peer had before, if the peer is
/// known; one without a known client; one whose client is gone; the one that was claimed longest ago.
/// The first two keep their values. One without a known client keeps them if no link ever claimed it,
/// and for an unknown peer, which may be the one that left them there. That a slot was never claimed
/// shows in its number, 0, which a claim gets only when the numbers start over.
pub open spec fn claimed<I: PeerIdentity>(s: Seq<Slot<I>>, handle: ConnHandle, peer: I) -> Option<
    (int, bool),
> {
    if first(s, Criterion::Holds(handle)) is Some {
        Some((first(s, Criterion::Holds(handle))->0, false))
    } else if peer != I::blank() && first(s, Criterion::Returning(peer)) is Some {
        Some((first(s, Criterion::Returning(peer))->0, false))
    } else if first(s, Criterion::Anonymous) is Some {
        let i = first(s, Criterion::Anonymous)->0;
        Some((i, peer != I::blank() && s[i].client.seq != 0))
    } else if first(s, Criterion::Disconnected) is Some {
        Some((first(s, Criterion::Disconnected)->0, true))
    } else if oldest(s) is Some {
        Some((oldest(s)->0, true))
    } else {
        None
    }
}

/// The slots after a link to the given peer came up.
pub open spec fn connected<I: PeerIdentity>(
    s: Seq<Slot<I>>,
    handle: ConnHandle,
    peer: I,
) -> Seq<Slot<I>> {
    match claimed(s, handle, peer) {
        Some((i, clear)) => s.update(
            i,
            Slot {
                client: Client {
                    identity: peer,
                    is_connected: true,
                    handle: Some(handle),
                    seq: next_seq(s),
                },
                bytes: if clear {
                    layout::cleared_bytes(s[i].bytes)
                } else {
                    s[i].bytes
                },
            },
        ),
        None => s,
    }
}

/// The slot of a link: the one that has its handle or, if none has, the first one without a link whose
/// client was the given peer.
pub open spec fn owner<I: PeerIdentity>(s: Seq<Slot<I>>, handle: ConnHandle, peer: I) -> Option<
    int,
> {
    if first(s, Criterion::Holds(handle)) is Some {
        first(s, Criterion::Holds(handle))
    } else {
        first(s, Criterion::Returning(peer))
    }
}

/// The slots after a link to the given peer went down.
pub open spec fn disconnected<I: PeerIdentity>(
    s: Seq<Slot<I>>,
    handle: ConnHandle,
    peer: I,
) -> Seq<Slot<I>> {
    match owner(s, handle, peer) {
        Some(i) => s.update(
            i,
            Slot {
                client: Client { is_connected: false, handle: None, ..s[i].client },
                bytes: s[i].bytes,
            },
        ),
        None => s,
    }
}

/// The value that a link has for an attribute.
pub open spec fn value_of<I: PeerIdentity>(
    s: Seq<Slot<I>>,
    handle: ConnHandle,
    peer: I,
    att_handle: int,
) -> Option<Seq<u8>> {
    match owner(s, handle, peer) {
        Some(i) => layout::lookup(layout::attributes(s[i].bytes), att_handle),
        None => None,
    }
}

/// What a link's write is answered with.
pub open spec fn write_result<I: PeerIdentity>(
    s: Seq<Slot<I>>,
    handle: ConnHandle,
    peer: I,
    att_handle: int,
    offset: int,
    len: int,
) -> Result<(), AttErrorCode> {
    match owner(s, handle, peer) {
        Some(i) => table::write_result(layout::attributes(s[i].bytes), att_handle, offset, len),
        None => Err(AttErrorCode::ATTRIBUTE_NOT_FOUND),
    }
}

/// The slots after a link's write, which may have been refused.
pub open spec fn after_write<I: PeerIdentity>(
    s: Seq<Slot<I>>,
    handle: ConnHandle,
    peer: I,
    att_handle: int,
    offset: int,
    data: Seq<u8>,
) -> Seq<Slot<I>> {
    match owner(s, handle, peer) {
        Some(i) => s.update(
            i,
            Slot { bytes: table::after_write(s[i].bytes, att_handle, offset, data), ..s[i] },
        ),
        None => s,
    }
}

/// The slots after the values of a peer were replaced by those of `src`.
pub open spec fn after_restore<I: PeerIdentity>(
    s: Seq<Slot<I>>,
    peer: I,
    src: Seq<Attribute>,
) -> Seq<Slot<I>> {
    match first(s, Criterion::Identifies(peer)) {
        Some(i) => s.update(
            i,
            Slot { bytes: layout::restored_bytes(s[i].bytes, src), ..s[i] },
        ),
        None => s,
    }
}

/// The slots after more became known of who a client is.
pub open spec fn after_update<I: PeerIdentity>(s: Seq<Slot<I>>, identity: I) -> Seq<Slot<I>> {
    match first(s, Criterion::KnownAs(identity)) {
        Some(i) => s.update(i, Slot { client: Client { identity, ..s[i].client }, ..s[i] }),
        None => s,
    }
}

/// Every slot has a table, a client is connected as long as it has a link, and no link has two slots.
pub open spec fn valid_slots<I>(s: Seq<Slot<I>>) -> bool {
    &&& forall|i: int| 0 <= i < s.len() ==> layout::valid_storage((#[trigger] s[i]).bytes)
    &&& forall|i: int|
        0 <= i < s.len() ==> (#[trigger] s[i]).client.is_connected == (s[i].client.handle is Some)
    &&& forall|i: int, j: int|
        0 <= i < s.len() && 0 <= j < s.len() && (#[trigger] s[i]).client.handle is Some && (
        #[trigger] s[j]).client.handle == s[i].client.handle ==> i == j
}

/// The slots stay valid when a link comes up.
pub(crate) proof fn lemma_connected_valid<I: PeerIdentity>(
    s: Seq<Slot<I>>,
    handle: ConnHandle,
    peer: I,
)
    requires
        valid_slots(s),
    ensures
        valid_slots(connected(s, handle, peer)),
{
    lemma_no_first(s, Criterion::Holds(handle));
    let t = connected(s, handle, peer);
    if claimed(s, handle, peer) is Some {
        let i = (claimed(s, handle, peer)->0).0;
        assert(0 <= i < s.len());
        assert(layout::valid_storage(s[i].bytes));
        layout::lemma_cleared(s[i].bytes);
        layout::lemma_valid_storage(s[i].bytes, layout::cleared_bytes(s[i].bytes));
        assert forall|k: int| 0 <= k < t.len() implies layout::valid_storage(
            (#[trigger] t[k]).bytes,
        ) by {
            assert(layout::valid_storage(s[k].bytes));
        }
    }
}

// ---- The attributes that clients have values of ----

/// What the server keeps of an attribute.
pub enum AttributeData {
    /// Each client has a value of its own.
    ClientSpecific {
        /// Whether writes can change the length of the value.
        variable_len: bool,
        /// How long the value can be.
        capacity: u16,
    },
    /// The value, if there is one, is the same for all clients.
    Shared,
}

/// The attributes that clients have values of, without values.
pub open spec fn client_specific(atts: Seq<(u16, AttributeData)>) -> Seq<Attribute>
    decreases atts.len(),
{
    if atts.len() == 0 {
        Seq::empty()
    } else {
        let before = client_specific(atts.drop_last());
        match atts.last().1 {
            AttributeData::ClientSpecific { variable_len, capacity } => before.push(
                layout::blank(atts.last().0 as int, variable_len, capacity as int),
            ),
            AttributeData::Shared => before,
        }
    }
}

/// Fewer attributes give a part of what more attributes give.
proof fn lemma_client_specific_prefix(atts: Seq<(u16, AttributeData)>, n: int)
    requires
        0 <= n <= atts.len(),
    ensures
        client_specific(atts.take(n)).is_prefix_of(client_specific(atts)),
    decreases atts.len(),
{
    if n < atts.len() {
        let shorter = atts.drop_last();
        lemma_client_specific_prefix(shorter, n);
        assert(shorter.take(n) =~= atts.take(n));
    } else {
        assert(atts.take(n) =~= atts);
    }
}

/// Bytes that a table of the attributes that clients have values of takes, which may be more than there
/// are. `None` if no table can be made of them: their handles must ascend, from 1 to 0x7fff at most,
/// and their values must not be longer than Bluetooth allows.
pub fn table_size(att_table: &[(u16, AttributeData)]) -> (r: Option<usize>)
    ensures
        match r {
            Some(n) => buildable(client_specific(att_table@)) && n == needed_size(
                client_specific(att_table@),
            ),
            None => !buildable(client_specific(att_table@)),
        },
{
    let ghost all = client_specific(att_table@);
    let mut last_key: u16 = 0;
    let mut size: usize = HEADER_SIZE;
    let mut i: usize = 0;
    assert(att_table@.take(0) =~= Seq::empty());
    while i < att_table.len()
        invariant
            i <= att_table@.len(),
            all == client_specific(att_table@),
            buildable(client_specific(att_table@.take(i as int))),
            size == needed_size(client_specific(att_table@.take(i as int))),
            // No attribute takes more than an entry, a length and the longest value.
            size <= 4 + 518 * client_specific(att_table@.take(i as int)).len(),
            last_key == last_key_of(client_specific(att_table@.take(i as int))),
        decreases att_table@.len() - i,
    {
        let ghost before = client_specific(att_table@.take(i as int));
        let ghost after = client_specific(att_table@.take(i + 1));
        let ghost n = before.len() as int;
        proof {
            assert(att_table@.take(i + 1).drop_last() =~= att_table@.take(i as int));
            assert(att_table@.take(i + 1).last() == att_table@[i as int]);
            lemma_client_specific_prefix(att_table@, i + 1);
        }
        if let AttributeData::ClientSpecific { variable_len, capacity } = att_table[i].1 {
            let key: u16 = att_table[i].0;
            let ghost a = layout::blank(key as int, variable_len, capacity as int);
            proof {
                assert(after == before.push(a));
                assert(after[n] == a);
                assert(all[n] == a);
                assert(after.drop_last() =~= before);
                if n > 0 {
                    assert(after[n - 1] == before[n - 1]);
                    assert(all[n - 1] == before[n - 1]);
                }
            }
            if capacity > MAX_VALUE_LEN || key == 0 || key >= VARIABLE_LEN_FLAG || key <= last_key {
                assert(!buildable(all));
                return None;
            }
            let width: usize = capacity as usize + if variable_len {
                2
            } else {
                0
            };
            proof {
                assert forall|j: int, k: int| 0 <= j < k < after.len() implies (
                #[trigger] after[j]).key < (#[trigger] after[k]).key by {
                    if k == n && j < n - 1 {
                        assert(before[j].key < before[n - 1].key);
                    }
                }
                assert(buildable(after));
                crate::builder::lemma_key_after_position(after, n);
            }
            size = size + ENTRY_SIZE + width;
            last_key = key;
        }
        i = i + 1;
    }
    assert(att_table@.take(i as int) =~= att_table@);
    Some(size)
}

/// The last key of the given attributes, or 0.
spec fn last_key_of(s: Seq<Attribute>) -> int {
    if s.len() == 0 {
        0
    } else {
        s.last().key
    }
}

// ---- The tables ----

/// A table of CCCD values for each connected client.
pub struct ClientAttTables<I, const CONN_MAX: usize> {
    state: [(Client<I>, ClientAttTable); CONN_MAX],
}

impl<I: PeerIdentity, const CONN_MAX: usize> ClientAttTables<I, CONN_MAX> {
    /// The slots.
    pub closed spec fn slots(&self) -> Seq<Slot<I>> {
        Seq::new(
            CONN_MAX as nat,
            |i: int| Slot { client: self.state@[i].0, bytes: self.state@[i].1.bytes() },
        )
    }

    /// There is a slot for each connection, and the slots are valid.
    pub open spec fn wf(&self) -> bool {
        &&& self.slots().len() == CONN_MAX
        &&& valid_slots(self.slots())
    }

    /// Makes empty tables for the attributes that clients have values of.
    ///
    /// The attributes come in the order of their handles.
    #[verifier::rlimit(40)]
    pub fn new(att_table: &[(u16, AttributeData)]) -> (r: Self)
        requires
            buildable(client_specific(att_table@)),
            needed_size(client_specific(att_table@)) <= CLIENT_ATT_TABLE_SIZE,
        ensures
            r.wf(),
            forall|i: int|
                0 <= i < CONN_MAX ==> {
                    &&& (#[trigger] r.slots()[i]).client == Client::<I>::nobody()
                    &&& layout::attributes(r.slots()[i].bytes) == client_specific(att_table@)
                    &&& announced(r.slots()[i].bytes, client_specific(att_table@))
                    &&& indexed(r.slots()[i].bytes, client_specific(att_table@))
                },
    {
        let ghost all = client_specific(att_table@);
        let mut builder = ClientAttTable::builder();
        let mut i: usize = 0;
        assert(att_table@.take(0) =~= Seq::empty());
        while i < att_table.len()
            invariant
                i <= att_table@.len(),
                all == client_specific(att_table@),
                buildable(all),
                needed_size(all) <= CLIENT_ATT_TABLE_SIZE,
                builder.wf(),
                builder.attributes() == client_specific(att_table@.take(i as int)),
            decreases att_table@.len() - i,
        {
            let ghost before = client_specific(att_table@.take(i as int));
            let ghost after = client_specific(att_table@.take(i + 1));
            proof {
                assert(att_table@.take(i + 1).drop_last() =~= att_table@.take(i as int));
                assert(att_table@.take(i + 1).last() == att_table@[i as int]);
                lemma_client_specific_prefix(att_table@, i + 1);
            }
            if let AttributeData::ClientSpecific { variable_len, capacity } = att_table[i].1 {
                proof {
                    let n = before.len() as int;
                    let a = layout::blank(att_table@[i as int].0 as int, variable_len, capacity as int);
                    assert(after == before.push(a));
                    assert(after[n] == a);
                    assert(all[n] == a);
                    assert(all.take(n + 1) =~= after);
                    assert(after.drop_last() =~= before);
                    crate::builder::lemma_total_width_bound(all, n + 1);
                    if n > 0 {
                        assert(after[n - 1] == before[n - 1]);
                        assert(all[n - 1] == before[n - 1]);
                    }
                }
                builder.push(att_table[i].0, capacity, variable_len);
            }
            i = i + 1;
        }
        assert(att_table@.take(i as int) =~= att_table@);
        let base = builder.build();
        let r = ClientAttTables { state: [(Client::unclaimed(), base); CONN_MAX] };
        proof {
            assert forall|k: int| 0 <= k < CONN_MAX implies (#[trigger] r.slots()[k]).client
                == Client::<I>::nobody() && r.slots()[k].bytes == base.bytes() by {
                assert(r.state@[k] == (Client::<I>::nobody(), base));
            }
        }
        r
    }

    /// The first slot that is asked for.
    fn find(&self, want: Criterion<I>) -> (r: Option<usize>)
        ensures
            match r {
                Some(i) => {
                    &&& i < CONN_MAX
                    &&& first(self.slots(), want) == Some(i as int)
                    &&& is_first(self.slots(), want, i as int)
                },
                None => first(self.slots(), want) is None,
            },
    {
        let ghost s = self.slots();
        let mut i: usize = 0;
        while i < CONN_MAX
            invariant
                i <= CONN_MAX,
                s == self.slots(),
                forall|j: int| 0 <= j < i ==> !want.fits((#[trigger] s[j]).client),
            decreases CONN_MAX - i,
        {
            if want.met_by(&self.state[i].0) {
                proof {
                    assert(is_first(s, want, i as int));
                    lemma_first(s, want, i as int);
                }
                return Some(i);
            }
            i = i + 1;
        }
        proof {
            lemma_no_first(s, want);
        }
        None
    }

    /// The slot of a link. The handle decides: what is known of the peer can change while the link is
    /// up.
    fn find_owner(&self, handle: ConnHandle, peer_identity: &I) -> (r: Option<usize>)
        ensures
            match r {
                Some(i) => i < CONN_MAX && owner(self.slots(), handle, *peer_identity) == Some(
                    i as int,
                ),
                None => owner(self.slots(), handle, *peer_identity) is None,
            },
    {
        match self.find(Criterion::Holds(handle)) {
            Some(i) => Some(i),
            None => self.find(Criterion::Returning(*peer_identity)),
        }
    }

    /// The number of the next claim.
    fn next_seq(&self) -> (r: u32)
        ensures
            r == next_seq(self.slots()),
    {
        let ghost s = self.slots();
        let mut last: u32 = 0;
        let mut i: usize = 0;
        assert(s.take(0) =~= Seq::empty());
        while i < CONN_MAX
            invariant
                i <= CONN_MAX,
                s == self.slots(),
                last == latest(s.take(i as int)),
            decreases CONN_MAX - i,
        {
            assert(s.take(i + 1).drop_last() =~= s.take(i as int));
            if self.state[i].0.seq > last {
                last = self.state[i].0.seq;
            }
            i = i + 1;
        }
        assert(s.take(i as int) =~= s);
        last.wrapping_add(1)
    }

    /// The slot that was claimed longest ago.
    fn oldest(&self) -> (r: Option<usize>)
        ensures
            match r {
                Some(i) => i < CONN_MAX && oldest(self.slots()) == Some(i as int),
                None => CONN_MAX == 0 && oldest(self.slots()) is None,
            },
    {
        if CONN_MAX == 0 {
            return None;
        }
        let ghost s = self.slots();
        let mut min: usize = 0;
        let mut i: usize = 1;
        while i < CONN_MAX
            invariant
                min < i <= CONN_MAX,
                s == self.slots(),
                forall|j: int|
                    0 <= j < i ==> s[min as int].client.seq <= (#[trigger] s[j]).client.seq,
                forall|j: int|
                    0 <= j < min ==> s[min as int].client.seq < (#[trigger] s[j]).client.seq,
            decreases CONN_MAX - i,
        {
            if self.state[i].0.seq < self.state[min].0.seq {
                min = i;
            }
            i = i + 1;
        }
        proof {
            lemma_oldest(s, min as int);
        }
        Some(min)
    }

    /// Replaces the client of slot `i`.
    fn set_client(&mut self, i: usize, client: Client<I>)
        requires
            i < CONN_MAX,
        ensures
            final(self).slots() == old(self).slots().update(
                i as int,
                Slot { client, ..old(self).slots()[i as int] },
            ),
    {
        self.state[i].0 = client;
        assert(self.slots() =~= old(self).slots().update(
            i as int,
            Slot { client, ..old(self).slots()[i as int] },
        ));
    }

    /// Gives a slot to a link that came up.
    ///
    /// A link that has a slot keeps it. A client that is known and comes back gets its slot with the
    /// values that it left there; a link to an unknown peer never does. Otherwise a slot without a known
    /// client is taken, then one whose client is gone, and then the one that was claimed longest ago:
    /// the controller does not admit more links than there are slots, so at least one is stale. The
    /// values of the client that had the slot, if there was one, are cleared, unless neither it nor the
    /// new one is known.
    pub fn connect(&mut self, handle: ConnHandle, peer_identity: &I) -> (r: Result<(), Error>)
        requires
            old(self).wf(),
        ensures
            final(self).wf(),
            final(self).slots() == connected(old(self).slots(), handle, *peer_identity),
            r == if CONN_MAX == 0 {
                Err(Error::ConnectionLimitReached)
            } else {
                Ok(())
            },
    {
        proof {
            lemma_connected_valid(self.slots(), handle, *peer_identity);
        }
        let client = Client {
            identity: *peer_identity,
            is_connected: true,
            handle: Some(handle),
            seq: self.next_seq(),
        };
        // 1. This handle already owns a slot.
        if let Some(i) = self.find(Criterion::Holds(handle)) {
            self.set_client(i, client);
            return Ok(());
        }
        // 2. Same peer as a previous link: keep its cached values. A peer that is not known yet is
        //    not the same as any other.
        if !peer_identity.is_unset() {
            if let Some(i) = self.find(Criterion::Returning(*peer_identity)) {
                self.set_client(i, client);
                return Ok(());
            }
        }
        // 3. A slot that no known client used. A known peer is not the one that used it, if any did.
        if let Some(i) = self.find(Criterion::Anonymous) {
            if peer_identity.is_unset() || self.state[i].0.seq == 0 {
                self.set_client(i, client);
            } else {
                self.evict(i, client);
            }
            return Ok(());
        }
        // 4. All slots are taken; evict one whose link is gone.
        if let Some(i) = self.find(Criterion::Disconnected) {
            self.evict(i, client);
            return Ok(());
        }
        // 5. Every slot still claims to be connected: reclaim the least recently claimed one.
        if let Some(i) = self.oldest() {
            self.evict(i, client);
            return Ok(());
        }
        Err(Error::ConnectionLimitReached)
    }

    /// Replaces the client of slot `i` and clears what the previous one wrote.
    fn evict(&mut self, i: usize, client: Client<I>)
        requires
            i < CONN_MAX,
            old(self).wf(),
        ensures
            final(self).slots() == old(self).slots().update(
                i as int,
                Slot { client, bytes: layout::cleared_bytes(old(self).slots()[i as int].bytes) },
            ),
    {
        assert(layout::valid_storage(self.slots()[i as int].bytes));
        self.state[i].0 = client;
        self.state[i].1.clear();
        assert(self.slots() =~= old(self).slots().update(
            i as int,
            Slot { client, bytes: layout::cleared_bytes(old(self).slots()[i as int].bytes) },
        ));
    }

    /// Releases the slot of a link that went down.
    ///
    /// The slot is found by the handle, whatever the peer is known as by now. Only if no slot has the
    /// handle is it the first one without a link whose client was the peer. The values stay where they
    /// are, whether the peer is `bonded` or not, until another client takes the slot.
    pub fn disconnect(&mut self, handle: ConnHandle, peer_identity: &I, bonded: bool)
        requires
            old(self).wf(),
        ensures
            final(self).wf(),
            final(self).slots() == disconnected(old(self).slots(), handle, *peer_identity),
    {
        let _ = bonded;
        if let Some(i) = self.find_owner(handle, peer_identity) {
            let client = self.state[i].0;
            self.set_client(i, Client { is_connected: false, handle: None, ..client });
        }
    }

    /// Applies `f` to the value that a link has for an attribute.
    pub fn with_value<R, F: FnOnce(&[u8]) -> R>(
        &self,
        handle: ConnHandle,
        peer_identity: &I,
        att_handle: u16,
        f: F,
    ) -> (r: Option<R>)
        requires
            self.wf(),
            forall|v: &[u8]|
                value_of(self.slots(), handle, *peer_identity, att_handle as int) == Some(v@)
                    ==> #[trigger] f.requires((v,)),
        ensures
            match value_of(self.slots(), handle, *peer_identity, att_handle as int) {
                Some(value) => r matches Some(y) && exists|v: &[u8]|
                    (#[trigger] v@) == value && f.ensures((v,), y),
                None => r is None,
            },
    {
        match self.find_owner(handle, peer_identity) {
            Some(i) => {
                assert(layout::valid_storage(self.slots()[i as int].bytes));
                match self.state[i].1.get(att_handle) {
                    Some(v) => {
                        let y = f(v);
                        assert(f.ensures((v,), y));
                        Some(y)
                    },
                    None => None,
                }
            },
            None => None,
        }
    }

    /// Copies the value that a link has for an attribute, from `offset` on, to the start of `data`,
    /// and returns how many bytes that are.
    pub fn read(
        &self,
        handle: ConnHandle,
        peer_identity: &I,
        att_handle: u16,
        offset: usize,
        data: &mut [u8],
    ) -> (r: Result<usize, AttErrorCode>)
        requires
            self.wf(),
            value_of(self.slots(), handle, *peer_identity, att_handle as int) matches Some(value)
                ==> value.len() - offset <= old(data)@.len(),
        ensures
            match value_of(self.slots(), handle, *peer_identity, att_handle as int) {
                Some(value) => if offset > value.len() {
                    r == Err::<usize, AttErrorCode>(AttErrorCode::INVALID_OFFSET) && final(data)@
                        == old(data)@
                } else {
                    r == Ok::<usize, AttErrorCode>((value.len() - offset) as usize) && final(data)@
                        == bytes::splice(old(data)@, 0, value.skip(offset as int))
                },
                None => r == Err::<usize, AttErrorCode>(AttErrorCode::ATTRIBUTE_NOT_FOUND)
                    && final(data)@ == old(data)@,
            },
    {
        match self.find_owner(handle, peer_identity) {
            Some(i) => {
                assert(layout::valid_storage(self.slots()[i as int].bytes));
                match self.state[i].1.get(att_handle) {
                    Some(value) => {
                        if offset > value.len() {
                            return Err(AttErrorCode::INVALID_OFFSET);
                        }
                        let ghost whole = value@;
                        let value = &value[offset..value.len()];
                        assert(value@ =~= whole.skip(offset as int));
                        bytes::copy_into(data, 0, value);
                        Ok(value.len())
                    },
                    None => Err(AttErrorCode::ATTRIBUTE_NOT_FOUND),
                }
            },
            None => Err(AttErrorCode::ATTRIBUTE_NOT_FOUND),
        }
    }

    /// Writes `data` to the value that a link has for an attribute, starting at `offset`.
    pub fn write(
        &mut self,
        handle: ConnHandle,
        peer_identity: &I,
        att_handle: u16,
        offset: usize,
        data: &[u8],
    ) -> (r: Result<(), AttErrorCode>)
        requires
            old(self).wf(),
        ensures
            final(self).wf(),
            r == write_result(
                old(self).slots(),
                handle,
                *peer_identity,
                att_handle as int,
                offset as int,
                data@.len() as int,
            ),
            final(self).slots() == after_write(
                old(self).slots(),
                handle,
                *peer_identity,
                att_handle as int,
                offset as int,
                data@,
            ),
    {
        match self.find_owner(handle, peer_identity) {
            Some(i) => {
                assert(layout::valid_storage(self.slots()[i as int].bytes));
                let r = self.state[i].1.write(att_handle, offset, data);
                assert(self.slots() =~= after_write(
                    old(self).slots(),
                    handle,
                    *peer_identity,
                    att_handle as int,
                    offset as int,
                    data@,
                ));
                r
            },
            None => Err(AttErrorCode::ATTRIBUTE_NOT_FOUND),
        }
    }

    /// Whether a link has a slot, and whether that slot has a value for an attribute.
    pub fn diag_lookup(&self, handle: ConnHandle, peer_identity: &I, att_handle: u16) -> (r: (
        bool,
        bool,
    ))
        requires
            self.wf(),
        ensures
            r.0 == (owner(self.slots(), handle, *peer_identity) is Some),
            r.1 == (value_of(self.slots(), handle, *peer_identity, att_handle as int) is Some),
    {
        match self.find_owner(handle, peer_identity) {
            Some(i) => {
                assert(layout::valid_storage(self.slots()[i as int].bytes));
                (true, self.state[i].1.get(att_handle).is_some())
            },
            None => (false, false),
        }
    }

    /// A copy of the table of a peer.
    pub fn get_client_att_table(&self, peer_identity: &I) -> (r: Option<ClientAttTable>)
        requires
            self.wf(),
        ensures
            match first(self.slots(), Criterion::Identifies(*peer_identity)) {
                Some(i) => r matches Some(t) && t.wf() && t.bytes() == self.slots()[i].bytes,
                None => r is None,
            },
    {
        match self.find(Criterion::Identifies(*peer_identity)) {
            Some(i) => {
                assert(layout::valid_storage(self.slots()[i as int].bytes));
                Some(self.state[i].1)
            },
            None => None,
        }
    }

    /// Replaces the values of a peer by those of `table`.
    pub fn set_client_att_table(&mut self, peer_identity: &I, table: &ClientAttTableView<'_>)
        requires
            old(self).wf(),
            table.wf(),
        ensures
            final(self).wf(),
            final(self).slots() == after_restore(
                old(self).slots(),
                *peer_identity,
                table.attributes(),
            ),
    {
        if let Some(i) = self.find(Criterion::Identifies(*peer_identity)) {
            assert(layout::valid_storage(self.slots()[i as int].bytes));
            self.state[i].1.set_values(table);
            assert(self.slots() =~= after_restore(
                old(self).slots(),
                *peer_identity,
                table.attributes(),
            ));
        }
    }

    /// Replaces what is known of who a client is.
    pub fn update_identity(&mut self, identity: I) -> (r: Result<(), Error>)
        requires
            old(self).wf(),
        ensures
            final(self).wf(),
            final(self).slots() == after_update(old(self).slots(), identity),
            r == if first(old(self).slots(), Criterion::KnownAs(identity)) is Some {
                Ok(())
            } else {
                Err(Error::NotFound)
            },
    {
        match self.find(Criterion::KnownAs(identity)) {
            Some(i) => {
                let mut client = self.state[i].0;
                client.set_identity(identity);
                self.set_client(i, client);
                Ok(())
            },
            None => Err(Error::NotFound),
        }
    }
}

} // verus!
