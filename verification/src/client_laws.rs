//! What holds of the slots whatever links come and go.
//!
//! The laws speak of the slots before and after an operation, as the contracts of
//! [`ClientAttTables`](crate::clients::ClientAttTables) do. They hold whatever the host takes to be
//! the same peer.

use vstd::prelude::*;

use crate::clients::{
    after_restore, after_update, after_write, claimed, client_specific, connected, disconnected, first,
    is_first, is_oldest, latest, lemma_first, lemma_no_first, lemma_oldest, lemma_some_first, next_seq,
    owner, valid_slots, value_of, write_result, AttributeData, Client, ClientAttTables, Criterion,
    Slot,
};
use crate::error::AttErrorCode;
use crate::identity::{ConnHandle, PeerIdentity};
use crate::layout;
use crate::layout::{attributes, cleared, cleared_bytes, lookup, position, valid_table, values_end};
use crate::table;
use crate::table_laws::{
    same_shape, theorem_attributes_in_range, theorem_cleared_values, theorem_copied_values,
    theorem_no_key_appears, theorem_saved_values_restored, theorem_what_a_write_does,
    theorem_what_is_copied, theorem_write_keeps_the_rest, theorem_write_then_get,
};

verus! {

/// Slot `i` has no link, and its client was the given peer.
pub open spec fn waits_for<I: PeerIdentity>(s: Seq<Slot<I>>, i: int, peer: I) -> bool {
    s[i].client.handle is None && s[i].client.identity.same_peer(&peer)
}

// ---- Who has which slot ----

/// Where there are slots, one was claimed longest ago.
proof fn lemma_some_oldest<I>(s: Seq<Slot<I>>, n: int) -> (i: int)
    requires
        0 < n <= s.len(),
    ensures
        is_oldest(s.take(n), i),
    decreases n,
{
    if n == 1 {
        0
    } else {
        let i = lemma_some_oldest(s, n - 1);
        let t = s.take(n);
        let u = s.take(n - 1);
        assert forall|j: int| 0 <= j < n - 1 implies #[trigger] t[j] == u[j] by {}
        if s[n - 1].client.seq < s[i].client.seq {
            assert forall|j: int| 0 <= j < t.len() implies t[n - 1].client.seq <= (
            #[trigger] t[j]).client.seq by {
                if j < n - 1 {
                    assert(u[i].client.seq <= u[j].client.seq);
                }
            }
            assert forall|j: int| 0 <= j < n - 1 implies t[n - 1].client.seq < (
            #[trigger] t[j]).client.seq by {
                assert(u[i].client.seq <= u[j].client.seq);
            }
            n - 1
        } else {
            assert forall|j: int| 0 <= j < t.len() implies t[i].client.seq <= (
            #[trigger] t[j]).client.seq by {
                if j < n - 1 {
                    assert(u[i].client.seq <= u[j].client.seq);
                }
            }
            assert forall|j: int| 0 <= j < i implies t[i].client.seq < (
            #[trigger] t[j]).client.seq by {
                assert(u[i].client.seq < u[j].client.seq);
            }
            i
        }
    }
}

/// No claim has a number above the highest.
proof fn lemma_latest<I>(s: Seq<Slot<I>>, i: int)
    requires
        0 <= i < s.len(),
    ensures
        s[i].client.seq <= latest(s),
    decreases s.len(),
{
    if i < s.len() - 1 {
        lemma_latest(s.drop_last(), i);
        assert(s.drop_last()[i] == s[i]);
    }
}

/// A new link always gets a slot, if there are any, and then has that slot and no other. All other
/// slots are as they were.
pub proof fn theorem_connect_gives_one_slot<I: PeerIdentity>(
    s: Seq<Slot<I>>,
    handle: ConnHandle,
    peer: I,
) -> (i: int)
    requires
        valid_slots(s),
        s.len() > 0,
    ensures
        claimed(s, handle, peer) matches Some(c) && c.0 == i,
        0 <= i < s.len() == connected(s, handle, peer).len(),
        connected(s, handle, peer)[i].client == (Client {
            identity: peer,
            is_connected: true,
            handle: Some(handle),
            seq: next_seq(s),
        }),
        first(connected(s, handle, peer), Criterion::Holds(handle)) == Some(i),
        forall|j: int|
            0 <= j < s.len() && j != i ==> {
                &&& #[trigger] connected(s, handle, peer)[j] == s[j]
                &&& s[j].client.handle != Some(handle)
            },
        valid_slots(connected(s, handle, peer)),
{
    let o = lemma_some_oldest(s, s.len() as int);
    assert(s.take(s.len() as int) =~= s);
    lemma_oldest(s, o);
    lemma_no_first(s, Criterion::Holds(handle));
    crate::clients::lemma_connected_valid(s, handle, peer);
    let i = (claimed(s, handle, peer)->0).0;
    let t = connected(s, handle, peer);
    assert(0 <= i < s.len());
    assert forall|j: int| 0 <= j < s.len() && j != i implies #[trigger] t[j] == s[j]
        && s[j].client.handle != Some(handle) by {
        if s[j].client.handle == Some(handle) {
            assert(Criterion::Holds(handle).fits(s[j].client));
            assert(is_first(s, Criterion::Holds(handle), i));
            assert(s[i].client.handle == s[j].client.handle);
        }
    }
    assert(is_first(t, Criterion::Holds(handle), i)) by {
        assert forall|j: int| 0 <= j < i implies !Criterion::Holds(handle).fits(
            (#[trigger] t[j]).client,
        ) by {
            assert(t[j] == s[j]);
        }
    }
    lemma_first(t, Criterion::Holds(handle), i);
    i
}

/// Registering a link again keeps its slot and its values.
pub proof fn theorem_connecting_again_keeps_the_slot<I: PeerIdentity>(
    s: Seq<Slot<I>>,
    handle: ConnHandle,
    peer: I,
    i: int,
)
    requires
        valid_slots(s),
        0 <= i < s.len(),
        s[i].client.handle == Some(handle),
    ensures
        claimed(s, handle, peer) == Some((i, false)),
        connected(s, handle, peer)[i].bytes == s[i].bytes,
{
    let want = Criterion::<I>::Holds(handle);
    lemma_some_first(s, want, i);
    let k = first(s, want)->0;
    assert(s[k].client.handle == s[i].client.handle);
}

/// As long as a slot is free, a new link takes none from another link.
pub proof fn theorem_live_links_keep_their_slots<I: PeerIdentity>(
    s: Seq<Slot<I>>,
    handle: ConnHandle,
    peer: I,
    free: int,
    live: int,
)
    requires
        valid_slots(s),
        0 <= free < s.len(),
        s[free].client.handle is None,
        0 <= live < s.len(),
        s[live].client.handle is Some,
        s[live].client.handle != Some(handle),
    ensures
        connected(s, handle, peer)[live] == s[live],
{
    let i = theorem_connect_gives_one_slot(s, handle, peer);
    lemma_some_first(s, Criterion::Disconnected, free);
    if i == live {
        assert(s[i].client.is_connected);
        if first(s, Criterion::Holds(handle)) is Some {
            assert(is_first(s, Criterion::Holds(handle), i));
        } else if peer != I::blank() && first(s, Criterion::Returning(peer)) is Some {
            assert(is_first(s, Criterion::Returning(peer), i));
        } else if first(s, Criterion::Anonymous) is Some {
            assert(is_first(s, Criterion::Anonymous, i));
        } else {
            assert(is_first(s, Criterion::Disconnected, i));
        }
    } else {
        assert(connected(s, handle, peer)[live] == s[live]);
    }
}

/// Two links that come up one after the other both have a slot, whatever is known of their peers, if
/// there are two slots to have. Only when the numbers of the claims have started over can the slot
/// that was claimed last pass for the one that was claimed longest ago, and is lost if none is free.
pub proof fn theorem_two_links_have_two_slots<I: PeerIdentity>(
    s: Seq<Slot<I>>,
    handle1: ConnHandle,
    peer1: I,
    handle2: ConnHandle,
    peer2: I,
) -> (ij: (int, int))
    requires
        valid_slots(s),
        s.len() >= 2,
        handle1 != handle2,
        latest(s) < u32::MAX || !is_oldest(
            connected(s, handle1, peer1),
            (claimed(s, handle1, peer1)->0).0,
        ) || exists|k: int|
            0 <= k < s.len() && (#[trigger] connected(s, handle1, peer1)[k]).client.handle is None,
    ensures
        ({
            let t = connected(s, handle1, peer1);
            let u = connected(t, handle2, peer2);
            let (i, j) = ij;
            &&& i != j
            &&& 0 <= i < u.len()
            &&& 0 <= j < u.len()
            &&& t[i].client.handle == Some(handle1)
            &&& u[i] == t[i]
            &&& u[j].client.handle == Some(handle2)
        }),
{
    let t = connected(s, handle1, peer1);
    let u = connected(t, handle2, peer2);
    let i = theorem_connect_gives_one_slot(s, handle1, peer1);
    let j = theorem_connect_gives_one_slot(t, handle2, peer2);
    if i == j {
        // Only the slot that was claimed longest ago can be taken from a link that is up, and that is
        // not the one that was just claimed.
        assert(t[i].client.is_connected);
        if first(t, Criterion::Holds(handle2)) is Some {
            assert(is_first(t, Criterion::Holds(handle2), i));
        } else if peer2 != I::blank() && first(t, Criterion::Returning(peer2)) is Some {
            assert(is_first(t, Criterion::Returning(peer2), i));
        } else if first(t, Criterion::Anonymous) is Some {
            assert(is_first(t, Criterion::Anonymous, i));
        } else if first(t, Criterion::Disconnected) is Some {
            assert(is_first(t, Criterion::Disconnected, i));
        } else {
            lemma_no_first(t, Criterion::Disconnected);
            assert(is_oldest(t, i));
            let k = if i == 0 {
                1int
            } else {
                0int
            };
            assert(t[k] == s[k]);
            lemma_latest(s, k);
            assert(t[i].client.seq <= t[k].client.seq);
        }
    }
    assert(u[i] == t[i]);
    (i, j)
}

/// Where every slot has a link, a new link takes the slot that was claimed longest ago, and every
/// other link keeps its own.
pub proof fn theorem_oldest_slot_reclaimed<I: PeerIdentity>(
    s: Seq<Slot<I>>,
    handle: ConnHandle,
    peer: I,
) -> (i: int)
    requires
        valid_slots(s),
        s.len() > 0,
        forall|j: int|
            0 <= j < s.len() ==> (#[trigger] s[j]).client.handle is Some && s[j].client.handle
                != Some(handle),
    ensures
        is_oldest(s, i),
        claimed(s, handle, peer) == Some((i, true)),
        connected(s, handle, peer)[i].bytes == cleared_bytes(s[i].bytes),
        forall|j: int|
            0 <= j < s.len() && j != i ==> #[trigger] connected(s, handle, peer)[j] == s[j],
{
    let i = theorem_connect_gives_one_slot(s, handle, peer);
    lemma_no_first(s, Criterion::Holds(handle));
    lemma_no_first(s, Criterion::Returning(peer));
    lemma_no_first(s, Criterion::Anonymous);
    lemma_no_first(s, Criterion::Disconnected);
    assert(is_oldest(s, i));
    i
}

/// A claim has a higher number than all claims before it, unless the numbers start over.
pub proof fn theorem_claims_are_numbered_in_order<I: PeerIdentity>(s: Seq<Slot<I>>, i: int)
    requires
        0 <= i < s.len(),
        latest(s) < u32::MAX,
    ensures
        s[i].client.seq < next_seq(s),
{
    lemma_latest(s, i);
}

/// A slot is given on with its values only to the link that has it, to a known peer that had it, from
/// one unknown peer to another, or if it was never claimed, which its number shows. Everybody else
/// finds the values cleared.
pub proof fn theorem_values_are_not_inherited<I: PeerIdentity>(
    s: Seq<Slot<I>>,
    handle: ConnHandle,
    peer: I,
    att_handle: int,
) -> (i: int)
    requires
        valid_slots(s),
        s.len() > 0,
    ensures
        claimed(s, handle, peer) matches Some(c) && c.0 == i,
        0 <= i < s.len(),
        s[i].client.handle == Some(handle) || (peer != I::blank() && waits_for(s, i, peer)) || (
        s[i].client.handle is None && s[i].client.identity == I::blank() && (peer == I::blank()
            || s[i].client.seq == 0)) || {
            let t = connected(s, handle, peer);
            &&& attributes(t[i].bytes) == cleared(attributes(s[i].bytes))
            &&& match position(attributes(s[i].bytes), att_handle) {
                Some(k) => lookup(attributes(t[i].bytes), att_handle) == Some(
                    if attributes(s[i].bytes)[k].variable {
                        Seq::empty()
                    } else {
                        crate::bytes::zeros(attributes(s[i].bytes)[k].capacity)
                    },
                ),
                None => lookup(attributes(t[i].bytes), att_handle) is None,
            }
        },
{
    let i = theorem_connect_gives_one_slot(s, handle, peer);
    assert(layout::valid_storage(s[i].bytes));
    theorem_cleared_values(s[i].bytes, att_handle);
    if first(s, Criterion::Holds(handle)) is Some {
        assert(is_first(s, Criterion::Holds(handle), i));
    } else if peer != I::blank() && first(s, Criterion::Returning(peer)) is Some {
        assert(is_first(s, Criterion::Returning(peer), i));
    } else if first(s, Criterion::Anonymous) is Some {
        assert(is_first(s, Criterion::Anonymous, i));
    }
    i
}

// ---- Finding the slot of a link ----

/// A link finds its slot under whatever identity its peer has by now.
pub proof fn theorem_link_finds_its_slot<I: PeerIdentity>(
    s: Seq<Slot<I>>,
    handle: ConnHandle,
    peer: I,
    i: int,
)
    requires
        valid_slots(s),
        0 <= i < s.len(),
        s[i].client.handle == Some(handle),
    ensures
        owner(s, handle, peer) == Some(i),
{
    let want = Criterion::<I>::Holds(handle);
    lemma_some_first(s, want, i);
    let k = first(s, want)->0;
    assert(s[k].client.handle == s[i].client.handle);
}

/// A link that came up finds the slot that it was given, under whatever identity its peer has later.
pub proof fn theorem_new_link_finds_its_slot<I: PeerIdentity>(
    s: Seq<Slot<I>>,
    handle: ConnHandle,
    peer: I,
    later: I,
) -> (i: int)
    requires
        valid_slots(s),
        s.len() > 0,
    ensures
        claimed(s, handle, peer) matches Some(c) && c.0 == i,
        owner(connected(s, handle, peer), handle, later) == Some(i),
{
    let i = theorem_connect_gives_one_slot(s, handle, peer);
    theorem_link_finds_its_slot(connected(s, handle, peer), handle, later, i);
    i
}

/// When a link goes down its slot becomes free, whatever identity its peer has by now, and no slot has
/// the link any more. The client and its values stay in the slot, and all other slots are as they
/// were.
pub proof fn theorem_disconnect_frees_the_slot<I: PeerIdentity>(
    s: Seq<Slot<I>>,
    handle: ConnHandle,
    peer: I,
    i: int,
)
    requires
        valid_slots(s),
        0 <= i < s.len(),
        s[i].client.handle == Some(handle),
    ensures
        ({
            let t = disconnected(s, handle, peer);
            &&& t.len() == s.len()
            &&& t[i].client.handle is None
            &&& !t[i].client.is_connected
            &&& t[i].client.identity == s[i].client.identity
            &&& t[i].bytes == s[i].bytes
            &&& forall|j: int| 0 <= j < s.len() && j != i ==> #[trigger] t[j] == s[j]
            &&& first(t, Criterion::Holds(handle)) is None
            &&& valid_slots(t)
        }),
{
    theorem_link_finds_its_slot(s, handle, peer, i);
    let t = disconnected(s, handle, peer);
    assert forall|k: int| 0 <= k < t.len() implies layout::valid_storage(
        (#[trigger] t[k]).bytes,
    ) by {
        assert(layout::valid_storage(s[k].bytes));
    }
    lemma_no_first(t, Criterion::Holds(handle));
    assert forall|j: int| 0 <= j < t.len() implies !Criterion::<I>::Holds(handle).fits(
        (#[trigger] t[j]).client,
    ) by {
        if j != i && s[j].client.handle == Some(handle) {
            assert(s[i].client.handle == s[j].client.handle);
        }
    }
}

/// When a link goes down no values change, and no other link loses its slot.
pub proof fn theorem_disconnect_keeps_values_and_other_links<I: PeerIdentity>(
    s: Seq<Slot<I>>,
    handle: ConnHandle,
    peer: I,
    i: int,
)
    requires
        0 <= i < s.len(),
    ensures
        disconnected(s, handle, peer)[i].bytes == s[i].bytes,
        disconnected(s, handle, peer)[i].client.identity == s[i].client.identity,
        s[i].client.handle is Some && s[i].client.handle != Some(handle) ==> disconnected(
            s,
            handle,
            peer,
        )[i].client.handle == s[i].client.handle,
{
    lemma_owner(s, handle, peer);
}

/// When a link goes down, another link that is up reads what it read before.
pub proof fn theorem_disconnect_changes_nothing_for_others<I: PeerIdentity>(
    s: Seq<Slot<I>>,
    handle: ConnHandle,
    peer: I,
    handle2: ConnHandle,
    peer2: I,
    att_handle: int,
)
    requires
        valid_slots(s),
        handle2 != handle,
        first(s, Criterion::Holds(handle2)) is Some,
    ensures
        value_of(disconnected(s, handle, peer), handle2, peer2, att_handle) == value_of(
            s,
            handle2,
            peer2,
            att_handle,
        ),
{
    let want = Criterion::<I>::Holds(handle2);
    let i = first(s, want)->0;
    assert(is_first(s, want, i));
    lemma_owner(s, handle, peer);
    let t = disconnected(s, handle, peer);
    assert forall|j: int| 0 <= j < i implies !want.fits((#[trigger] t[j]).client) by {
        assert(!want.fits(s[j].client));
    }
    lemma_first(t, want, i);
}

/// The slot of a link has its handle, or waits for its peer.
proof fn lemma_owner<I: PeerIdentity>(s: Seq<Slot<I>>, handle: ConnHandle, peer: I)
    ensures
        owner(s, handle, peer) matches Some(i) ==> 0 <= i < s.len() && (s[i].client.handle == Some(
            handle,
        ) || waits_for(s, i, peer)),
{
    if first(s, Criterion::Holds(handle)) is Some {
        assert(is_first(s, Criterion::Holds(handle), first(s, Criterion::Holds(handle))->0));
    } else if first(s, Criterion::Returning(peer)) is Some {
        assert(is_first(s, Criterion::Returning(peer), first(s, Criterion::Returning(peer))->0));
    }
}

/// A known peer that comes back gets the slot that it had, with the values that it left there, if that
/// is the first slot that waits for it.
pub proof fn theorem_returning_peer_finds_its_values<I: PeerIdentity>(
    s: Seq<Slot<I>>,
    handle: ConnHandle,
    peer: I,
    i: int,
)
    requires
        0 <= i < s.len(),
        peer != I::blank(),
        waits_for(s, i, peer),
        forall|j: int| 0 <= j < i ==> !#[trigger] waits_for(s, j, peer),
        first(s, Criterion::Holds(handle)) is None,
    ensures
        claimed(s, handle, peer) == Some((i, false)),
        connected(s, handle, peer)[i].client.handle == Some(handle),
        connected(s, handle, peer)[i].bytes == s[i].bytes,
{
    let want = Criterion::Returning(peer);
    assert forall|j: int| 0 <= j < i implies !want.fits((#[trigger] s[j]).client) by {
        assert(!waits_for(s, j, peer));
    }
    lemma_first(s, want, i);
}

/// A known peer whose link went down and came up again, under another handle perhaps, has the slot
/// and the values that it had before, if no slot before it waits for the peer.
pub proof fn theorem_reconnecting_keeps_values<I: PeerIdentity>(
    s: Seq<Slot<I>>,
    handle: ConnHandle,
    leaving: I,
    handle2: ConnHandle,
    coming: I,
    i: int,
)
    requires
        valid_slots(s),
        0 <= i < s.len(),
        s[i].client.handle == Some(handle),
        coming != I::blank(),
        s[i].client.identity.same_peer(&coming),
        forall|j: int| 0 <= j < i ==> !#[trigger] waits_for(s, j, coming),
        forall|j: int|
            0 <= j < s.len() && j != i ==> (#[trigger] s[j]).client.handle != Some(handle2),
    ensures
        ({
            let t = connected(disconnected(s, handle, leaving), handle2, coming);
            &&& t[i].client.handle == Some(handle2)
            &&& t[i].bytes == s[i].bytes
        }),
{
    theorem_disconnect_frees_the_slot(s, handle, leaving, i);
    let t = disconnected(s, handle, leaving);
    lemma_no_first(t, Criterion::Holds(handle2));
    assert forall|j: int| 0 <= j < t.len() implies !Criterion::Holds(handle2).fits(
        (#[trigger] t[j]).client,
    ) by {
        if j != i {
            assert(t[j] == s[j]);
        }
    }
    assert forall|j: int| 0 <= j < i implies !#[trigger] waits_for(t, j, coming) by {
        assert(t[j] == s[j]);
        assert(!waits_for(s, j, coming));
    }
    theorem_returning_peer_finds_its_values(t, handle2, coming, i);
}

// ---- Values ----

/// A value that a link reads is no longer than Bluetooth allows: a buffer of that size holds any.
pub proof fn theorem_read_values_fit<I: PeerIdentity>(
    s: Seq<Slot<I>>,
    handle: ConnHandle,
    peer: I,
    att_handle: int,
)
    requires
        valid_slots(s),
    ensures
        value_of(s, handle, peer, att_handle) matches Some(v) ==> v.len() <= layout::MAX_VALUE_LEN,
{
    lemma_owner(s, handle, peer);
    if value_of(s, handle, peer, att_handle) is Some {
        let i = owner(s, handle, peer)->0;
        assert(layout::valid_storage(s[i].bytes));
        theorem_attributes_in_range(s[i].bytes);
        let a = attributes(s[i].bytes);
        let k = position(a, att_handle)->0;
        assert(layout::is_position(a, att_handle, k));
        assert(a[k].value.len() <= a[k].capacity);
    }
}

/// A link reads back what it wrote.
pub proof fn theorem_link_reads_back_its_write<I: PeerIdentity>(
    s: Seq<Slot<I>>,
    handle: ConnHandle,
    peer: I,
    att_handle: int,
    offset: int,
    data: Seq<u8>,
) -> (i: int)
    requires
        valid_slots(s),
        offset >= 0,
        write_result(s, handle, peer, att_handle, offset, data.len() as int) is Ok,
    ensures
        owner(s, handle, peer) == Some(i),
        0 <= i < s.len(),
        ({
            let a = attributes(s[i].bytes);
            let t = after_write(s, handle, peer, att_handle, offset, data);
            &&& position(a, att_handle) is Some
            &&& value_of(t, handle, peer, att_handle) == Some(
                layout::written_value(a[position(a, att_handle)->0], offset, data),
            )
        }),
{
    lemma_owner(s, handle, peer);
    let i = owner(s, handle, peer)->0;
    assert(layout::valid_storage(s[i].bytes));
    theorem_write_then_get(s[i].bytes, att_handle, offset, data);
    let t = after_write(s, handle, peer, att_handle, offset, data);
    lemma_same_clients_found(s, t, Criterion::Holds(handle));
    lemma_same_clients_found(s, t, Criterion::Returning(peer));
    i
}

/// A write by one link changes nothing that a link with another slot reads.
pub proof fn theorem_write_is_the_links_own<I: PeerIdentity>(
    s: Seq<Slot<I>>,
    handle: ConnHandle,
    peer: I,
    att_handle: int,
    offset: int,
    data: Seq<u8>,
    handle2: ConnHandle,
    peer2: I,
    att_handle2: int,
)
    requires
        owner(s, handle, peer) != owner(s, handle2, peer2),
    ensures
        value_of(
            after_write(s, handle, peer, att_handle, offset, data),
            handle2,
            peer2,
            att_handle2,
        ) == value_of(s, handle2, peer2, att_handle2),
{
    let t = after_write(s, handle, peer, att_handle, offset, data);
    lemma_owner(s, handle, peer);
    lemma_same_clients_found(s, t, Criterion::Holds(handle2));
    lemma_same_clients_found(s, t, Criterion::Returning(peer2));
}

/// Slots are found by their clients alone.
proof fn lemma_same_clients_found<I: PeerIdentity>(
    s: Seq<Slot<I>>,
    t: Seq<Slot<I>>,
    want: Criterion<I>,
)
    requires
        s.len() == t.len(),
        forall|i: int| 0 <= i < s.len() ==> (#[trigger] t[i]).client == s[i].client,
    ensures
        first(t, want) == first(s, want),
        first(s, want) matches Some(i) ==> is_first(s, want, i),
{
    lemma_no_first(s, want);
    lemma_no_first(t, want);
    if first(s, want) is Some {
        let i = first(s, want)->0;
        assert(is_first(s, want, i));
        assert forall|j: int| 0 <= j < i implies !want.fits((#[trigger] t[j]).client) by {
            assert(!want.fits(s[j].client));
        }
        assert(is_first(t, want, i));
        lemma_first(t, want, i);
    } else {
        assert forall|j: int| 0 <= j < t.len() implies !want.fits((#[trigger] t[j]).client) by {
            assert(!want.fits(s[j].client));
        }
    }
}

/// Which attributes a slot has, of which kinds and capacities, never changes.
pub proof fn theorem_slots_keep_their_shape<I: PeerIdentity>(
    s: Seq<Slot<I>>,
    handle: ConnHandle,
    peer: I,
    att_handle: int,
    offset: int,
    data: Seq<u8>,
    src: Seq<layout::Attribute>,
    i: int,
)
    requires
        valid_slots(s),
        0 <= i < s.len(),
        offset >= 0,
    ensures
        ({
            let a = attributes(s[i].bytes);
            &&& same_shape(a, attributes(connected(s, handle, peer)[i].bytes))
            &&& same_shape(a, attributes(disconnected(s, handle, peer)[i].bytes))
            &&& same_shape(
                a,
                attributes(after_write(s, handle, peer, att_handle, offset, data)[i].bytes),
            )
            &&& same_shape(a, attributes(after_restore(s, peer, src)[i].bytes))
            &&& same_shape(a, attributes(after_update(s, peer)[i].bytes))
        }),
{
    assert(layout::valid_storage(s[i].bytes));
    let c = theorem_connect_gives_one_slot(s, handle, peer);
    if c != i {
        assert(connected(s, handle, peer)[i] == s[i]);
    }
    theorem_cleared_values(s[i].bytes, 0);
    theorem_write_keeps_the_rest(s[i].bytes, att_handle, offset, data, att_handle + 1);
    theorem_copied_values(s[i].bytes, src, 0);
    theorem_disconnect_keeps_values_and_other_links(s, handle, peer, i);
}

/// The raw bytes of a peer's table restore its attributes, whatever was written in the meantime and
/// whichever slot of the same shape the peer has by then.
pub proof fn theorem_saved_client_restored<I: PeerIdentity>(s: Seq<Slot<I>>, peer: I, saved: Seq<u8>) -> (i:
    int)
    requires
        valid_slots(s),
        valid_table(saved),
        first(s, Criterion::Identifies(peer)) is Some,
        same_shape(
            attributes(s[first(s, Criterion::Identifies(peer))->0].bytes),
            attributes(saved),
        ),
    ensures
        0 <= i < s.len(),
        first(s, Criterion::Identifies(peer)) == Some(i),
        ({
            let t = after_restore(s, peer, attributes(saved.take(values_end(saved))));
            &&& first(t, Criterion::Identifies(peer)) == Some(i)
            &&& attributes(t[i].bytes) == attributes(saved)
            &&& forall|j: int| 0 <= j < s.len() && j != i ==> #[trigger] t[j] == s[j]
        }),
{
    let want = Criterion::Identifies(peer);
    let i = first(s, want)->0;
    assert(is_first(s, want, i));
    assert(layout::valid_storage(s[i].bytes));
    theorem_saved_values_restored(s[i].bytes, saved);
    lemma_same_clients_found(
        s,
        after_restore(s, peer, attributes(saved.take(values_end(saved)))),
        want,
    );
    i
}

/// Learning more of who a client is changes no link and no value.
pub proof fn theorem_update_keeps_links_and_values<I: PeerIdentity>(
    s: Seq<Slot<I>>,
    identity: I,
    i: int,
)
    requires
        0 <= i < s.len(),
    ensures
        after_update(s, identity)[i].client.handle == s[i].client.handle,
        after_update(s, identity)[i].client.is_connected == s[i].client.is_connected,
        after_update(s, identity)[i].client.seq == s[i].client.seq,
        after_update(s, identity)[i].bytes == s[i].bytes,
{
}

// ---- Which slot a new link takes ----

/// No slot has the given link.
pub open spec fn is_new<I>(s: Seq<Slot<I>>, handle: ConnHandle) -> bool {
    forall|j: int| 0 <= j < s.len() ==> (#[trigger] s[j]).client.handle != Some(handle)
}

/// The peer is not known yet, or no slot waits for it.
pub open spec fn is_unexpected<I: PeerIdentity>(s: Seq<Slot<I>>, peer: I) -> bool {
    peer == I::blank() || forall|j: int| 0 <= j < s.len() ==> !#[trigger] waits_for(s, j, peer)
}

/// Slot `i` has no link and no known client.
pub open spec fn is_anonymous<I: PeerIdentity>(s: Seq<Slot<I>>, i: int) -> bool {
    s[i].client.handle is None && s[i].client.identity == I::blank()
}

/// `t` is `s` after slot `i` was given to the link: the slot has the link, its peer and a new number,
/// and no other slot changed.
pub open spec fn given<I>(
    s: Seq<Slot<I>>,
    t: Seq<Slot<I>>,
    i: int,
    handle: ConnHandle,
    peer: I,
) -> bool {
    &&& t.len() == s.len()
    &&& t[i].client.handle == Some(handle)
    &&& t[i].client.is_connected
    &&& t[i].client.identity == peer
    &&& t[i].client.seq == next_seq(s)
    &&& forall|j: int| 0 <= j < s.len() && j != i ==> #[trigger] t[j] == s[j]
}

/// What the slots of a valid state have in common: a table each, a client that is connected as long as
/// it has a link, and no link that another slot has too.
pub proof fn theorem_what_is_valid<I>(s: Seq<Slot<I>>)
    ensures
        valid_slots(s) <==> {
            &&& forall|i: int| 0 <= i < s.len() ==> layout::valid_storage((#[trigger] s[i]).bytes)
            &&& forall|i: int|
                0 <= i < s.len() ==> ((#[trigger] s[i]).client.is_connected
                    <==> s[i].client.handle is Some)
            &&& forall|i: int, j: int|
                0 <= i < j < s.len() && (#[trigger] s[i]).client.handle is Some ==> (
                #[trigger] s[j]).client.handle != s[i].client.handle
        },
{
}

/// Tables are well-formed exactly if there is a slot for each connection and the slots are valid.
pub proof fn theorem_what_is_well_formed<I: PeerIdentity, const CONN_MAX: usize>(
    tables: ClientAttTables<I, CONN_MAX>,
)
    ensures
        tables.wf() <==> tables.slots().len() == CONN_MAX && valid_slots(tables.slots()),
{
}

/// A link that has a slot gets that one again, with what is known of its peer by now, and keeps its
/// values.
pub proof fn theorem_link_keeps_its_slot<I: PeerIdentity>(
    s: Seq<Slot<I>>,
    handle: ConnHandle,
    peer: I,
    i: int,
)
    requires
        valid_slots(s),
        0 <= i < s.len(),
        s[i].client.handle == Some(handle),
    ensures
        given(s, connected(s, handle, peer), i, handle, peer),
        connected(s, handle, peer)[i].bytes == s[i].bytes,
{
    theorem_connecting_again_keeps_the_slot(s, handle, peer, i);
}

/// A new link to a known peer takes the first slot that waits for the peer, and finds its values.
pub proof fn theorem_first_waiting_slot_taken<I: PeerIdentity>(
    s: Seq<Slot<I>>,
    handle: ConnHandle,
    peer: I,
    i: int,
)
    requires
        is_new(s, handle),
        peer != I::blank(),
        0 <= i < s.len(),
        waits_for(s, i, peer),
        forall|j: int| 0 <= j < i ==> !#[trigger] waits_for(s, j, peer),
    ensures
        given(s, connected(s, handle, peer), i, handle, peer),
        connected(s, handle, peer)[i].bytes == s[i].bytes,
{
    lemma_no_first(s, Criterion::Holds(handle));
    theorem_returning_peer_finds_its_values(s, handle, peer, i);
}

/// A new link whose peer no slot waits for takes the first slot that has neither a link nor a known
/// client, if there is one. Its values stay if the peer is not known either or the slot was never
/// claimed, and are cleared otherwise.
pub proof fn theorem_first_anonymous_slot_taken<I: PeerIdentity>(
    s: Seq<Slot<I>>,
    handle: ConnHandle,
    peer: I,
    i: int,
)
    requires
        is_new(s, handle),
        is_unexpected(s, peer),
        0 <= i < s.len(),
        is_anonymous(s, i),
        forall|j: int| 0 <= j < i ==> !#[trigger] is_anonymous(s, j),
    ensures
        given(s, connected(s, handle, peer), i, handle, peer),
        connected(s, handle, peer)[i].bytes == if peer == I::blank() || s[i].client.seq == 0 {
            s[i].bytes
        } else {
            cleared_bytes(s[i].bytes)
        },
{
    lemma_not_expected(s, handle, peer);
    let want = Criterion::<I>::Anonymous;
    assert forall|j: int| 0 <= j < i implies !want.fits((#[trigger] s[j]).client) by {
        assert(!is_anonymous(s, j));
    }
    lemma_first(s, want, i);
}

/// Where every slot without a link has a known client, and none is the peer, a new link takes the first
/// slot without a link, and clears its values.
pub proof fn theorem_first_free_slot_taken<I: PeerIdentity>(
    s: Seq<Slot<I>>,
    handle: ConnHandle,
    peer: I,
    i: int,
)
    requires
        valid_slots(s),
        is_new(s, handle),
        is_unexpected(s, peer),
        forall|j: int| 0 <= j < s.len() ==> !#[trigger] is_anonymous(s, j),
        0 <= i < s.len(),
        s[i].client.handle is None,
        forall|j: int| 0 <= j < i ==> (#[trigger] s[j]).client.handle is Some,
    ensures
        given(s, connected(s, handle, peer), i, handle, peer),
        connected(s, handle, peer)[i].bytes == cleared_bytes(s[i].bytes),
{
    lemma_not_expected(s, handle, peer);
    lemma_no_first(s, Criterion::Anonymous);
    assert forall|j: int| 0 <= j < s.len() implies !Criterion::<I>::Anonymous.fits(
        (#[trigger] s[j]).client,
    ) by {
        assert(!is_anonymous(s, j));
    }
    lemma_first(s, Criterion::Disconnected, i);
}

/// Where every slot has another link, a new link takes the slot with the lowest number, the first one
/// of those if there are more, and clears its values.
pub proof fn theorem_lowest_numbered_slot_taken<I: PeerIdentity>(
    s: Seq<Slot<I>>,
    handle: ConnHandle,
    peer: I,
    i: int,
)
    requires
        valid_slots(s),
        is_new(s, handle),
        forall|j: int| 0 <= j < s.len() ==> (#[trigger] s[j]).client.handle is Some,
        0 <= i < s.len(),
        forall|j: int| 0 <= j < s.len() ==> s[i].client.seq <= (#[trigger] s[j]).client.seq,
        forall|j: int| 0 <= j < i ==> (#[trigger] s[j]).client.seq != s[i].client.seq,
    ensures
        given(s, connected(s, handle, peer), i, handle, peer),
        connected(s, handle, peer)[i].bytes == cleared_bytes(s[i].bytes),
{
    lemma_oldest(s, i);
    let k = theorem_oldest_slot_reclaimed(s, handle, peer);
    lemma_oldest(s, k);
}

/// A link that no slot has or waits for is not found.
proof fn lemma_not_expected<I: PeerIdentity>(s: Seq<Slot<I>>, handle: ConnHandle, peer: I)
    requires
        is_new(s, handle),
        is_unexpected(s, peer),
    ensures
        first(s, Criterion::Holds(handle)) is None,
        peer == I::blank() || first(s, Criterion::Returning(peer)) is None,
{
    lemma_no_first(s, Criterion::Holds(handle));
    lemma_no_first(s, Criterion::Returning(peer));
    if peer != I::blank() {
        assert forall|j: int| 0 <= j < s.len() implies !Criterion::Returning(peer).fits(
            (#[trigger] s[j]).client,
        ) by {
            assert(!waits_for(s, j, peer));
        }
    }
}

/// As long as a slot has neither a link nor a known client, a new link whose peer no slot waits for
/// changes no slot of a known client.
pub proof fn theorem_known_clients_keep_their_slots<I: PeerIdentity>(
    s: Seq<Slot<I>>,
    handle: ConnHandle,
    peer: I,
    free: int,
    j: int,
)
    requires
        is_new(s, handle),
        is_unexpected(s, peer),
        0 <= free < s.len(),
        is_anonymous(s, free),
        0 <= j < s.len(),
        s[j].client.identity != I::blank(),
    ensures
        connected(s, handle, peer)[j] == s[j],
    decreases free,
{
    if exists|k: int| 0 <= k < free && #[trigger] is_anonymous(s, k) {
        let k = choose|k: int| 0 <= k < free && #[trigger] is_anonymous(s, k);
        theorem_known_clients_keep_their_slots(s, handle, peer, k, j);
    } else {
        theorem_first_anonymous_slot_taken(s, handle, peer, free);
        assert(connected(s, handle, peer)[j] == s[j]);
    }
}

/// A new link loses a known client its values only if no slot is free that has no known client, and
/// only if the slot is not that of a peer that came back.
pub proof fn theorem_when_values_of_a_known_client_are_lost<I: PeerIdentity>(
    s: Seq<Slot<I>>,
    handle: ConnHandle,
    peer: I,
    j: int,
)
    requires
        valid_slots(s),
        0 <= j < s.len(),
        s[j].client.identity != I::blank(),
        connected(s, handle, peer)[j].bytes != s[j].bytes,
    ensures
        is_new(s, handle),
        is_unexpected(s, peer),
        forall|k: int| 0 <= k < s.len() ==> !#[trigger] is_anonymous(s, k),
{
    if exists|k: int| 0 <= k < s.len() && (#[trigger] s[k]).client.handle == Some(handle) {
        let k = choose|k: int| 0 <= k < s.len() && (#[trigger] s[k]).client.handle == Some(handle);
        theorem_link_keeps_its_slot(s, handle, peer, k);
        assert(k == j || connected(s, handle, peer)[j] == s[j]);
    }
    if !is_unexpected(s, peer) {
        let k = choose|k: int| 0 <= k < s.len() && #[trigger] waits_for(s, k, peer);
        let i = lemma_first_waiting(s, peer, k);
        theorem_first_waiting_slot_taken(s, handle, peer, i);
        assert(i == j || connected(s, handle, peer)[j] == s[j]);
    }
    assert forall|k: int| 0 <= k < s.len() implies !#[trigger] is_anonymous(s, k) by {
        if is_anonymous(s, k) {
            theorem_known_clients_keep_their_slots(s, handle, peer, k, j);
        }
    }
}

/// If a slot waits for a peer, one does so first.
proof fn lemma_first_waiting<I: PeerIdentity>(s: Seq<Slot<I>>, peer: I, k: int) -> (i: int)
    requires
        0 <= k < s.len(),
        waits_for(s, k, peer),
    ensures
        0 <= i <= k,
        waits_for(s, i, peer),
        forall|j: int| 0 <= j < i ==> !#[trigger] waits_for(s, j, peer),
    decreases k,
{
    if exists|j: int| 0 <= j < k && #[trigger] waits_for(s, j, peer) {
        lemma_first_waiting(s, peer, choose|j: int| 0 <= j < k && #[trigger] waits_for(s, j, peer))
    } else {
        k
    }
}

/// The number of a claim is one more than the highest in any slot; 1 where there are none, and 0 after
/// the highest number that there is.
pub proof fn theorem_next_number<I>(s: Seq<Slot<I>>, i: int)
    requires
        0 <= i < s.len() ==> forall|j: int|
            0 <= j < s.len() ==> (#[trigger] s[j]).client.seq <= s[i].client.seq,
    ensures
        s.len() == 0 ==> next_seq(s) == 1,
        0 <= i < s.len() && s[i].client.seq < u32::MAX ==> next_seq(s) == s[i].client.seq + 1,
        0 <= i < s.len() && s[i].client.seq == u32::MAX ==> next_seq(s) == 0,
{
    if 0 <= i < s.len() {
        lemma_latest(s, i);
        let k = lemma_latest_is_some(s);
        assert(s[k].client.seq <= s[i].client.seq);
    }
}

/// The highest number is that of some claim.
proof fn lemma_latest_is_some<I>(s: Seq<Slot<I>>) -> (i: int)
    requires
        s.len() > 0,
    ensures
        0 <= i < s.len(),
        s[i].client.seq == latest(s),
    decreases s.len(),
{
    reveal_with_fuel(latest, 2);
    let n = s.len() - 1;
    if n == 0 || latest(s.drop_last()) < s.last().client.seq {
        n
    } else {
        let i = lemma_latest_is_some(s.drop_last());
        assert(s.drop_last()[i] == s[i]);
        i
    }
}

// ---- Which slot is meant ----

/// A link that no slot has is taken to have the first slot that waits for its peer, and none if no slot
/// does.
pub proof fn theorem_slot_of_a_lost_link<I: PeerIdentity>(
    s: Seq<Slot<I>>,
    handle: ConnHandle,
    peer: I,
    i: int,
)
    requires
        is_new(s, handle),
    ensures
        0 <= i < s.len() && waits_for(s, i, peer) && (forall|j: int|
            0 <= j < i ==> !#[trigger] waits_for(s, j, peer)) ==> owner(s, handle, peer) == Some(i),
        (forall|j: int| 0 <= j < s.len() ==> !#[trigger] waits_for(s, j, peer)) ==> owner(
            s,
            handle,
            peer,
        ) is None,
{
    let want = Criterion::Returning(peer);
    lemma_no_first(s, Criterion::Holds(handle));
    lemma_no_first(s, want);
    if 0 <= i < s.len() && waits_for(s, i, peer) && (forall|j: int|
        0 <= j < i ==> !#[trigger] waits_for(s, j, peer)) {
        assert forall|j: int| 0 <= j < i implies !want.fits((#[trigger] s[j]).client) by {
            assert(!waits_for(s, j, peer));
        }
        lemma_first(s, want, i);
    }
    if forall|j: int| 0 <= j < s.len() ==> !#[trigger] waits_for(s, j, peer) {
        assert forall|j: int| 0 <= j < s.len() implies !want.fits((#[trigger] s[j]).client) by {
            assert(!waits_for(s, j, peer));
        }
    }
}

/// When a link goes down that no slot has, nothing changes.
pub proof fn theorem_disconnect_of_a_lost_link<I: PeerIdentity>(
    s: Seq<Slot<I>>,
    handle: ConnHandle,
    peer: I,
)
    requires
        valid_slots(s),
        is_new(s, handle),
    ensures
        disconnected(s, handle, peer) == s,
{
    lemma_owner(s, handle, peer);
    if owner(s, handle, peer) is Some {
        let i = owner(s, handle, peer)->0;
        assert(!s[i].client.is_connected);
    }
    assert(disconnected(s, handle, peer) =~= s);
}

/// When a link goes down, the number of its slot stays.
pub proof fn theorem_disconnect_keeps_the_number<I: PeerIdentity>(
    s: Seq<Slot<I>>,
    handle: ConnHandle,
    peer: I,
    i: int,
)
    requires
        0 <= i < s.len(),
    ensures
        disconnected(s, handle, peer)[i].client.seq == s[i].client.seq,
{
    lemma_owner(s, handle, peer);
}

/// The table of a peer is that of the first slot whose client is the peer, with a link or without, and
/// there is none only if no slot's client is.
pub proof fn theorem_table_of_a_peer<I: PeerIdentity>(s: Seq<Slot<I>>, peer: I, i: int)
    requires
        0 <= i < s.len(),
    ensures
        s[i].client.identity.same_peer(&peer) ==> {
            &&& first(s, Criterion::Identifies(peer)) matches Some(k) && 0 <= k <= i
                && s[k].client.identity.same_peer(&peer)
            &&& forall|j: int|
                0 <= j < first(s, Criterion::Identifies(peer))->0 ==> !(
                #[trigger] s[j]).client.identity.same_peer(&peer)
        },
        first(s, Criterion::Identifies(peer)) is None <==> forall|j: int|
            0 <= j < s.len() ==> !(#[trigger] s[j]).client.identity.same_peer(&peer),
{
    let want = Criterion::Identifies(peer);
    lemma_no_first(s, want);
    if s[i].client.identity.same_peer(&peer) {
        lemma_some_first(s, want, i);
    }
    if forall|j: int| 0 <= j < s.len() ==> !(#[trigger] s[j]).client.identity.same_peer(&peer) {
        assert forall|j: int| 0 <= j < s.len() implies !want.fits((#[trigger] s[j]).client) by {}
    }
}

/// The table of a peer is found after a link went down where it was found before, and is the same.
pub proof fn theorem_table_of_a_peer_outlives_its_link<I: PeerIdentity>(
    s: Seq<Slot<I>>,
    handle: ConnHandle,
    leaving: I,
    peer: I,
)
    ensures
        first(disconnected(s, handle, leaving), Criterion::Identifies(peer)) == first(
            s,
            Criterion::Identifies(peer),
        ),
        first(s, Criterion::Identifies(peer)) matches Some(i) ==> disconnected(
            s,
            handle,
            leaving,
        )[i].bytes == s[i].bytes,
{
    let t = disconnected(s, handle, leaving);
    let want = Criterion::Identifies(peer);
    lemma_owner(s, handle, leaving);
    lemma_no_first(s, want);
    lemma_no_first(t, want);
    assert forall|j: int| 0 <= j < s.len() implies (#[trigger] t[j]).client.identity
        == s[j].client.identity by {}
    if first(s, want) is Some {
        let i = first(s, want)->0;
        assert(is_first(s, want, i));
        assert forall|j: int| 0 <= j < i implies !want.fits((#[trigger] t[j]).client) by {
            assert(!want.fits(s[j].client));
        }
        assert(want.fits(t[i].client));
        lemma_first(t, want, i);
    } else {
        assert forall|j: int| 0 <= j < t.len() implies !want.fits((#[trigger] t[j]).client) by {
            assert(!want.fits(s[j].client));
        }
    }
}

// ---- What changes in which slot ----

/// A new identity goes to the first slot whose client it identifies. Nothing else of that slot changes,
/// and no other slot. If it identifies no slot's client, nothing changes.
pub proof fn theorem_what_an_update_changes<I: PeerIdentity>(s: Seq<Slot<I>>, identity: I, i: int)
    ensures
        after_update(s, identity).len() == s.len(),
        0 <= i < s.len() && identity.same_peer(&s[i].client.identity) && (forall|j: int|
            0 <= j < i ==> !identity.same_peer(&(#[trigger] s[j]).client.identity)) ==> {
            let t = after_update(s, identity);
            &&& first(s, Criterion::KnownAs(identity)) == Some(i)
            &&& t[i].client.identity == identity
            &&& t[i].client.handle == s[i].client.handle
            &&& t[i].client.is_connected == s[i].client.is_connected
            &&& t[i].client.seq == s[i].client.seq
            &&& t[i].bytes == s[i].bytes
            &&& forall|j: int| 0 <= j < s.len() && j != i ==> #[trigger] t[j] == s[j]
        },
        (forall|j: int|
            0 <= j < s.len() ==> !identity.same_peer(&(#[trigger] s[j]).client.identity)) ==> {
            &&& first(s, Criterion::KnownAs(identity)) is None
            &&& after_update(s, identity) == s
        },
{
    let want = Criterion::KnownAs(identity);
    lemma_no_first(s, want);
    if 0 <= i < s.len() && identity.same_peer(&s[i].client.identity) && (forall|j: int|
        0 <= j < i ==> !identity.same_peer(&(#[trigger] s[j]).client.identity)) {
        assert(is_first(s, want, i));
        lemma_first(s, want, i);
    }
    if forall|j: int|
        0 <= j < s.len() ==> !identity.same_peer(&(#[trigger] s[j]).client.identity) {
        assert forall|j: int| 0 <= j < s.len() implies !want.fits((#[trigger] s[j]).client) by {}
    }
}

/// Updating again with the same identity changes nothing, if the identity belongs to the peer that it
/// identifies.
pub proof fn theorem_updating_again_changes_nothing<I: PeerIdentity>(s: Seq<Slot<I>>, identity: I)
    requires
        identity.same_peer(&identity),
    ensures
        after_update(after_update(s, identity), identity) == after_update(s, identity),
{
    let want = Criterion::KnownAs(identity);
    let t = after_update(s, identity);
    if first(s, want) is Some {
        let i = first(s, want)->0;
        assert(is_first(s, want, i));
        assert forall|j: int| 0 <= j < i implies !identity.same_peer(
            &(#[trigger] t[j]).client.identity,
        ) by {
            assert(!want.fits(s[j].client));
        }
        theorem_what_an_update_changes(t, identity, i);
        assert(after_update(t, identity) =~= t);
    }
}

/// Replacing the values of a peer changes the table of the first slot whose client is the peer. Each
/// key of that slot that `src` has too, whatever other keys either has, reads back as the value in
/// `src`: cut to the capacity and, if its length is fixed, filled up with zeros.
pub proof fn theorem_what_a_restore_changes<I: PeerIdentity>(
    s: Seq<Slot<I>>,
    peer: I,
    src: Seq<u8>,
    i: int,
    k: int,
    l: int,
)
    requires
        valid_slots(s),
        valid_table(src),
        0 <= i < s.len(),
        s[i].client.identity.same_peer(&peer),
        forall|j: int| 0 <= j < i ==> !(#[trigger] s[j]).client.identity.same_peer(&peer),
        0 <= k < attributes(s[i].bytes).len(),
    ensures
        ({
            let t = after_restore(s, peer, attributes(src));
            let a = attributes(s[i].bytes)[k];
            let v = attributes(src)[l].value;
            let n = if v.len() <= a.capacity {
                v.len() as int
            } else {
                a.capacity
            };
            &&& t.len() == s.len()
            &&& forall|j: int| 0 <= j < s.len() && j != i ==> #[trigger] t[j] == s[j]
            &&& t[i].client == s[i].client
            &&& t[i].bytes == layout::restored_bytes(s[i].bytes, attributes(src))
            &&& lookup(attributes(t[i].bytes), a.key) matches Some(w) && {
                &&& a.variable || w.len() == a.capacity
                &&& 0 <= l < attributes(src).len() && attributes(src)[l].key == a.key ==> {
                    &&& a.variable ==> w.len() == n
                    &&& forall|j: int| 0 <= j < n ==> #[trigger] w[j] == v[j]
                    &&& forall|j: int| n <= j < w.len() ==> #[trigger] w[j] == 0
                }
                &&& (forall|m: int|
                    0 <= m < attributes(src).len() ==> (#[trigger] attributes(src)[m]).key
                        != a.key) ==> {
                    &&& a.variable ==> w.len() == 0
                    &&& forall|j: int| 0 <= j < w.len() ==> #[trigger] w[j] == 0
                }
            }
        }),
{
    assert(is_first(s, Criterion::Identifies(peer), i));
    lemma_first(s, Criterion::Identifies(peer), i);
    assert(layout::valid_storage(s[i].bytes));
    theorem_what_is_copied(s[i].bytes, src, k, l);
}

/// Replacing the values of a peer that no slot's client is changes nothing, and no key appears where it
/// was not.
pub proof fn theorem_what_a_restore_leaves<I: PeerIdentity>(
    s: Seq<Slot<I>>,
    peer: I,
    src: Seq<layout::Attribute>,
    i: int,
    key: int,
)
    requires
        valid_slots(s),
        0 <= i < s.len(),
    ensures
        (forall|j: int| 0 <= j < s.len() ==> !(#[trigger] s[j]).client.identity.same_peer(&peer))
            ==> after_restore(s, peer, src) == s,
        lookup(attributes(s[i].bytes), key) is None ==> lookup(
            attributes(after_restore(s, peer, src)[i].bytes),
            key,
        ) is None,
{
    let want = Criterion::Identifies(peer);
    lemma_no_first(s, want);
    if forall|j: int| 0 <= j < s.len() ==> !(#[trigger] s[j]).client.identity.same_peer(&peer) {
        assert forall|j: int| 0 <= j < s.len() implies !want.fits((#[trigger] s[j]).client) by {}
    }
    assert(layout::valid_storage(s[i].bytes));
    if lookup(attributes(s[i].bytes), key) is None {
        assert forall|k: int| 0 <= k < attributes(s[i].bytes).len() implies (#[trigger] attributes(
            s[i].bytes,
        )[k]).key != key by {
            if attributes(s[i].bytes)[k].key == key {
                assert(layout::is_position(attributes(s[i].bytes), key, k));
            }
        }
        theorem_no_key_appears(s[i].bytes, key, 0, Seq::empty(), src, key);
    }
}

/// A link reads from its own slot: what the attribute with the asked key has there, and nothing if none
/// has that key.
pub proof fn theorem_what_a_link_reads<I: PeerIdentity>(
    s: Seq<Slot<I>>,
    handle: ConnHandle,
    peer: I,
    i: int,
    att_handle: int,
    k: int,
)
    requires
        valid_slots(s),
        0 <= i < s.len(),
        s[i].client.handle == Some(handle) || (is_new(s, handle) && waits_for(s, i, peer) && forall|
            j: int,
        |
            0 <= j < i ==> !#[trigger] waits_for(s, j, peer)),
    ensures
        owner(s, handle, peer) == Some(i),
        0 <= k < attributes(s[i].bytes).len() && attributes(s[i].bytes)[k].key == att_handle
            ==> value_of(s, handle, peer, att_handle) == Some(attributes(s[i].bytes)[k].value),
        (forall|l: int|
            0 <= l < attributes(s[i].bytes).len() ==> (#[trigger] attributes(s[i].bytes)[l]).key
                != att_handle) ==> value_of(s, handle, peer, att_handle) is None,
{
    if s[i].client.handle == Some(handle) {
        theorem_link_finds_its_slot(s, handle, peer, i);
    } else {
        theorem_slot_of_a_lost_link(s, handle, peer, i);
    }
    assert(layout::valid_storage(s[i].bytes));
    crate::format_laws::theorem_what_is_found(s[i].bytes, att_handle, k);
}

/// A link without a slot reads nothing, and its writes are refused and change nothing.
pub proof fn theorem_link_without_a_slot<I: PeerIdentity>(
    s: Seq<Slot<I>>,
    handle: ConnHandle,
    peer: I,
    att_handle: int,
    offset: int,
    data: Seq<u8>,
)
    requires
        is_new(s, handle),
        forall|j: int| 0 <= j < s.len() ==> !#[trigger] waits_for(s, j, peer),
    ensures
        owner(s, handle, peer) is None,
        value_of(s, handle, peer, att_handle) is None,
        write_result(s, handle, peer, att_handle, offset, data.len() as int) == Err::<
            (),
            AttErrorCode,
        >(AttErrorCode::ATTRIBUTE_NOT_FOUND),
        after_write(s, handle, peer, att_handle, offset, data) == s,
{
    theorem_slot_of_a_lost_link(s, handle, peer, 0);
}

/// A link writes to the table of its own slot, with the result that the table gives. No other slot
/// changes, nor who has the slot.
pub proof fn theorem_what_a_link_writes<I: PeerIdentity>(
    s: Seq<Slot<I>>,
    handle: ConnHandle,
    peer: I,
    i: int,
    att_handle: int,
    offset: int,
    data: Seq<u8>,
)
    requires
        valid_slots(s),
        0 <= i < s.len(),
        s[i].client.handle == Some(handle) || (is_new(s, handle) && waits_for(s, i, peer) && forall|
            j: int,
        |
            0 <= j < i ==> !#[trigger] waits_for(s, j, peer)),
    ensures
        ({
            let t = after_write(s, handle, peer, att_handle, offset, data);
            &&& write_result(s, handle, peer, att_handle, offset, data.len() as int)
                == table::write_result(
                attributes(s[i].bytes),
                att_handle,
                offset,
                data.len() as int,
            )
            &&& t.len() == s.len()
            &&& t[i].client == s[i].client
            &&& t[i].bytes == table::after_write(s[i].bytes, att_handle, offset, data)
            &&& forall|j: int| 0 <= j < s.len() && j != i ==> #[trigger] t[j] == s[j]
        }),
{
    theorem_what_a_link_reads(s, handle, peer, i, att_handle, 0);
}

/// What a link reads after a write that fits: before `offset` what it read before, from there on
/// `data`, and behind that what it read before if the length is fixed, and nothing if it is variable.
pub proof fn theorem_link_reads_what_it_wrote<I: PeerIdentity>(
    s: Seq<Slot<I>>,
    handle: ConnHandle,
    peer: I,
    i: int,
    k: int,
    offset: int,
    data: Seq<u8>,
)
    requires
        valid_slots(s),
        0 <= i < s.len(),
        s[i].client.handle == Some(handle),
        0 <= k < attributes(s[i].bytes).len(),
        0 <= offset <= attributes(s[i].bytes)[k].value.len(),
        offset + data.len() <= attributes(s[i].bytes)[k].capacity,
    ensures
        ({
            let a = attributes(s[i].bytes)[k];
            let t = after_write(s, handle, peer, a.key, offset, data);
            &&& write_result(s, handle, peer, a.key, offset, data.len() as int) == Ok::<
                (),
                AttErrorCode,
            >(())
            &&& value_of(s, handle, peer, a.key) == Some(a.value)
            &&& value_of(t, handle, peer, a.key) matches Some(w) && {
                &&& w.len() == if a.variable {
                    offset + data.len()
                } else {
                    a.value.len() as int
                }
                &&& forall|j: int| 0 <= j < offset ==> #[trigger] w[j] == a.value[j]
                &&& forall|j: int|
                    offset <= j < offset + data.len() ==> #[trigger] w[j] == data[j - offset]
                &&& forall|j: int|
                    offset + data.len() <= j < w.len() ==> #[trigger] w[j] == a.value[j]
            }
        }),
{
    let a = attributes(s[i].bytes)[k];
    let t = after_write(s, handle, peer, a.key, offset, data);
    assert(layout::valid_storage(s[i].bytes));
    theorem_what_a_link_reads(s, handle, peer, i, a.key, k);
    theorem_what_a_link_writes(s, handle, peer, i, a.key, offset, data);
    theorem_what_a_write_does(s[i].bytes, k, offset, data);
    lemma_same_clients_found(s, t, Criterion::Holds(handle));
    lemma_same_clients_found(s, t, Criterion::Returning(peer));
}

// ---- New slots ----

/// A slot that was never claimed has no link, no known client, and the number 0.
pub proof fn theorem_unclaimed_slot<I: PeerIdentity>()
    ensures
        Client::<I>::nobody().identity == I::blank(),
        Client::<I>::nobody().handle is None,
        !Client::<I>::nobody().is_connected,
        Client::<I>::nobody().seq == 0,
{
}

/// Clients have values of those attributes that are client-specific, in the order in which the server
/// has them, with the handles, kinds and capacities that they have there, and without values.
pub proof fn theorem_attributes_that_clients_have(
    atts: Seq<(u16, AttributeData)>,
    handle: u16,
    variable_len: bool,
    capacity: u16,
)
    ensures
        client_specific(Seq::empty()) == Seq::<layout::Attribute>::empty(),
        client_specific(atts.push((handle, AttributeData::Shared))) == client_specific(atts),
        ({
            let more = client_specific(
                atts.push((handle, AttributeData::ClientSpecific { variable_len, capacity })),
            );
            let a = more.last();
            &&& more.len() == client_specific(atts).len() + 1
            &&& more.drop_last() == client_specific(atts)
            &&& a.key == handle
            &&& a.variable == variable_len
            &&& a.capacity == capacity
            &&& a.value.len() == if variable_len {
                0
            } else {
                capacity as int
            }
            &&& forall|j: int| 0 <= j < a.value.len() ==> #[trigger] a.value[j] == 0
        }),
{
    assert(atts.push((handle, AttributeData::Shared)).drop_last() =~= atts);
    let one = (handle, AttributeData::ClientSpecific { variable_len, capacity });
    assert(atts.push(one).drop_last() =~= atts);
    assert(client_specific(atts.push(one)).drop_last() =~= client_specific(atts));
}

} // verus!
