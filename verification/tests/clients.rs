use client_att_table::clients::{table_size, AttributeData, ClientAttTables};
use client_att_table::config::CLIENT_ATT_TABLE_SIZE;
use client_att_table::error::{AttErrorCode, Error};
use client_att_table::identity::{Address, ConnHandle, Identity, PeerIdentity};
use client_att_table::table::ClientAttTable;
use client_att_table::view::ClientAttTableView;

const PUBLIC: u8 = 0;
const CCCD: u16 = 53;

fn ident(last: u8) -> Identity {
    Identity {
        addr: Address::new(PUBLIC, [1, 2, 3, 4, 5, last]),
        irk: None,
    }
}

fn cccd_tables<const CONN_MAX: usize>() -> ClientAttTables<Identity, CONN_MAX> {
    ClientAttTables::new(&[(
        CCCD,
        AttributeData::ClientSpecific {
            variable_len: false,
            capacity: 2,
        },
    )])
}

fn value<const CONN_MAX: usize>(
    tables: &ClientAttTables<Identity, CONN_MAX>,
    handle: ConnHandle,
    peer: &Identity,
) -> Option<Vec<u8>> {
    tables.with_value(handle, peer, CCCD, |v| v.to_vec())
}

#[test]
fn a_second_connection_does_not_evict_a_live_peers_subscriptions() {
    // Two slots, so the "all slots claim connected" reclaim path is easy to reach.
    let mut tables: ClientAttTables<Identity, 2> = cccd_tables();

    let (a, b) = (ident(0xAA), ident(0xBB));
    let (ha, hb) = (ConnHandle::new(1), ConnHandle::new(2));

    tables.connect(ha, &a).unwrap();
    tables.connect(hb, &b).unwrap();

    // Both subscribe (CCCD notify bit).
    tables.write(ha, &a, CCCD, 0, &[0x01, 0x00]).unwrap();
    tables.write(hb, &b, CCCD, 0, &[0x01, 0x00]).unwrap();

    let notify = |tables: &ClientAttTables<Identity, 2>, h, id: &Identity| {
        tables.with_value(h, id, CCCD, |v| {
            let mut o = [0u8; 2];
            o.copy_from_slice(v);
            o
        })
    };
    assert_eq!(notify(&tables, ha, &a), Some([0x01u8, 0x00]), "A lost its slot");
    assert_eq!(notify(&tables, hb, &b), Some([0x01u8, 0x00]), "B lost its slot");

    // A third peer arrives while both slots are live.
    let c = ident(0xCC);
    let hc = ConnHandle::new(3);
    tables.connect(hc, &c).unwrap();
    tables.write(hc, &c, CCCD, 0, &[0x01, 0x00]).unwrap();
    assert_eq!(notify(&tables, hc, &c), Some([0x01u8, 0x00]));
    // The least-recently-claimed slot (A) is the victim; the more recent live peer B survives.
    assert_eq!(
        notify(&tables, hb, &b),
        Some([0x01u8, 0x00]),
        "a live peer was evicted"
    );
}

#[test]
fn two_unresolved_connections_do_not_collapse_onto_one_slot() {
    let mut tables: ClientAttTables<Identity, 2> = cccd_tables();

    // Neither link has encrypted yet, so both report the default identity.
    let unset = Identity::default();
    let (h1, h2) = (ConnHandle::new(1), ConnHandle::new(2));
    tables.connect(h1, &unset).unwrap();
    tables.connect(h2, &unset).unwrap();

    // Both must be able to subscribe.
    tables.write(h1, &unset, CCCD, 0, &[0x01, 0x00]).unwrap();
    tables.write(h2, &unset, CCCD, 0, &[0x01, 0x00]).unwrap();

    let notify = |h| {
        tables.with_value(h, &unset, CCCD, |v| {
            let mut o = [0u8; 2];
            o.copy_from_slice(v);
            o
        })
    };
    assert_eq!(notify(h1), Some([0x01u8, 0x00]), "link 1 was orphaned");
    assert_eq!(notify(h2), Some([0x01u8, 0x00]), "link 2 was orphaned");
}

#[test]
fn disconnect_frees_the_slot_even_if_the_identity_changed_mid_link() {
    let mut tables: ClientAttTables<Identity, 1> = cccd_tables();

    let h = ConnHandle::new(7);
    tables.connect(h, &ident(0x01)).unwrap();
    // Peer's identity moves to its bonded identity, then the link drops.
    tables.disconnect(h, &ident(0x02), false);

    // The single slot must now be free for a brand-new peer without needing the reclaim path.
    let h2 = ConnHandle::new(8);
    tables.connect(h2, &ident(0x03)).unwrap();
    tables.write(h2, &ident(0x03), CCCD, 0, &[0x01, 0x00]).unwrap();
    assert_eq!(
        tables.with_value(h2, &ident(0x03), CCCD, |v| {
            let mut o = [0u8; 2];
            o.copy_from_slice(v);
            o
        }),
        Some([0x01u8, 0x00])
    );

    // And the lookup must keep resolving when the peer's identity moves mid-link.
    assert_eq!(
        tables.with_value(h2, &ident(0x99), CCCD, |v| {
            let mut o = [0u8; 2];
            o.copy_from_slice(v);
            o
        }),
        Some([0x01u8, 0x00]),
        "slot became unreachable after the peer identity changed mid-link"
    );
}

#[test]
fn no_slots_means_no_connections() {
    let mut tables: ClientAttTables<Identity, 0> = cccd_tables();
    assert_eq!(
        tables.connect(ConnHandle::new(1), &ident(1)),
        Err(Error::ConnectionLimitReached)
    );
    assert_eq!(tables.update_identity(ident(1)), Err(Error::NotFound));
    assert_eq!(tables.diag_lookup(ConnHandle::new(1), &ident(1), CCCD), (false, false));
}

#[test]
fn only_client_specific_attributes_have_values() {
    let mut tables: ClientAttTables<Identity, 1> = ClientAttTables::new(&[
        (1, AttributeData::Shared),
        (
            2,
            AttributeData::ClientSpecific {
                variable_len: true,
                capacity: 3,
            },
        ),
        (3, AttributeData::Shared),
        (
            4,
            AttributeData::ClientSpecific {
                variable_len: false,
                capacity: 2,
            },
        ),
    ]);
    let (h, peer) = (ConnHandle::new(1), ident(1));
    tables.connect(h, &peer).unwrap();
    assert_eq!(tables.diag_lookup(h, &peer, 1), (true, false));
    assert_eq!(tables.diag_lookup(h, &peer, 2), (true, true));
    assert_eq!(tables.diag_lookup(h, &peer, 3), (true, false));
    assert_eq!(tables.with_value(h, &peer, 2, |v| v.len()), Some(0));
    assert_eq!(tables.with_value(h, &peer, 4, |v| v.to_vec()), Some(vec![0, 0]));
    let table = tables.get_client_att_table(&peer).unwrap();
    assert_eq!(
        table.raw(),
        &[2, 0, 7, 0, 2, 0x80, 0, 0, 4, 0, 5, 0, 0, 0, 0, 0, 0, 0, 0]
    );
}

#[test]
fn a_returning_peer_finds_its_values_under_another_handle() {
    let mut tables: ClientAttTables<Identity, 2> = cccd_tables();
    let (a, b) = (ident(0xAA), ident(0xBB));
    tables.connect(ConnHandle::new(1), &a).unwrap();
    tables.connect(ConnHandle::new(2), &b).unwrap();
    tables.write(ConnHandle::new(1), &a, CCCD, 0, &[2, 0]).unwrap();
    tables.write(ConnHandle::new(2), &b, CCCD, 0, &[1, 0]).unwrap();
    // Bonded or not, the values stay.
    tables.disconnect(ConnHandle::new(2), &b, false);
    tables.disconnect(ConnHandle::new(1), &a, true);

    tables.connect(ConnHandle::new(9), &b).unwrap();
    assert_eq!(value(&tables, ConnHandle::new(9), &b), Some(vec![1, 0]));
    tables.connect(ConnHandle::new(8), &a).unwrap();
    assert_eq!(value(&tables, ConnHandle::new(8), &a), Some(vec![2, 0]));
}

#[test]
fn a_stranger_finds_the_values_of_an_evicted_client_cleared() {
    let mut tables: ClientAttTables<Identity, 1> = cccd_tables();
    let a = ident(0xAA);
    tables.connect(ConnHandle::new(1), &a).unwrap();
    tables.write(ConnHandle::new(1), &a, CCCD, 0, &[1, 0]).unwrap();
    tables.disconnect(ConnHandle::new(1), &a, true);

    let b = ident(0xBB);
    tables.connect(ConnHandle::new(2), &b).unwrap();
    assert_eq!(value(&tables, ConnHandle::new(2), &b), Some(vec![0, 0]));

    // So does one that takes the slot of a link that still claims to be up.
    tables.write(ConnHandle::new(2), &b, CCCD, 0, &[1, 0]).unwrap();
    let c = ident(0xCC);
    tables.connect(ConnHandle::new(3), &c).unwrap();
    assert_eq!(value(&tables, ConnHandle::new(3), &c), Some(vec![0, 0]));
    assert_eq!(value(&tables, ConnHandle::new(2), &b), None);
}

#[test]
fn an_unknown_peer_does_not_get_the_values_of_a_known_one() {
    let mut tables: ClientAttTables<Identity, 1> = cccd_tables();
    let a = ident(0xAA);
    tables.connect(ConnHandle::new(1), &a).unwrap();
    tables.write(ConnHandle::new(1), &a, CCCD, 0, &[1, 0]).unwrap();
    tables.disconnect(ConnHandle::new(1), &a, true);

    let unset = Identity::default();
    tables.connect(ConnHandle::new(2), &unset).unwrap();
    assert_eq!(value(&tables, ConnHandle::new(2), &unset), Some(vec![0, 0]));
}

#[test]
fn connecting_again_keeps_the_slot_and_its_values() {
    let mut tables: ClientAttTables<Identity, 2> = cccd_tables();
    let (h, a) = (ConnHandle::new(1), ident(0xAA));
    tables.connect(h, &a).unwrap();
    tables.write(h, &a, CCCD, 0, &[1, 0]).unwrap();
    tables.connect(h, &ident(0xAB)).unwrap();
    assert_eq!(value(&tables, h, &ident(0xAB)), Some(vec![1, 0]));
    // The other slot was not touched, so it is still there for somebody else.
    let (h2, b) = (ConnHandle::new(2), ident(0xBB));
    tables.connect(h2, &b).unwrap();
    assert_eq!(value(&tables, h2, &b), Some(vec![0, 0]));
    assert_eq!(value(&tables, h, &a), Some(vec![1, 0]));
}

#[test]
fn a_free_slot_is_taken_before_any_live_one() {
    let mut tables: ClientAttTables<Identity, 3> = cccd_tables();
    let ids = [ident(1), ident(2), ident(3), ident(4)];
    for i in 0..3 {
        tables.connect(ConnHandle::new(i as u16), &ids[i]).unwrap();
        tables
            .write(ConnHandle::new(i as u16), &ids[i], CCCD, 0, &[i as u8 + 1, 0])
            .unwrap();
    }
    tables.disconnect(ConnHandle::new(1), &ids[1], false);
    tables.connect(ConnHandle::new(7), &ids[3]).unwrap();
    assert_eq!(value(&tables, ConnHandle::new(0), &ids[0]), Some(vec![1, 0]));
    assert_eq!(value(&tables, ConnHandle::new(7), &ids[3]), Some(vec![0, 0]));
    assert_eq!(value(&tables, ConnHandle::new(2), &ids[2]), Some(vec![3, 0]));
}

#[test]
fn a_link_finds_its_own_slot_before_one_that_waits_for_its_peer() {
    let mut tables: ClientAttTables<Identity, 2> = cccd_tables();
    let unset = Identity::default();
    let (h1, h2) = (ConnHandle::new(1), ConnHandle::new(2));
    tables.connect(h1, &unset).unwrap();
    tables.connect(h2, &unset).unwrap();
    tables.write(h2, &unset, CCCD, 0, &[1, 0]).unwrap();
    tables.disconnect(h1, &unset, false);
    // Slot 0 has no link, and the unknown peer matches it.
    assert_eq!(value(&tables, h2, &unset), Some(vec![1, 0]));
    assert_eq!(value(&tables, h2, &ident(1)), Some(vec![1, 0]));
    tables.write(h2, &unset, CCCD, 0, &[2, 0]).unwrap();
    let mut data = [0; 2];
    assert_eq!(tables.read(h2, &unset, CCCD, 0, &mut data), Ok(2));
    assert_eq!(data, [2, 0]);
}

#[test]
fn a_link_without_a_slot_finds_the_one_that_waits_for_its_peer() {
    let mut tables: ClientAttTables<Identity, 2> = cccd_tables();
    let a = ident(0xAA);
    tables.connect(ConnHandle::new(1), &a).unwrap();
    tables.write(ConnHandle::new(1), &a, CCCD, 0, &[1, 0]).unwrap();
    assert_eq!(value(&tables, ConnHandle::new(2), &a), None);
    tables.disconnect(ConnHandle::new(1), &a, true);
    assert_eq!(value(&tables, ConnHandle::new(2), &a), Some(vec![1, 0]));
    assert_eq!(tables.diag_lookup(ConnHandle::new(2), &ident(0xBB), CCCD), (false, false));
}

#[test]
fn disconnect_frees_the_slot_of_the_link_before_one_that_waits_for_its_peer() {
    let mut tables: ClientAttTables<Identity, 2> = cccd_tables();
    let a = ident(0xAA);
    let (h1, h2) = (ConnHandle::new(1), ConnHandle::new(2));
    tables.connect(h1, &a).unwrap();
    tables.disconnect(h1, &a, false);
    // An unknown peer takes the other slot, and turns out to be one that a free slot waits for.
    tables.connect(h2, &Identity::default()).unwrap();
    assert_eq!(tables.diag_lookup(h2, &ident(0x77), CCCD), (true, true));
    tables.disconnect(h2, &a, false);
    assert_eq!(tables.diag_lookup(h2, &ident(0x77), CCCD), (false, false));
    assert_eq!(value(&tables, h2, &ident(0x77)), None);
}

#[test]
fn a_known_peer_does_not_get_the_values_of_an_unknown_one() {
    let mut tables: ClientAttTables<Identity, 1> = cccd_tables();
    let unset = Identity::default();
    let a = ident(0xAA);
    tables.connect(ConnHandle::new(1), &unset).unwrap();
    tables.write(ConnHandle::new(1), &unset, CCCD, 0, &[1, 0]).unwrap();
    tables.disconnect(ConnHandle::new(1), &unset, false);
    assert_eq!(tables.connect(ConnHandle::new(2), &a), Ok(()));
    assert_eq!(value(&tables, ConnHandle::new(2), &a), Some(vec![0, 0]));
}

#[test]
fn an_unknown_peer_gets_the_values_that_an_unknown_one_left() {
    let mut tables: ClientAttTables<Identity, 1> = cccd_tables();
    let unset = Identity::default();
    tables.connect(ConnHandle::new(1), &unset).unwrap();
    tables.write(ConnHandle::new(1), &unset, CCCD, 0, &[1, 0]).unwrap();
    tables.disconnect(ConnHandle::new(1), &unset, false);
    tables.connect(ConnHandle::new(2), &unset).unwrap();
    assert_eq!(value(&tables, ConnHandle::new(2), &unset), Some(vec![1, 0]));
}

#[test]
fn reads_start_at_the_offset() {
    let mut tables: ClientAttTables<Identity, 1> = ClientAttTables::new(&[(
        5,
        AttributeData::ClientSpecific {
            variable_len: true,
            capacity: 6,
        },
    )]);
    let (h, peer) = (ConnHandle::new(1), ident(1));
    let mut data = [0xff; 8];
    assert_eq!(
        tables.read(h, &peer, 5, 0, &mut data),
        Err(AttErrorCode::ATTRIBUTE_NOT_FOUND)
    );
    tables.connect(h, &peer).unwrap();
    tables.write(h, &peer, 5, 0, &[1, 2, 3, 4]).unwrap();
    assert_eq!(tables.read(h, &peer, 5, 1, &mut data), Ok(3));
    assert_eq!(data, [2, 3, 4, 0xff, 0xff, 0xff, 0xff, 0xff]);
    assert_eq!(tables.read(h, &peer, 5, 4, &mut data), Ok(0));
    assert_eq!(
        tables.read(h, &peer, 5, 5, &mut data),
        Err(AttErrorCode::INVALID_OFFSET)
    );
    assert_eq!(
        tables.read(h, &peer, 6, 0, &mut data),
        Err(AttErrorCode::ATTRIBUTE_NOT_FOUND)
    );
    assert_eq!(data, [2, 3, 4, 0xff, 0xff, 0xff, 0xff, 0xff]);
    // A buffer that just holds the rest is enough.
    let mut rest = [0; 2];
    assert_eq!(tables.read(h, &peer, 5, 2, &mut rest), Ok(2));
    assert_eq!(rest, [3, 4]);
}

#[test]
fn refused_writes_are_answered_and_change_nothing() {
    let mut tables: ClientAttTables<Identity, 1> = cccd_tables();
    let (h, peer) = (ConnHandle::new(1), ident(1));
    assert_eq!(
        tables.write(h, &peer, CCCD, 0, &[1, 0]),
        Err(AttErrorCode::ATTRIBUTE_NOT_FOUND)
    );
    tables.connect(h, &peer).unwrap();
    tables.write(h, &peer, CCCD, 0, &[1, 2]).unwrap();
    assert_eq!(
        tables.write(h, &peer, CCCD + 1, 0, &[1]),
        Err(AttErrorCode::ATTRIBUTE_NOT_FOUND)
    );
    assert_eq!(
        tables.write(h, &peer, CCCD, 3, &[]),
        Err(AttErrorCode::INVALID_OFFSET)
    );
    assert_eq!(
        tables.write(h, &peer, CCCD, 1, &[1, 2]),
        Err(AttErrorCode::INVALID_ATTRIBUTE_VALUE_LENGTH)
    );
    assert_eq!(value(&tables, h, &peer), Some(vec![1, 2]));
    tables.write(h, &peer, CCCD, 1, &[7]).unwrap();
    assert_eq!(value(&tables, h, &peer), Some(vec![1, 7]));
}

#[test]
fn writes_are_a_links_own() {
    let mut tables: ClientAttTables<Identity, 2> = cccd_tables();
    let (a, b) = (ident(0xAA), ident(0xBB));
    tables.connect(ConnHandle::new(1), &a).unwrap();
    tables.connect(ConnHandle::new(2), &b).unwrap();
    tables.write(ConnHandle::new(1), &a, CCCD, 0, &[1, 0]).unwrap();
    assert_eq!(value(&tables, ConnHandle::new(2), &b), Some(vec![0, 0]));
}

#[test]
fn a_saved_table_restores_a_peers_values() {
    let mut tables: ClientAttTables<Identity, 2> = cccd_tables();
    let (h, a) = (ConnHandle::new(1), ident(0xAA));
    assert!(tables.get_client_att_table(&a).is_none());
    tables.connect(h, &a).unwrap();
    tables.write(h, &a, CCCD, 0, &[1, 2]).unwrap();
    let saved = tables.get_client_att_table(&a).unwrap().raw().to_vec();
    tables.write(h, &a, CCCD, 0, &[3, 4]).unwrap();

    let view = ClientAttTableView::try_from_raw(&saved).unwrap();
    // Nobody knows this peer.
    tables.set_client_att_table(&ident(0xBB), &view);
    assert_eq!(value(&tables, h, &a), Some(vec![3, 4]));
    tables.set_client_att_table(&a, &view);
    assert_eq!(value(&tables, h, &a), Some(vec![1, 2]));

    // A table without the key clears it.
    let empty = ClientAttTable::builder().build();
    tables.set_client_att_table(&a, &empty.view());
    assert_eq!(value(&tables, h, &a), Some(vec![0, 0]));
}

#[test]
fn an_updated_identity_is_found_and_keeps_the_link() {
    let mut tables: ClientAttTables<Identity, 2> = cccd_tables();
    let h = ConnHandle::new(1);
    let keyed = |last: u8| Identity {
        irk: Some(0x1234),
        ..ident(last)
    };
    tables.connect(h, &ident(1)).unwrap();
    tables.write(h, &ident(1), CCCD, 0, &[1, 0]).unwrap();
    assert_eq!(tables.update_identity(ident(2)), Err(Error::NotFound));
    assert_eq!(tables.update_identity(keyed(1)), Ok(()));
    // Known by its key now, under whatever address.
    assert_eq!(tables.update_identity(keyed(9)), Ok(()));
    assert_eq!(tables.get_client_att_table(&ident(9)).unwrap().get(CCCD), Some([1, 0].as_slice()));
    assert!(tables.get_client_att_table(&ident(1)).is_none());
    assert_eq!(value(&tables, h, &ident(1)), Some(vec![1, 0]));
}

#[test]
fn identities_match_by_address_or_by_key() {
    let unset = Identity::default();
    assert!(unset.is_unset());
    assert!(unset.match_identity(&unset));
    assert!(!ident(0).is_unset());
    assert!(ident(1).match_identity(&ident(1)));
    assert!(!ident(1).match_identity(&ident(2)));
    let random = Identity {
        addr: Address::new(1, [1, 2, 3, 4, 5, 1]),
        irk: None,
    };
    assert!(!ident(1).match_identity(&random));
    let a = Identity { irk: Some(7), ..ident(1) };
    let b = Identity { irk: Some(7), ..ident(2) };
    let c = Identity { irk: Some(8), ..ident(3) };
    assert!(a.match_identity(&b));
    assert!(!a.match_identity(&c));
    assert!(!a.match_identity(&ident(4)));
    assert!(!Identity { irk: Some(7), ..unset }.is_unset());
}

fn specific(key: u16, capacity: u16, variable_len: bool) -> (u16, AttributeData) {
    (
        key,
        AttributeData::ClientSpecific {
            variable_len,
            capacity,
        },
    )
}

#[test]
fn the_size_of_a_table_is_known_before_it_is_made() {
    let room = (CLIENT_ATT_TABLE_SIZE - 8) as u16;
    assert_eq!(table_size(&[]), Some(4));
    assert_eq!(
        table_size(&[(0, AttributeData::Shared), specific(1, 2, false)]),
        Some(10)
    );
    assert_eq!(table_size(&[specific(0x7fff, room, false)]), Some(CLIENT_ATT_TABLE_SIZE));
    assert_eq!(table_size(&[specific(1, room, true)]), Some(CLIENT_ATT_TABLE_SIZE + 2));
    assert_eq!(
        table_size(&[specific(1, 512, true), specific(2, 512, false)]),
        Some(4 + 2 * 4 + 2 + 2 * 512)
    );
    assert_eq!(table_size(&[specific(0, 1, false)]), None);
    assert_eq!(table_size(&[specific(0x8000, 1, false)]), None);
    assert_eq!(table_size(&[specific(1, 513, false)]), None);
    assert_eq!(table_size(&[specific(2, 1, false), specific(2, 1, false)]), None);
    assert_eq!(table_size(&[specific(2, 1, false), specific(1, 1, false)]), None);
}

#[test]
fn a_known_peer_keeps_what_was_stored_in_a_slot_that_nobody_had() {
    let mut tables: ClientAttTables<Identity, 1> = cccd_tables();
    let mut stored = ClientAttTable::builder();
    stored.push(CCCD, 2, false);
    let mut stored = stored.build();
    stored.write(CCCD, 0, &[1, 0]).unwrap();
    tables.set_client_att_table(&Identity::default(), &stored.view());

    let a = ident(0xAA);
    tables.connect(ConnHandle::new(1), &a).unwrap();
    assert_eq!(value(&tables, ConnHandle::new(1), &a), Some(vec![1, 0]));
}

#[test]
fn the_largest_buffer_that_is_needed_holds_any_value() {
    let room = (CLIENT_ATT_TABLE_SIZE - 8) as u16;
    let mut tables: ClientAttTables<Identity, 1> = ClientAttTables::new(&[specific(1, room, false)]);
    let (h, peer) = (ConnHandle::new(1), ident(1));
    tables.connect(h, &peer).unwrap();
    tables.write(h, &peer, 1, room as usize - 1, &[9]).unwrap();
    let mut data = [0xff; 512];
    assert_eq!(tables.read(h, &peer, 1, 0, &mut data), Ok(room as usize));
    assert_eq!(data[room as usize - 1], 9);
    assert_eq!(data[room as usize - 2], 0);
    assert_eq!(data[room as usize], 0xff);
}

#[test]
fn disconnecting_a_stranger_changes_no_link() {
    let mut tables: ClientAttTables<Identity, 2> = cccd_tables();
    let (h, a) = (ConnHandle::new(1), ident(0xAA));
    tables.connect(h, &a).unwrap();
    tables.write(h, &a, CCCD, 0, &[1, 0]).unwrap();
    tables.disconnect(ConnHandle::new(2), &a, false);
    assert_eq!(tables.diag_lookup(h, &ident(0xAB), CCCD), (true, true));
    assert_eq!(value(&tables, h, &a), Some(vec![1, 0]));
}

#[test]
fn the_slot_claimed_longest_ago_is_reclaimed_each_time() {
    let mut tables: ClientAttTables<Identity, 3> = cccd_tables();
    for i in 0..10u8 {
        let h = ConnHandle::new(i as u16);
        tables.connect(h, &ident(i)).unwrap();
        tables.write(h, &ident(i), CCCD, 0, &[i, 1]).unwrap();
        // The last three links have their slots.
        for k in 0..=i {
            let found = value(&tables, ConnHandle::new(k as u16), &ident(k));
            if i - k < 3 {
                assert_eq!(found, Some(vec![k, 1]));
            } else {
                assert_eq!(found, None);
            }
        }
    }
}
