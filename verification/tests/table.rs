use client_att_table::error::{AttErrorCode, Error};
use client_att_table::table::ClientAttTable;
use client_att_table::view::ClientAttTableView;

fn assert_invalid(data: &[u8]) {
    assert!(ClientAttTableView::try_from_raw(data).is_err());
}

#[test]
fn raw_view_uses_declared_values_len_and_ignores_trailing_storage() {
    let data = [
        2, 0, 5, 0, //
        1, 0, 0, 0, //
        2, 0x80, 2, 0, //
        0xaa, 0xbb, 1, 0, 0xcc, //
        0xdd, 0xee,
    ];

    let view = ClientAttTableView::try_from_raw(&data).unwrap();

    assert_eq!(view.raw(), &data[..17]);
    assert_eq!(view.get(1), Some([0xaa, 0xbb].as_slice()));
    assert_eq!(view.get(2), Some([0xcc].as_slice()));
}

#[test]
fn raw_view_rejects_malformed_table_boundaries_and_index() {
    // values_len promises two bytes, but only one is present.
    assert_invalid(&[1, 0, 2, 0, 1, 0, 0, 0, 0]);

    // att_count places the index beyond the provided buffer.
    assert_invalid(&[2, 0, 0, 0, 1, 0, 0, 0]);

    // Keys must be strictly ascending after masking off the variable-length flag.
    let duplicate_key_after_masking = [
        2, 0, 2, 0, //
        1, 0, 0, 0, //
        1, 0x80, 1, 0, //
        0, 0,
    ];
    assert_invalid(&duplicate_key_after_masking);

    // Offsets must be monotonically increasing and remain within values_len.
    let decreasing_offset = [
        2, 0, 4, 0, //
        1, 0, 2, 0, //
        2, 0, 1, 0, //
        0, 0, 0, 0,
    ];
    assert_invalid(&decreasing_offset);

    let offset_past_values_len = [
        1, 0, 1, 0, //
        1, 0, 2, 0, //
        0,
    ];
    assert_invalid(&offset_past_values_len);
}

#[test]
fn raw_view_rejects_variable_length_exceeding_encoded_capacity() {
    let data = [
        2, 0, 8, 0, //
        1, 0x80, 0, 0, //
        2, 0, 6, 0, //
        5, 0, 0xaa, 0xbb, 0xcc, 0xdd, //
        0xee, 0xff,
    ];

    assert_invalid(&data);
}

#[test]
fn variable_length_writes_append_overwrite_truncate_and_preserve_capacity() {
    let mut builder = ClientAttTable::builder();
    builder.push(1, 4, true);
    let mut table = builder.build();

    assert_eq!(table.get(1), Some([].as_slice()));
    assert_eq!(table.write(1, 1, &[0xaa]), Err(AttErrorCode::INVALID_OFFSET));

    table.write(1, 0, &[1, 2]).unwrap();
    table.write(1, 2, &[3, 4]).unwrap();
    assert_eq!(table.get(1), Some([1, 2, 3, 4].as_slice()));
    assert_eq!(
        table.write(1, 4, &[5]),
        Err(AttErrorCode::INVALID_ATTRIBUTE_VALUE_LENGTH)
    );

    table.write(1, 1, &[9]).unwrap();
    assert_eq!(table.get(1), Some([1, 9].as_slice()));

    table.write(1, 2, &[7, 8]).unwrap();
    assert_eq!(table.get(1), Some([1, 9, 7, 8].as_slice()));
}

#[test]
fn set_values_copies_matching_keys_truncates_to_capacity_and_zeros_missing_keys() {
    let mut src_builder = ClientAttTable::builder();
    src_builder.push(1, 2, false);
    src_builder.push(2, 5, true);
    src_builder.push(4, 1, false);
    let mut src = src_builder.build();
    src.write(1, 0, &[0x11, 0x22]).unwrap();
    src.write(2, 0, &[0x33, 0x44, 0x55, 0x66, 0x77]).unwrap();
    src.write(4, 0, &[0x88]).unwrap();

    let mut dst_builder = ClientAttTable::builder();
    dst_builder.push(1, 4, false);
    dst_builder.push(2, 3, true);
    dst_builder.push(3, 2, false);
    let mut dst = dst_builder.build();
    dst.write(1, 0, &[0xaa, 0xaa, 0xaa, 0xaa]).unwrap();
    dst.write(2, 0, &[0xbb, 0xbb]).unwrap();
    dst.write(3, 0, &[0xcc, 0xcc]).unwrap();

    dst.set_values(&src.view());

    assert_eq!(dst.get(1), Some([0x11, 0x22, 0, 0].as_slice()));
    assert_eq!(dst.get(2), Some([0x33, 0x44, 0x55].as_slice()));
    assert_eq!(dst.get(3), Some([0, 0].as_slice()));
    assert_eq!(dst.get(4), None);
}

#[test]
fn clear_zeroes_value_region_without_changing_table_shape() {
    let mut builder = ClientAttTable::builder();
    builder.push(1, 2, false);
    builder.push(2, 3, true);
    let mut table = builder.build();
    table.write(1, 0, &[0xaa, 0xbb]).unwrap();
    table.write(2, 0, &[0xcc, 0xdd]).unwrap();
    let raw_len = table.raw().len();
    let mut header_and_index = [0; 12];
    header_and_index.copy_from_slice(&table.raw()[..12]);

    table.clear();

    assert_eq!(table.raw().len(), raw_len);
    assert_eq!(&table.raw()[..12], header_and_index.as_slice());
    assert_eq!(table.get(1), Some([0, 0].as_slice()));
    assert_eq!(table.get(2), Some([].as_slice()));
    assert_eq!(&table.raw()[12..], &[0, 0, 0, 0, 0, 0, 0]);
}

#[test]
fn malformed_tables_are_invalid_values() {
    for data in [
        // Too short for a header.
        &[0, 0, 0][..],
        // The first key must not be zero.
        &[1, 0, 0, 0, 0, 0, 0, 0],
        // A variable-length attribute needs room for its length.
        &[1, 0, 1, 0, 1, 0x80, 0, 0, 0],
        // ... also where another attribute follows.
        &[2, 0, 3, 0, 1, 0x80, 0, 0, 2, 0, 1, 0, 0, 0, 0],
        // The length must fit.
        &[1, 0, 3, 0, 1, 0x80, 0, 0, 2, 0, 0xaa],
    ] {
        assert_eq!(
            ClientAttTableView::try_from_raw(data).map(|_| ()),
            Err(Error::InvalidValue)
        );
    }
    // The same with room for two bytes.
    let data = [1, 0, 4, 0, 1, 0x80, 0, 0, 2, 0, 0xaa, 0xbb];
    let view = ClientAttTableView::try_from_raw(&data).unwrap();
    assert_eq!(view.get(1), Some([0xaa, 0xbb].as_slice()));
}

#[test]
fn an_empty_table_is_a_table() {
    let view = ClientAttTableView::try_from_raw(&[0, 0, 0, 0]).unwrap();
    assert_eq!(view.raw(), &[0, 0, 0, 0]);
    assert_eq!(view.get(1), None);
    assert_eq!(ClientAttTable::builder().build().raw(), &[0, 0, 0, 0]);
}

#[test]
fn values_may_start_after_a_gap() {
    let data = [1, 0, 3, 0, 7, 0, 1, 0, 0x11, 0x22, 0x33];
    let view = ClientAttTableView::try_from_raw(&data).unwrap();
    assert_eq!(view.get(7), Some([0x22, 0x33].as_slice()));
    assert_eq!(view.raw(), &data);
}

#[test]
fn keys_above_the_flag_are_not_found() {
    let data = [1, 0, 3, 0, 1, 0x80, 0, 0, 1, 0, 0xaa];
    let view = ClientAttTableView::try_from_raw(&data).unwrap();
    assert_eq!(view.get(1), Some([0xaa].as_slice()));
    assert_eq!(view.get(0x8001), None);
    assert_eq!(view.get(0), None);

    let mut builder = ClientAttTable::builder();
    builder.push(0x7fff, 1, true);
    let mut table = builder.build();
    assert_eq!(table.get(0xffff), None);
    assert_eq!(
        table.write(0xffff, 0, &[1]),
        Err(AttErrorCode::ATTRIBUTE_NOT_FOUND)
    );
    assert_eq!(table.write(0x7fff, 0, &[1]), Ok(()));
    assert_eq!(table.raw(), &[1, 0, 3, 0, 0xff, 0xff, 0, 0, 1, 0, 1]);
}

#[test]
fn every_key_of_a_longer_index_is_found() {
    let mut builder = ClientAttTable::builder();
    for key in 1..=20u16 {
        builder.push(3 * key, 1, false);
    }
    let mut table = builder.build();
    for key in 1..=20u16 {
        table.write(3 * key, 0, &[key as u8]).unwrap();
    }
    for key in 0..=64u16 {
        if key >= 3 && key <= 60 && key % 3 == 0 {
            assert_eq!(table.get(key), Some([(key / 3) as u8].as_slice()));
        } else {
            assert_eq!(table.get(key), None);
        }
    }
    assert_eq!(table.raw().len(), 4 + 20 * 4 + 20);
}

#[test]
fn fixed_length_writes_keep_what_follows() {
    let mut builder = ClientAttTable::builder();
    builder.push(1, 4, false);
    let mut table = builder.build();
    table.write(1, 0, &[1, 2, 3, 4]).unwrap();
    table.write(1, 1, &[9, 8]).unwrap();
    assert_eq!(table.get(1), Some([1, 9, 8, 4].as_slice()));
    table.write(1, 4, &[]).unwrap();
    assert_eq!(table.get(1), Some([1, 9, 8, 4].as_slice()));
    assert_eq!(table.write(1, 5, &[]), Err(AttErrorCode::INVALID_OFFSET));
    assert_eq!(
        table.write(1, 4, &[1]),
        Err(AttErrorCode::INVALID_ATTRIBUTE_VALUE_LENGTH)
    );
}

#[test]
fn a_shorter_value_leaves_its_tail_in_storage() {
    let mut builder = ClientAttTable::builder();
    builder.push(1, 3, true);
    let mut table = builder.build();
    table.write(1, 0, &[1, 2, 3]).unwrap();
    table.write(1, 0, &[9]).unwrap();
    assert_eq!(table.get(1), Some([9].as_slice()));
    assert_eq!(table.raw(), &[1, 0, 5, 0, 1, 0x80, 0, 0, 1, 0, 9, 2, 3]);
}

#[test]
fn a_table_reads_back_from_its_raw_bytes() {
    let mut builder = ClientAttTable::builder();
    builder.push(1, 2, false);
    builder.push(2, 5, true);
    builder.push(9, 0, false);
    let mut table = builder.clone().build();
    table.write(1, 0, &[0x11, 0x22]).unwrap();
    table.write(2, 0, &[0x33, 0x44, 0x55]).unwrap();

    let mut stored = table.raw().to_vec();
    stored.extend_from_slice(&[0xde, 0xad]);
    let view = ClientAttTableView::try_from_raw(&stored).unwrap();
    assert_eq!(view.raw(), table.raw());
    for key in [1, 2, 3, 9] {
        assert_eq!(view.get(key), table.get(key));
    }

    let mut other = builder.build();
    other.set_values(&view);
    for key in [1, 2, 3, 9] {
        assert_eq!(other.get(key), table.get(key));
    }
    let once = other.raw().to_vec();
    other.set_values(&view);
    assert_eq!(other.raw(), once);
}

#[test]
fn copying_zeros_the_unused_rest() {
    let mut src = ClientAttTable::builder();
    src.push(1, 4, true);
    let mut src = src.build();
    src.write(1, 0, &[7]).unwrap();

    let mut dst = ClientAttTable::builder();
    dst.push(1, 4, true);
    dst.push(2, 2, true);
    let mut dst = dst.build();
    dst.write(1, 0, &[1, 2, 3, 4]).unwrap();
    dst.write(2, 0, &[5, 6]).unwrap();
    dst.set_values(&src.view());
    assert_eq!(dst.get(1), Some([7].as_slice()));
    assert_eq!(dst.get(2), Some([].as_slice()));
    assert_eq!(
        dst.raw(),
        &[2, 0, 10, 0, 1, 0x80, 0, 0, 2, 0x80, 6, 0, 1, 0, 7, 0, 0, 0, 0, 0, 0, 0]
    );
}

#[test]
fn clearing_forgets_all_writes() {
    let mut builder = ClientAttTable::builder();
    builder.push(1, 2, false);
    builder.push(2, 3, true);
    let fresh = builder.build();
    let mut table = fresh.clone();
    table.write(1, 1, &[0xbb]).unwrap();
    table.write(2, 0, &[0xcc, 0xdd, 0xee]).unwrap();
    table.clear();
    assert_eq!(table.raw(), fresh.raw());
    table.clear();
    assert_eq!(table.raw(), fresh.raw());
    assert_eq!(
        fresh.raw(),
        &[2, 0, 7, 0, 1, 0, 0, 0, 2, 0x80, 2, 0, 0, 0, 0, 0, 0, 0, 0]
    );
}

#[test]
fn the_builder_tells_the_size_that_a_table_needs() {
    let mut builder = ClientAttTable::builder();
    assert_eq!(builder.needed(), 4);
    builder.push(1, 2, false);
    assert_eq!(builder.needed(), 4 + 4 + 2);
    builder.push(2, 3, true);
    assert_eq!(builder.needed(), 4 + 2 * 4 + 2 + 5);
    assert_eq!(builder.clone().build().raw().len(), builder.needed());
    // Also past the end of storage.
    builder.push(3, 512, true);
    builder.push(4, 512, false);
    assert_eq!(builder.needed(), 4 + 4 * 4 + 2 + 5 + 514 + 512);
}
