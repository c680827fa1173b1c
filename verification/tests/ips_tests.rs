use ips::apply::{apply, fill_run, lower_power_of_two, write_at};
use ips::mem::Owner;
use ips::record::{Data, RecordIterator};

fn chunk_bytes(parser: &mut RecordIterator) -> Option<(u64, Vec<u8>)> {
    let rec = parser.next()?;
    let off = rec.off();
    match rec.data() {
        Data::Chunk(v) => {
            let s = v.get(parser.arena()).expect("fresh chunk view must resolve");
            Some((off, s.to_vec()))
        }
        Data::RLE { .. } => None,
    }
}

#[test]
fn header_mismatch_yields_no_records() {
    let patch = vec![
        0x51u8, 0x41, 0x54, 0x43, 0x48, 0x00, 0x00, 0x10, 0x00, 0x01, 0xFF, 0x45, 0x4F, 0x46,
    ];
    let mut parser = RecordIterator::new(patch);
    assert!(parser.next().is_none());
    assert!(parser.next().is_none());
}

#[test]
fn truncated_header_yields_no_records() {
    let mut parser = RecordIterator::new(vec![0x50u8, 0x41]);
    assert!(parser.next().is_none());
}

#[test]
fn magic_then_end_marker_yields_no_records() {
    let patch = vec![0x50u8, 0x41, 0x54, 0x43, 0x48, 0x45, 0x4F, 0x46];
    let mut parser = RecordIterator::new(patch);
    assert!(parser.next().is_none());
    assert!(parser.next().is_none());
}

#[test]
fn chunk_record_round_trip() {
    let patch = vec![
        0x50u8, 0x41, 0x54, 0x43, 0x48, // magic
        0x00, 0x00, 0x10, // offset 16
        0x00, 0x04, // size 4
        0xDE, 0xAD, 0xBE, 0xEF, // data
        0x45, 0x4F, 0x46, // end marker
    ];
    let mut parser = RecordIterator::new(patch.clone());
    let (off, bytes) = chunk_bytes(&mut parser).expect("one chunk record");
    assert_eq!(off, 16);
    assert_eq!(bytes, vec![0xDEu8, 0xAD, 0xBE, 0xEF]);
    assert!(parser.next().is_none());

    let mut parser = RecordIterator::new(patch);
    let mut dst = vec![0u8; 32];
    apply(&mut parser, &mut dst);
    assert_eq!(dst.len(), 32);
    for (i, b) in dst.iter().enumerate() {
        if (16..20).contains(&i) {
            assert_eq!(*b, [0xDEu8, 0xAD, 0xBE, 0xEF][i - 16]);
        } else {
            assert_eq!(*b, 0);
        }
    }
}

#[test]
fn fill_record_round_trip() {
    let patch = vec![
        0x50u8, 0x41, 0x54, 0x43, 0x48, // magic
        0x00, 0x00, 0x00, // offset 0
        0x00, 0x00, // size 0: fill record
        0x00, 0x0A, // count 10
        0xAA, // value
        0x45, 0x4F, 0x46, // end marker
    ];
    let mut parser = RecordIterator::new(patch.clone());
    let rec = parser.next().expect("one fill record");
    assert_eq!(rec.off(), 0);
    match rec.data() {
        Data::RLE { byte, size } => {
            assert_eq!(byte, 0xAA);
            assert_eq!(size, 10);
        }
        Data::Chunk(_) => panic!("expected a fill record"),
    }
    assert!(parser.next().is_none());

    assert_eq!(lower_power_of_two(10), 8);

    let mut parser = RecordIterator::new(patch);
    let mut dst: Vec<u8> = Vec::new();
    apply(&mut parser, &mut dst);
    assert_eq!(dst, vec![0xAAu8; 10]);
}

#[test]
fn power_of_two_boundary() {
    let cases: [(usize, usize); 10] = [
        (0, 0),
        (1, 1),
        (2, 2),
        (3, 2),
        (7, 4),
        (8, 8),
        (9, 8),
        (1023, 512),
        (1024, 1024),
        (1025, 1024),
    ];
    for (count, expected) in cases {
        assert_eq!(lower_power_of_two(count), expected);

        // The run is fully covered: p-sized writes plus single bytes sum
        // exactly to count.
        let mut dst: Vec<u8> = Vec::new();
        let mut rle = Owner::new(0);
        fill_run(&mut dst, 0, 0x5C, count, &mut rle);
        assert_eq!(dst.len(), count);
        assert!(dst.iter().all(|b| *b == 0x5C));
    }
}

#[test]
fn overlapping_records_later_wins() {
    let patch = vec![
        0x50u8, 0x41, 0x54, 0x43, 0x48, // magic
        0x00, 0x00, 0x02, // offset 2
        0x00, 0x04, // size 4
        0x11, 0x11, 0x11, 0x11, // first record: 11 at 2..6
        0x00, 0x00, 0x04, // offset 4
        0x00, 0x03, // size 3
        0x22, 0x22, 0x22, // second record: 22 at 4..7
        0x45, 0x4F, 0x46, // end marker
    ];
    let mut parser = RecordIterator::new(patch);
    let mut dst = vec![0u8; 8];
    apply(&mut parser, &mut dst);
    assert_eq!(dst, vec![0x00u8, 0x00, 0x11, 0x11, 0x22, 0x22, 0x22, 0x00]);
}

#[test]
fn fill_then_chunk_overlap_later_wins() {
    let patch = vec![
        0x50u8, 0x41, 0x54, 0x43, 0x48, // magic
        0x00, 0x00, 0x00, // offset 0
        0x00, 0x00, // fill record
        0x00, 0x06, // count 6
        0x77, // value
        0x00, 0x00, 0x03, // offset 3
        0x00, 0x02, // size 2
        0x01, 0x02, // chunk bytes
        0x45, 0x4F, 0x46, // end marker
    ];
    let mut parser = RecordIterator::new(patch);
    let mut dst: Vec<u8> = Vec::new();
    apply(&mut parser, &mut dst);
    assert_eq!(dst, vec![0x77u8, 0x77, 0x77, 0x01, 0x02, 0x77]);
}

#[test]
fn second_view_before_consuming_first() {
    let patch = vec![
        0x50u8, 0x41, 0x54, 0x43, 0x48, // magic
        0x00, 0x00, 0x00, // offset 0
        0x00, 0x04, // size 4
        0xAA, 0xBB, 0xCC, 0xDD, // first chunk
        0x00, 0x00, 0x08, // offset 8
        0x00, 0x02, // size 2
        0x10, 0x20, // second chunk
        0x45, 0x4F, 0x46, // end marker
    ];
    let mut parser = RecordIterator::new(patch);
    let first = parser.next().expect("first chunk record");
    let first_view = match first.data() {
        Data::Chunk(v) => v,
        Data::RLE { .. } => panic!("expected a chunk record"),
    };
    // Request the second view without consuming the first.
    let second = parser.next().expect("second chunk record");
    let second_view = match second.data() {
        Data::Chunk(v) => v,
        Data::RLE { .. } => panic!("expected a chunk record"),
    };
    // The first view is stale now, and says so instead of handing out
    // corrupted bytes.
    assert!(first_view.get(parser.arena()).is_none());
    // The second view's content is exact, with no stale data interleaved.
    let s = second_view.get(parser.arena()).expect("current view resolves");
    assert_eq!(s.to_vec(), vec![0x10u8, 0x20]);
}

#[test]
fn chunk_spanning_small_working_buffer() {
    let data: Vec<u8> = (0u8..23).collect();
    let mut patch = vec![0x50u8, 0x41, 0x54, 0x43, 0x48, 0x00, 0x00, 0x05, 0x00, 0x17];
    patch.extend_from_slice(&data);
    patch.extend_from_slice(&[0x45, 0x4F, 0x46]);
    let mut parser = RecordIterator::new_with_bufsize(patch, 5);
    let (off, bytes) = chunk_bytes(&mut parser).expect("one chunk record");
    assert_eq!(off, 5);
    assert_eq!(bytes, data);
    assert!(parser.next().is_none());
}

#[test]
fn truncated_chunk_stops_cleanly() {
    let patch = vec![
        0x50u8, 0x41, 0x54, 0x43, 0x48, // magic
        0x00, 0x00, 0x00, // offset 0
        0x00, 0x04, // size 4
        0x01, 0x02, // only two of four data bytes
    ];
    let mut parser = RecordIterator::new(patch);
    assert!(parser.next().is_none());
    assert!(parser.next().is_none());
}

#[test]
fn truncated_fill_stops_cleanly() {
    let patch = vec![
        0x50u8, 0x41, 0x54, 0x43, 0x48, // magic
        0x00, 0x00, 0x00, // offset 0
        0x00, 0x00, // fill record
        0x00, // truncated count field
    ];
    let mut parser = RecordIterator::new(patch);
    assert!(parser.next().is_none());
}

#[test]
fn bytes_after_end_marker_are_ignored() {
    let patch = vec![
        0x50u8, 0x41, 0x54, 0x43, 0x48, // magic
        0x45, 0x4F, 0x46, // end marker
        0x00, 0x00, 0x00, // a well-formed fill record behind it
        0x00, 0x00, 0x00, 0x01, 0x99,
    ];
    let mut parser = RecordIterator::new(patch);
    assert!(parser.next().is_none());
    assert!(parser.next().is_none());
    assert!(parser.next().is_none());
}

#[test]
fn offset_is_big_endian_24_bit() {
    let patch = vec![
        0x50u8, 0x41, 0x54, 0x43, 0x48, // magic
        0x12, 0x34, 0x56, // offset 0x123456
        0x00, 0x01, // size 1
        0xAB, // data
        0x45, 0x4F, 0x46, // end marker
    ];
    let mut parser = RecordIterator::new(patch);
    let (off, bytes) = chunk_bytes(&mut parser).expect("one chunk record");
    assert_eq!(off, 0x123456);
    assert_eq!(bytes, vec![0xABu8]);
}

#[test]
fn write_past_end_grows_with_zeros() {
    let mut dst = vec![0x09u8, 0x09];
    let src = vec![0x41u8, 0x42];
    write_at(&mut dst, 5, &src, 2);
    assert_eq!(dst, vec![0x09u8, 0x09, 0x00, 0x00, 0x00, 0x41, 0x42]);
}

#[test]
fn fill_count_zero_writes_nothing() {
    let patch = vec![
        0x50u8, 0x41, 0x54, 0x43, 0x48, // magic
        0x00, 0x00, 0x07, // offset 7
        0x00, 0x00, // fill record
        0x00, 0x00, // count 0
        0xFF, // value
        0x45, 0x4F, 0x46, // end marker
    ];
    let mut parser = RecordIterator::new(patch);
    let mut dst: Vec<u8> = Vec::new();
    apply(&mut parser, &mut dst);
    assert!(dst.is_empty());
}

#[test]
fn arena_views_resolve_and_go_stale() {
    let mut owner = Owner::of(vec![1u8, 2, 3, 4, 5]);
    let view = owner.slice(2, 5);
    let got = view.get(&owner).expect("fresh view resolves");
    assert_eq!(got.to_vec(), vec![3u8, 4, 5]);

    let second = owner.slice(0, 2);
    assert!(view.get(&owner).is_none());
    let got = second.get(&owner).expect("current view resolves");
    assert_eq!(got.to_vec(), vec![1u8, 2]);
}

#[test]
fn arena_grows_zero_filled_on_demand() {
    let mut owner = Owner::new(0);
    let view = owner.slice(0, 4);
    let got = view.get(&owner).expect("fresh view resolves");
    assert_eq!(got.to_vec(), vec![0u8, 0, 0, 0]);
}

#[test]
fn empty_input_yields_no_records() {
    let mut parser = RecordIterator::new(Vec::new());
    assert!(parser.next().is_none());
}
