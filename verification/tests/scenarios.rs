use seglog::{new, Iter};

#[test]
fn test_next_position() {
    let mut writer = new::<usize>(3);
    let values = (0..40).step_by(13).collect::<Vec<usize>>();
    writer.append(&values);
    // 0, 13, 26, 39
    let reader = writer.reader();

    assert_eq!(reader.next_position(0).unwrap(), 1);
    assert_eq!(reader.next_position(8).unwrap(), 1);
    assert_eq!(reader.next_position(12).unwrap(), 1);
    assert_eq!(reader.next_position(13).unwrap(), 2);
    assert_eq!(reader.next_position(22).unwrap(), 2);
    assert_eq!(reader.next_position(23).unwrap(), 2);
    assert_eq!(reader.next_position(26).unwrap(), 3);
    assert_eq!(reader.next_position(30).unwrap(), 3);
    assert!(reader.next_position(39).is_none());
    assert!(reader.next_position(40).is_none());
}

#[test]
fn smoke() {
    let mut writer = new::<usize>(3);

    let values = (0..1131).collect::<Vec<usize>>();
    writer.append(&values);
    let reader = writer.reader();

    for val in values {
        assert_eq!(reader.position(val), Some(val), "{} failed", val);
    }

    let mut it: Iter<usize> = reader.iter_from(4);
    let mut i = 0;
    while let Some(val) = it.next() {
        assert_eq!(val, i + 4, "failed at {}", i);
        i += 1;
    }
    assert_eq!(i, 1131 - 4);
}

#[test]
fn smoke_one_by_one() {
    let mut writer = new::<usize>(33);

    assert_eq!(writer.reader().last(), None);

    let values = (0..1131).collect::<Vec<usize>>();

    for &val in values.iter() {
        writer.append(&[val]);
        let reader = writer.reader();
        assert_eq!(reader.position(val), Some(val), "{} failed", val);
        assert_eq!(reader.last(), Some(val));
    }

    let reader = writer.reader();
    let mut it = reader.iter_from(33);
    let mut i = 0;
    while let Some(val) = it.next() {
        assert_eq!(val, i + 33);
        i += 1;
    }
    assert_eq!(i, 1131 - 33);
}

#[test]
fn smoke_by_chunks() {
    let mut writer = new::<usize>(13);

    let values = (0..1131).collect::<Vec<usize>>();

    for chunk in values.chunks(13) {
        writer.append(chunk);
    }
    let reader = writer.reader();

    for val in values {
        assert_eq!(reader.position(val), Some(val), "{} failed", val);
    }

    let mut it = reader.iter_from(31);
    let mut i = 0;
    while let Some(val) = it.next() {
        assert_eq!(val, i + 31);
        i += 1;
    }
    assert_eq!(i, 1131 - 31);
}

#[test]
fn next_position_on_spanning_segments() {
    let mut writer = new::<u64>(3);
    writer.append(&[0, 13, 26, 39]);
    let reader = writer.reader();
    assert_eq!(reader.next_position(0), Some(1));
    assert_eq!(reader.next_position(12), Some(1));
    assert_eq!(reader.next_position(13), Some(2));
    assert_eq!(reader.next_position(26), Some(3));
    assert_eq!(reader.next_position(39), None);
    assert_eq!(reader.next_position(40), None);
}

#[test]
fn fresh_chain_is_empty() {
    let writer = new::<u32>(4);
    let reader = writer.reader();
    assert_eq!(writer.len(), 0);
    assert_eq!(reader.len(), 0);
    assert_eq!(reader.last(), None);
    assert_eq!(reader.position(7), None);
    assert_eq!(reader.next_position(7), None);
    assert_eq!(reader.iter_from(0).next(), None);
    assert_eq!(reader.iter_from(5).next(), None);
}

#[test]
fn empty_append_changes_nothing() {
    let mut writer = new::<u32>(2);
    writer.append(&[]);
    assert_eq!(writer.len(), 0);
    writer.append(&[1, 2, 3]);
    writer.append(&[]);
    assert_eq!(writer.len(), 3);
    let reader = writer.reader();
    assert_eq!(reader.last(), Some(3));
    let mut it = reader.iter_from(0);
    assert_eq!(it.next(), Some(1));
    assert_eq!(it.next(), Some(2));
    assert_eq!(it.next(), Some(3));
    assert_eq!(it.next(), None);
    assert_eq!(it.next(), None);
}

#[test]
fn len_counts_full_and_partial_segments() {
    let mut writer = new::<u8>(4);
    writer.append(&[1, 2, 3, 4]);
    assert_eq!(writer.len(), 4);
    writer.append(&[5]);
    assert_eq!(writer.len(), 5);
    writer.append(&[6, 7, 8, 9, 10, 11]);
    assert_eq!(writer.len(), 11);
    assert_eq!(writer.reader().len(), 11);
}

#[test]
fn position_finds_each_element_of_a_sorted_log() {
    let values: Vec<i32> = vec![-9, -4, -4, 0, 3, 3, 3, 8, 21, 21, 50];
    let mut writer = new::<i32>(4);
    writer.append(&values);
    let reader = writer.reader();
    for &v in values.iter() {
        let i = reader.position(v).unwrap();
        assert_eq!(values[i], v);
    }
}

#[test]
fn position_misses_absent_keys() {
    let mut writer = new::<u32>(3);
    writer.append(&[10, 20, 30, 40, 50, 60, 70]);
    let reader = writer.reader();
    assert_eq!(reader.position(5), None);
    assert_eq!(reader.position(25), None);
    assert_eq!(reader.position(35), None);
    assert_eq!(reader.position(65), None);
    assert_eq!(reader.position(71), None);
    assert_eq!(reader.position(10), Some(0));
    assert_eq!(reader.position(30), Some(2));
    assert_eq!(reader.position(40), Some(3));
    assert_eq!(reader.position(70), Some(6));
}

#[test]
fn position_between_segments_is_absent() {
    let mut writer = new::<u32>(2);
    writer.append(&[1, 2, 8, 9]);
    let reader = writer.reader();
    // 5 orders after the first segment's last element and before the
    // second segment's first.
    assert_eq!(reader.position(5), None);
    assert_eq!(reader.next_position(5), Some(2));
}

#[test]
fn next_position_with_duplicates_skips_the_whole_run() {
    let mut writer = new::<u32>(3);
    writer.append(&[1, 2, 2, 2, 2, 2, 2, 5, 5, 9]);
    let reader = writer.reader();
    assert_eq!(reader.next_position(0), Some(0));
    assert_eq!(reader.next_position(1), Some(1));
    assert_eq!(reader.next_position(2), Some(7));
    assert_eq!(reader.next_position(4), Some(7));
    assert_eq!(reader.next_position(5), Some(9));
    assert_eq!(reader.next_position(9), None);
}

#[test]
fn last_follows_every_append() {
    let mut writer = new::<u16>(2);
    writer.append(&[4]);
    assert_eq!(writer.reader().last(), Some(4));
    writer.append(&[5, 6]);
    assert_eq!(writer.reader().last(), Some(6));
    writer.append(&[7, 8, 9, 10, 11]);
    assert_eq!(writer.reader().last(), Some(11));
    writer.append(&[]);
    assert_eq!(writer.reader().last(), Some(11));
}

#[test]
fn last_on_exactly_full_segment() {
    let mut writer = new::<u16>(3);
    writer.append(&[1, 2, 3]);
    assert_eq!(writer.reader().last(), Some(3));
    assert_eq!(writer.len(), 3);
    writer.append(&[4]);
    assert_eq!(writer.reader().last(), Some(4));
}

#[test]
fn iter_from_yields_the_suffix() {
    let values: Vec<u64> = (100..120).collect();
    let mut writer = new::<u64>(6);
    writer.append(&values);
    let reader = writer.reader();
    for k in 0..=25usize {
        let mut got: Vec<u64> = Vec::new();
        let mut it = reader.iter_from(k);
        while let Some(v) = it.next() {
            got.push(v);
        }
        let want: Vec<u64> = if k <= values.len() { values[k..].to_vec() } else { Vec::new() };
        assert_eq!(got, want);
    }
}

#[test]
fn iter_from_beyond_the_end_in_an_existing_segment() {
    let mut writer = new::<u64>(3);
    writer.append(&[0, 13, 26, 39]);
    let reader = writer.reader();
    // Index 5 lies in the second segment, behind its one occupied slot.
    assert_eq!(reader.iter_from(5).next(), None);
    assert_eq!(reader.iter_from(4).next(), None);
    assert_eq!(reader.iter_from(3).next(), Some(39));
    assert_eq!(reader.iter_from(6).next(), None);
    assert_eq!(reader.iter_from(usize::MAX).next(), None);
}

#[test]
fn chunking_does_not_change_answers() {
    let values: Vec<u32> = (0..200).map(|v| v * 3).collect();
    let mut whole = new::<u32>(7);
    whole.append(&values);

    let sizes = [1usize, 7, 14, 3, 20, 2, 7, 1, 50, 95];
    let mut chunked = new::<u32>(7);
    let mut at = 0;
    for &size in sizes.iter() {
        chunked.append(&values[at..at + size]);
        at += size;
    }
    assert_eq!(at, values.len());

    let a = whole.reader();
    let b = chunked.reader();
    assert_eq!(a.len(), b.len());
    assert_eq!(a.last(), b.last());
    for key in 0..610u32 {
        assert_eq!(a.position(key), b.position(key));
        assert_eq!(a.next_position(key), b.next_position(key));
    }
    for k in [0usize, 1, 6, 7, 8, 199, 200, 201] {
        let mut x = a.iter_from(k);
        let mut y = b.iter_from(k);
        loop {
            let (p, q) = (x.next(), y.next());
            assert_eq!(p, q);
            if p.is_none() {
                break;
            }
        }
    }
}

#[test]
fn reader_copies_see_the_same_chain() {
    let mut writer = new::<u8>(2);
    writer.append(&[1, 2, 3]);
    let reader = writer.reader();
    let copy = reader;
    let clone = reader.clone();
    assert_eq!(reader.last(), Some(3));
    assert_eq!(copy.position(2), Some(1));
    assert_eq!(clone.next_position(2), Some(2));
}

#[test]
fn unsorted_log_gives_only_real_hits() {
    let values: Vec<u32> = vec![9, 1, 8, 2, 7, 3, 6, 4];
    let mut writer = new::<u32>(3);
    writer.append(&values);
    let reader = writer.reader();
    for key in 0..12u32 {
        if let Some(i) = reader.position(key) {
            assert_eq!(values[i], key);
        }
        if let Some(i) = reader.next_position(key) {
            assert!(values[i] > key);
        }
    }
    assert_eq!(reader.last(), Some(4));
}

#[test]
fn segment_of_one_element() {
    let mut writer = new::<u32>(1);
    writer.append(&[5, 6, 7]);
    let reader = writer.reader();
    assert_eq!(reader.len(), 3);
    assert_eq!(reader.position(6), Some(1));
    assert_eq!(reader.next_position(6), Some(2));
    assert_eq!(reader.last(), Some(7));
    let mut it = reader.iter_from(1);
    assert_eq!(it.next(), Some(6));
    assert_eq!(it.next(), Some(7));
    assert_eq!(it.next(), None);
}
