use seq_tools::itertools::merge::Merge;
use seq_tools::itertools::merge::MergeExt;
use seq_tools::itertools::take_while;
use seq_tools::itertools::windows::init_empty_array;
use seq_tools::itertools::IterExt;

#[test]
fn chunked_iter() {
    let mut iter = (0..10).chunked(2);
    assert_eq!(iter.next(), Some(vec![0, 1]));
    assert_eq!(iter.next(), Some(vec![2, 3]));
    assert_eq!(iter.next(), Some(vec![4, 5]));
    assert_eq!(iter.next(), Some(vec![6, 7]));
    assert_eq!(iter.next(), Some(vec![8, 9]));
    assert_eq!(iter.next(), None);
}

#[test]
fn chunked_iter_empty() {
    let mut iter = std::iter::from_fn::<String, _>(|| None).chunked(1);
    assert_eq!(iter.next(), None);
}

#[test]
fn chunked_non_align() {
    let mut iter = (0..11).chunked(2);
    assert_eq!(iter.next(), Some(vec![0, 1]));
    assert_eq!(iter.next(), Some(vec![2, 3]));
    assert_eq!(iter.next(), Some(vec![4, 5]));
    assert_eq!(iter.next(), Some(vec![6, 7]));
    assert_eq!(iter.next(), Some(vec![8, 9]));
    assert_eq!(iter.next(), Some(vec![10]));
    assert_eq!(iter.next(), None);
}

#[test]
fn chunked_size_larger() {
    let mut iter = (0..11).chunked(20);
    assert_eq!(iter.next(), Some((0..11).collect::<Vec<_>>()));
    assert_eq!(iter.next(), None);
}

#[test]
fn chunked_single_items() {
    let mut iter = "xyz".chars().chunked(1);
    assert_eq!(iter.next(), Some(vec!['x']));
    assert_eq!(iter.next(), Some(vec!['y']));
    assert_eq!(iter.next(), Some(vec!['z']));
    assert_eq!(iter.next(), None);
    assert_eq!(iter.next(), None);
}

#[test]
fn chunked_concat_gives_source_back() {
    for size in 1..9usize {
        let source: Vec<u32> = (0..23).collect();
        let mut iter = source.clone().into_iter().chunked(size);
        let mut chunks: Vec<Vec<u32>> = Vec::new();
        while let Some(c) = iter.next() {
            chunks.push(c);
        }
        assert_eq!(chunks.len(), (23 + size - 1) / size);
        for (i, c) in chunks.iter().enumerate() {
            if i + 1 < chunks.len() {
                assert_eq!(c.len(), size);
            } else {
                assert!(1 <= c.len() && c.len() <= size);
            }
        }
        assert_eq!(chunks.concat(), source);
    }
}

#[test]
fn chunked_leaves_rest_of_source() {
    let mut source = 0..10;
    {
        let mut iter = (&mut source).chunked(3);
        assert_eq!(iter.next(), Some(vec![0, 1, 2]));
    }
    assert_eq!(source.next(), Some(3));
}

#[test]
fn test_windows1() {
    let text = "abcd";
    let mut iter = text.chars().windows::<1>();
    assert_eq!(iter.next(), Some([Some('a')]));
    assert_eq!(iter.next(), Some([Some('b')]));
    assert_eq!(iter.next(), Some([Some('c')]));
    assert_eq!(iter.next(), Some([Some('d')]));
    assert_eq!(iter.next(), None);
}

#[test]
fn test_windows2() {
    let text = "abcd";
    let mut iter = text.chars().windows::<2>();
    assert_eq!(iter.next(), Some([None, Some('a')]));
    assert_eq!(iter.next(), Some([Some('a'), Some('b')]));
    assert_eq!(iter.next(), Some([Some('b'), Some('c')]));
    assert_eq!(iter.next(), Some([Some('c'), Some('d')]));
    assert_eq!(iter.next(), Some([Some('d'), None]));
    assert_eq!(iter.next(), None);
}

#[test]
fn test_windows3() {
    let text = "abcd";
    let mut iter = text.chars().windows::<3>();
    assert_eq!(iter.next(), Some([None, None, Some('a')]));
    assert_eq!(iter.next(), Some([None, Some('a'), Some('b')]));
    assert_eq!(iter.next(), Some([Some('a'), Some('b'), Some('c')]));
    assert_eq!(iter.next(), Some([Some('b'), Some('c'), Some('d')]));
    assert_eq!(iter.next(), Some([Some('c'), Some('d'), None]));
    assert_eq!(iter.next(), Some([Some('d'), None, None]));
    assert_eq!(iter.next(), None);
}

#[test]
fn windows_stay_ended() {
    let mut iter = "ab".chars().windows::<2>();
    assert_eq!(iter.next(), Some([None, Some('a')]));
    assert_eq!(iter.next(), Some([Some('a'), Some('b')]));
    assert_eq!(iter.next(), Some([Some('b'), None]));
    assert_eq!(iter.next(), None);
    assert_eq!(iter.next(), None);
    assert_eq!(iter.next(), None);
}

#[test]
fn windows_of_empty_source() {
    let mut one = "".chars().windows::<1>();
    assert_eq!(one.next(), None);
    let mut three = "".chars().windows::<3>();
    assert_eq!(three.next(), Some([None, None, None]));
    assert_eq!(three.next(), Some([None, None, None]));
    assert_eq!(three.next(), None);
}

#[test]
fn windows_count_and_last_slot() {
    let source: Vec<u8> = vec![5, 6, 7, 8, 9];
    let mut iter = source.clone().into_iter().windows::<4>();
    let mut frames: Vec<[Option<u8>; 4]> = Vec::new();
    while let Some(w) = iter.next() {
        frames.push(w);
    }
    assert_eq!(frames.len(), source.len() + 4 - 1);
    for (i, w) in frames.iter().enumerate() {
        assert_eq!(w[3], source.get(i).copied());
        if i > 0 {
            assert_eq!(w[..3], frames[i - 1][1..]);
        }
    }
    assert_eq!(frames[0], [None, None, None, Some(5)]);
    assert_eq!(frames[7], [Some(9), None, None, None]);
}

#[test]
fn windows_snapshot_is_a_copy() {
    let mut iter = "ab".chars().windows::<2>();
    let mut first = iter.next().unwrap();
    first[1] = Some('z');
    assert_eq!(iter.next(), Some([Some('a'), Some('b')]));
}

#[test]
fn empty_array_is_all_missing() {
    let a: [Option<String>; 3] = init_empty_array();
    assert_eq!(a, [None, None, None]);
    let b: [Option<u8>; 0] = init_empty_array();
    assert_eq!(b.len(), 0);
}

#[test]
fn test_merge() {
    let iter_a = vec![("a", 1), ("b", 2), ("c", 3), ("d", 4)];
    let iter_b = vec![("C", 3), ("B", 2), ("A", 1), ("D", 4), ("Q", 9)];

    let mut merge = Merge::new(iter_a.iter(), iter_b.iter(), |i| i.1, |i| i.1);

    let mut cl: Vec<_> = Vec::new();
    while let Some(i) = merge.next() {
        cl.push((*i.0, *i.1));
    }
    assert_eq!(
        cl,
        vec![
            (("a", 1), ("A", 1)),
            (("b", 2), ("B", 2)),
            (("c", 3), ("C", 3)),
            (("d", 4), ("D", 4)),
        ]
    );
}

#[test]
fn merge_pairs_by_key_in_left_order() {
    let left = vec![("a", 1), ("b", 2), ("c", 3), ("d", 4)];
    let right = vec![("C", 3), ("B", 2), ("A", 1), ("D", 4)];
    let mut merge = left.into_iter().merge(right.into_iter(), |i| i.1, |i| i.1);
    assert_eq!(merge.next(), Some((("a", 1), ("A", 1))));
    assert_eq!(merge.next(), Some((("b", 2), ("B", 2))));
    assert_eq!(merge.next(), Some((("c", 3), ("C", 3))));
    assert_eq!(merge.next(), Some((("d", 4), ("D", 4))));
    assert_eq!(merge.next(), None);
    assert_eq!(merge.next(), None);
}

#[test]
fn merge_stops_at_left_key_without_partner() {
    let left = vec![("a", 1), ("x", 7), ("b", 2)];
    let right = vec![("B", 2), ("A", 1), ("C", 3)];
    let mut merge = left.into_iter().merge(right.into_iter(), |i| i.1, |i| i.1);
    assert_eq!(merge.next(), Some((("a", 1), ("A", 1))));
    assert_eq!(merge.next(), None);
    // ("B", 2) waits in the buffer, but the merge has ended.
    assert_eq!(merge.next(), None);
    assert_eq!(merge.next(), None);
}

#[test]
fn merge_ends_with_left_side() {
    let left: Vec<(&str, u8)> = Vec::new();
    let right = vec![("A", 1u8)];
    let mut merge = left.into_iter().merge(right.into_iter(), |i| i.1, |i| i.1);
    assert_eq!(merge.next(), None);
    assert_eq!(merge.next(), None);
}

#[test]
fn merge_later_right_item_replaces_buffered_one() {
    let left = vec![("z", 9), ("a", 1)];
    let right = vec![("A", 1), ("AA", 1), ("Z", 9)];
    let mut merge = left.into_iter().merge(right.into_iter(), |i| i.1, |i| i.1);
    assert_eq!(merge.next(), Some((("z", 9), ("Z", 9))));
    assert_eq!(merge.next(), Some((("a", 1), ("AA", 1))));
    assert_eq!(merge.next(), None);
}

#[test]
fn merge_left_key_seen_twice_finds_no_second_partner() {
    let left = vec![("a", 1), ("b", 1)];
    let right = vec![("A", 1), ("B", 2)];
    let mut merge = left.into_iter().merge(right.into_iter(), |i| i.1, |i| i.1);
    assert_eq!(merge.next(), Some((("a", 1), ("A", 1))));
    assert_eq!(merge.next(), None);
}

#[test]
fn take_while_leaves_first_failing_item() {
    let mut source = vec![1, 2, 3, 10, 4, 5].into_iter().peekable();
    let mut taken = Vec::new();
    {
        let mut gate = take_while(&mut source, |x: &i32| *x < 5);
        while let Some(x) = gate.next() {
            taken.push(x);
        }
        assert_eq!(gate.next(), None);
    }
    assert_eq!(taken, vec![1, 2, 3]);
    assert_eq!(source.next(), Some(10));
    assert_eq!(source.collect::<Vec<_>>(), vec![4, 5]);
}

#[test]
fn take_while_takes_nothing_when_first_fails() {
    let mut source = vec![9, 1].into_iter().peekable();
    {
        let mut gate = take_while(&mut source, |x: &i32| *x < 5);
        assert_eq!(gate.next(), None);
        assert_eq!(gate.next(), None);
    }
    assert_eq!(source.next(), Some(9));
}

#[test]
fn take_while_on_dry_source() {
    let mut source = Vec::<u8>::new().into_iter().peekable();
    let mut gate = take_while(&mut source, |_x: &u8| true);
    assert_eq!(gate.next(), None);
}

#[test]
fn take_while_takes_all_when_all_pass() {
    let mut source = vec![1, 2].into_iter().peekable();
    {
        let mut gate = take_while(&mut source, |x: &i32| *x < 5);
        assert_eq!(gate.next(), Some(1));
        assert_eq!(gate.next(), Some(2));
        assert_eq!(gate.next(), None);
    }
    assert_eq!(source.next(), None);
}

#[test]
fn advance_past_the_end() {
    let mut iter = 0..3;
    assert_eq!(iter.advance(5), 3);
    assert_eq!(iter.next(), None);
}

#[test]
fn advance_within_source() {
    let mut iter = 0..10;
    assert_eq!(iter.advance(4), 4);
    assert_eq!(iter.next(), Some(4));
    assert_eq!(iter.advance(0), 0);
    assert_eq!(iter.next(), Some(5));
}

#[test]
fn advance_exactly_to_the_end() {
    let mut iter = "abc".chars();
    assert_eq!(iter.advance(3), 3);
    assert_eq!(iter.next(), None);
}
