use seq_tools::math::diff;
use seq_tools::math::pow_mod;
use seq_tools::math::twos_perm_non_sym;
use seq_tools::math::twos_perm_sym;

#[test]
fn diff_takes_smaller_from_greater() {
    assert_eq!(diff(7u32, 3u32), 4);
    assert_eq!(diff(3u32, 7u32), 4);
    assert_eq!(diff(5u8, 5u8), 0);
    assert_eq!(diff(-2i64, 3i64), 5);
    assert_eq!(diff(0usize, usize::MAX), usize::MAX);
}

#[test]
fn pow_mod_values() {
    assert_eq!(pow_mod(2, 10, 1000), 24);
    assert_eq!(pow_mod(7, 0, 5), 1);
    assert_eq!(pow_mod(7, 0, 1), 0);
    assert_eq!(pow_mod(12, 3, 5), 3);
    assert_eq!(pow_mod(0, 4, 9), 0);
    assert_eq!(pow_mod(10, 2, 7), 2);
}

#[test]
fn non_sym_pairs_of_three() {
    let list = vec!['a', 'b', 'c'];
    let mut it = twos_perm_non_sym(&list, false);
    let mut res = Vec::new();
    while let Some(i) = it.next() {
        res.push((*i.0, *i.1));
    }
    assert_eq!(res, vec![('a', 'b'), ('a', 'c'), ('b', 'c')]);

    let mut it = twos_perm_non_sym(&list, true);
    let mut res = Vec::new();
    while let Some(i) = it.next() {
        res.push((*i.0, *i.1));
    }
    assert_eq!(
        res,
        vec![('a', 'a'), ('a', 'b'), ('a', 'c'), ('b', 'b'), ('b', 'c'), ('c', 'c')]
    );
}

#[test]
fn non_sym_pairs_of_short_lists() {
    let none: Vec<u8> = Vec::new();
    assert!(twos_perm_non_sym(&none, false).next().is_none());
    assert!(twos_perm_non_sym(&none, true).next().is_none());
    let one = vec![4u8];
    assert!(twos_perm_non_sym(&one, false).next().is_none());
    let mut it = twos_perm_non_sym(&one, true);
    assert_eq!(it.next(), Some((&4u8, &4u8)));
    assert_eq!(it.next(), None);
    assert_eq!(it.next(), None);
}

#[test]
fn sym_pairs_of_three() {
    let list = vec!['a', 'b', 'c'];
    let mut it = twos_perm_sym(&list, false);
    let mut res = Vec::new();
    while let Some(i) = it.next() {
        res.push((*i.0, *i.1));
    }
    assert_eq!(
        res,
        vec![('a', 'b'), ('a', 'c'), ('b', 'a'), ('b', 'c'), ('c', 'a'), ('c', 'b')]
    );

    let mut it = twos_perm_sym(&list, true);
    let mut res = Vec::new();
    while let Some(i) = it.next() {
        res.push((*i.0, *i.1));
    }
    assert_eq!(
        res,
        vec![
            ('a', 'a'),
            ('a', 'b'),
            ('a', 'c'),
            ('b', 'a'),
            ('b', 'b'),
            ('b', 'c'),
            ('c', 'a'),
            ('c', 'b'),
            ('c', 'c')
        ]
    );
}

#[test]
fn sym_pairs_of_short_lists() {
    let none: Vec<u8> = Vec::new();
    assert!(twos_perm_sym(&none, false).next().is_none());
    assert!(twos_perm_sym(&none, true).next().is_none());
    let one = vec![4u8];
    let mut it = twos_perm_sym(&one, true);
    assert_eq!(it.next(), Some((&4u8, &4u8)));
    assert_eq!(it.next(), None);
    let two = vec![1u8, 2u8];
    let mut it = twos_perm_sym(&two, false);
    assert_eq!(it.next(), Some((&1u8, &2u8)));
    assert_eq!(it.next(), Some((&2u8, &1u8)));
    assert_eq!(it.next(), None);
}
