use hg_git_fast_import::collections::conditional_multi_iter;

#[test]
fn conditional_multi_iter_check() {
    let data = vec![vec![(2, 1), (1, 2), (3, 3)], vec![(1, 4), (2, 5)]];
    let mut iter = conditional_multi_iter(
        data,
        |x| x.iter().filter_map(|x| x.map(|x| x.0)).min(),
        |x, y| y == &x.map(|x| x.0),
    );
    assert_eq!(iter.next(), Some((1, 4)));
    assert_eq!(iter.next(), Some((2, 1)));
    assert_eq!(iter.next(), Some((1, 2)));
    assert_eq!(iter.next(), Some((2, 5)));
    assert_eq!(iter.next(), Some((3, 3)));
    assert_eq!(iter.next(), None);
}

#[test]
fn conditional_multi_iter_stops_at_an_accepted_absent_head() {
    // the predicate accepts every head, also that of a source that is used up
    let data = vec![vec![], vec![7]];
    let mut iter = conditional_multi_iter(data, |_| (), |_, _| true);
    assert_eq!(iter.next(), None);
    assert_eq!(iter.next(), None);

    let data: Vec<Vec<u8>> = vec![vec![1], vec![2]];
    let mut iter = conditional_multi_iter(data, |_| (), |_, _| false);
    assert_eq!(iter.next(), None);
}
