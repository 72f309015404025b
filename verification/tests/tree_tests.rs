use segment_tree::layout::next_power_of_two;
use segment_tree::monoid::{mconcat, Last, Monoid, Sum};
use segment_tree::tree::SegmentTree;

fn values(st: &SegmentTree<Sum<i64>>) -> Vec<i64> {
    st.storage().iter().map(|r| r.0).collect::<Vec<_>>()
}

fn naive(s: &[i64], l: usize, r: usize) -> i64 {
    let mut acc: i64 = 0;
    for x in &s[l..r] {
        acc = acc.wrapping_add(*x);
    }
    acc
}

#[test]
fn test() {
    {
        let st = SegmentTree::<Sum<i64>>::new(5);
        assert_eq!(
            st.storage().iter().map(|r| r.0).collect::<Vec<_>>(),
            vec![0; 15]
        );
    }

    {
        let st = SegmentTree::<Sum<i64>>::from_slice(&[1, 2, 3, 4, 5]);
        assert_eq!(
            st.storage().iter().map(|r| r.0).collect::<Vec<_>>(),
            vec![
                15, //
                10, 5, //
                3, 7, 5, 0, //
                1, 2, 3, 4, 5, 0, 0, 0
            ]
        );
    }

    let mut st = SegmentTree::<Sum<i64>>::new(5);
    st.set(2, 1);
    assert_eq!(st.query(0, 5).0, 1);
    assert_eq!(st.query(0, 2).0, 0);
    assert_eq!(st.query(3, 5).0, 0);
    assert_eq!(st.query(2, 3).0, 1);
    assert_eq!(st.query(2, 2).0, 0);
    st.mappend(2, 2);
    assert_eq!(st.query(0, 5).0, 3);
    assert_eq!(st.query(0, 2).0, 0);
    assert_eq!(st.query(3, 5).0, 0);
    assert_eq!(st.query(2, 3).0, 3);
    assert_eq!(st.query(2, 2).0, 0);
    st.set(0, 1);
    st.set(1, 2);
    st.set(3, 4);
    st.set(4, 5);
    assert_eq!(st.query(0, 5).0, 15);
    assert_eq!(st.query(0, 2).0, 3);
    assert_eq!(st.query(3, 5).0, 9);
    assert_eq!(st.query(2, 3).0, 3);
    assert_eq!(st.query(2, 2).0, 0);
}

#[test]
fn sum_scenario() {
    let mut st = SegmentTree::<Sum<i64>>::from_slice(&[1, 2, 3, 4, 5]);
    assert_eq!(st.len(), 5);
    assert_eq!(st.query(0, 5).0, 15);
    assert_eq!(st.query(0, 2).0, 3);
    assert_eq!(st.query(3, 5).0, 9);
    st.set(0, 0);
    assert_eq!(st.query(0, 5).0, 14);
    st.mappend(2, 10);
    assert_eq!(st.get(2).0, 13);
    assert_eq!(st.query(0, 5).0, 24);
}

#[test]
fn empty_tree_scenario() {
    let mut st = SegmentTree::<Sum<i64>>::new(5);
    assert_eq!(st.query(0, 5), Sum::<i64>::mempty());
    st.set(2, 1);
    assert_eq!(st.query(2, 3).0, 1);
    assert_eq!(st.query(0, 2), Sum::<i64>::mempty());
}

#[test]
fn every_range_of_a_built_tree_is_its_fold() {
    let s: [i64; 7] = [3, -1, 4, 1, -5, 9, 2];
    let st = SegmentTree::<Sum<i64>>::from_slice(&s);
    for l in 0..=s.len() {
        for r in l..=s.len() {
            assert_eq!(st.query(l, r).0, naive(&s, l, r));
        }
    }
}

#[test]
fn whole_range_of_a_built_tree_is_mconcat() {
    let s: [i64; 6] = [10, 20, 30, 40, 50, 60];
    let st = SegmentTree::<Sum<i64>>::from_slice(&s);
    let items: Vec<Sum<i64>> = s.iter().map(|x| Sum(*x)).collect();
    assert_eq!(st.query(0, s.len()), mconcat(&items));
    assert_eq!(st.query(0, s.len()).0, 210);
}

#[test]
fn internal_nodes_combine_their_children_after_updates() {
    let mut st = SegmentTree::<Sum<i64>>::from_slice(&[5, 4, 3, 2, 1, 0]);
    st.set(3, 100);
    st.mappend(0, 7);
    st.set(5, -9);
    st.mappend(3, 1);
    let v = values(&st);
    assert_eq!(v.len(), 15);
    for ix in 0..7 {
        assert_eq!(v[ix], v[2 * ix + 1] + v[2 * ix + 2]);
    }
    assert_eq!(&v[7..], &[12, 4, 3, 101, 1, -9, 0, 0]);
    assert_eq!(v[0], 112);
    assert_eq!(st.query(0, 6).0, 112);
}

#[test]
fn set_changes_one_element_only() {
    let mut st = SegmentTree::<Sum<i64>>::from_slice(&[1, 2, 3, 4, 5]);
    st.set(3, 40);
    assert_eq!(st.get(3).0, 40);
    assert_eq!(st.get(0).0, 1);
    assert_eq!(st.get(1).0, 2);
    assert_eq!(st.get(2).0, 3);
    assert_eq!(st.get(4).0, 5);
    assert_eq!(st.len(), 5);
}

#[test]
fn mappend_combines_with_the_element_there() {
    let mut st = SegmentTree::<Sum<i64>>::from_slice(&[1, 2, 3]);
    let before = st.get(1);
    st.mappend(1, 40);
    assert_eq!(st.get(1), Sum::mappend(&before, &Sum(40)));
    assert_eq!(st.get(1).0, 42);
    assert_eq!(st.get(0).0, 1);
    assert_eq!(st.get(2).0, 3);
}

#[test]
fn empty_range_is_identity() {
    let st = SegmentTree::<Sum<i64>>::from_slice(&[7, 8, 9]);
    for i in 0..=3 {
        assert_eq!(st.query(i, i), Sum(0));
    }
}

#[test]
fn get_is_the_query_of_one_element() {
    let st = SegmentTree::<Sum<i64>>::from_slice(&[7, 8, 9, 10, 11]);
    for i in 0..5 {
        assert_eq!(st.get(i), st.query(i, i + 1));
    }
    assert_eq!(st.get(4).0, 11);
}

#[test]
fn length_zero() {
    let st = SegmentTree::<Sum<i64>>::new(0);
    assert_eq!(st.len(), 0);
    assert_eq!(values(&st), vec![0]);
    assert_eq!(st.query(0, 0).0, 0);
    let empty: [i64; 0] = [];
    let st = SegmentTree::<Sum<i64>>::from_slice(&empty);
    assert_eq!(st.len(), 0);
    assert_eq!(values(&st), vec![0]);
}

#[test]
fn length_one() {
    let mut st = SegmentTree::<Sum<i64>>::from_slice(&[42]);
    assert_eq!(st.len(), 1);
    assert_eq!(values(&st), vec![42]);
    assert_eq!(st.query(0, 1).0, 42);
    st.set(0, 7);
    assert_eq!(values(&st), vec![7]);
    st.mappend(0, 3);
    assert_eq!(st.get(0).0, 10);
}

#[test]
fn length_a_power_of_two() {
    let st = SegmentTree::<Sum<i64>>::from_slice(&[1, 2, 3, 4]);
    assert_eq!(values(&st), vec![10, 3, 7, 1, 2, 3, 4]);
    assert_eq!(st.query(1, 3).0, 5);
    assert_eq!(st.query(0, 4).0, 10);
}

#[test]
fn next_power_of_two_values() {
    assert_eq!(next_power_of_two(0), 1);
    assert_eq!(next_power_of_two(1), 1);
    assert_eq!(next_power_of_two(2), 2);
    assert_eq!(next_power_of_two(3), 4);
    assert_eq!(next_power_of_two(5), 8);
    assert_eq!(next_power_of_two(1024), 1024);
    assert_eq!(next_power_of_two(1025), 2048);
}

#[test]
fn mconcat_folds_from_the_identity() {
    let none: [Sum<i64>; 0] = [];
    assert_eq!(mconcat(&none), Sum(0));
    assert_eq!(mconcat(&[Sum(5)]), Sum(5));
    assert_eq!(mconcat(&[Sum(1), Sum(2), Sum(3)]), Sum(6));
}

#[test]
fn sum_wraps_around() {
    assert_eq!(Sum::mappend(&Sum(i64::MAX), &Sum(1)), Sum(i64::MIN));
    assert_eq!(Sum::mappend(&Sum(i64::MIN), &Sum(-1)), Sum(i64::MAX));
    assert_eq!(Sum::<i64>::mempty(), Sum(0));
    assert_eq!(Sum::from(9), Sum(9i64));
    let st = SegmentTree::<Sum<i64>>::from_slice(&[i64::MAX, 1, 1]);
    assert_eq!(st.query(0, 2).0, i64::MIN);
    assert_eq!(st.query(0, 3).0, i64::MIN + 1);
}

#[test]
fn last_keeps_the_right_operand() {
    assert_eq!(Last::<i64>::mempty(), Last(None));
    assert_eq!(Last::mappend(&Last(Some(1)), &Last(Some(2))), Last(Some(2)));
    assert_eq!(Last::mappend(&Last(Some(1)), &Last(None)), Last(Some(1)));
    assert_eq!(Last::mappend(&Last(None), &Last(Some(2))), Last(Some(2)));
    assert_eq!(Last::<i64>::mappend(&Last(None), &Last(None)), Last(None));
    assert_eq!(Last::from(4), Last(Some(4i64)));
    assert_eq!(
        mconcat(&[Last(Some(1)), Last(None), Last(Some(3)), Last(None)]),
        Last(Some(3))
    );
}

#[test]
fn ranges_fold_from_left_to_right() {
    let s: [i64; 6] = [10, 11, 12, 13, 14, 15];
    let mut st = SegmentTree::<Last<i64>>::from_slice(&s);
    for l in 0..=s.len() {
        for r in l..=s.len() {
            let expected = if l == r { None } else { Some(s[r - 1]) };
            assert_eq!(st.query(l, r).0, expected);
        }
    }
    st.mappend(2, 99);
    assert_eq!(st.get(2).0, Some(99));
    assert_eq!(st.query(0, 3).0, Some(99));
    assert_eq!(st.query(0, 6).0, Some(15));
    assert_eq!(
        st.storage().iter().map(|r| r.0).collect::<Vec<_>>(),
        vec![
            Some(15),
            Some(13),
            Some(15),
            Some(11),
            Some(13),
            Some(15),
            None,
            Some(10),
            Some(11),
            Some(99),
            Some(13),
            Some(14),
            Some(15),
            None,
            None
        ]
    );
}

#[test]
fn last_over_an_empty_tree() {
    let mut st = SegmentTree::<Last<i64>>::new(4);
    assert_eq!(st.query(0, 4).0, None);
    st.set(1, 5);
    assert_eq!(st.query(0, 4).0, Some(5));
    assert_eq!(st.query(2, 4).0, None);
    st.set(3, 7);
    assert_eq!(st.query(0, 4).0, Some(7));
    assert_eq!(st.query(0, 3).0, Some(5));
    st.mappend(1, 6);
    assert_eq!(st.get(1).0, Some(6));
}
