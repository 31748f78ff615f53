use rayon_cond::cond::CondIterator;

fn items(parallel: bool) -> CondIterator<u64> {
    CondIterator::new(vec![1, 2, 3], parallel)
}

#[test]
fn new_keeps_items_and_mode() {
    for parallel in [true, false] {
        let it = items(parallel);
        assert_eq!(it.is_parallel(), parallel);
        assert_eq!(it.is_serial(), !parallel);
        assert_eq!(it.collect(), vec![1, 2, 3]);
    }
}

#[test]
fn from_par_iter_and_from_iter_set_mode() {
    let p = CondIterator::from_par_iter(vec![4u64, 5]);
    assert!(p.is_parallel());
    assert!(!p.is_serial());
    assert_eq!(p.collect(), vec![4, 5]);
    let s = CondIterator::from_iter(vec![4u64, 5]);
    assert!(s.is_serial());
    assert!(!s.is_parallel());
    assert_eq!(s.collect(), vec![4, 5]);
}

#[test]
fn into_parallel_keeps_items() {
    let p = items(true).into_parallel();
    assert!(p.is_parallel());
    assert_eq!(p.collect(), vec![1, 2, 3]);
    let s = CondIterator::new((0u64..100).collect::<Vec<u64>>(), false).into_parallel();
    assert!(s.is_parallel());
    let mut got = s.collect();
    got.sort();
    assert_eq!(got, (0u64..100).collect::<Vec<u64>>());
}

#[test]
fn map_applies_to_each_item() {
    for parallel in [true, false] {
        let it = items(parallel).map(|x| x * 2);
        assert_eq!(it.is_parallel(), parallel);
        assert_eq!(it.collect(), vec![2, 4, 6]);
    }
}

#[test]
fn map_with_serial_threads_one_state() {
    let got = items(false)
        .map_with(0u64, |seen: &mut u64, x| {
            *seen += 1;
            x * 10 + *seen
        })
        .collect();
    assert_eq!(got, vec![11, 22, 33]);
}

#[test]
fn map_with_parallel_keeps_length() {
    let got = items(true).map_with(5u64, |s: &mut u64, x| x + *s).collect();
    assert_eq!(got, vec![6, 7, 8]);
}

#[test]
fn map_init_serial_threads_one_state() {
    let got = items(false)
        .map_init(
            || 100u64,
            |s: &mut u64, x| {
                *s += x;
                *s
            },
        )
        .collect();
    assert_eq!(got, vec![101, 103, 106]);
    let par = items(true).map_init(|| 7u64, |s: &mut u64, x| x * *s).collect();
    assert_eq!(par, vec![7, 14, 21]);
}

#[test]
fn inspect_leaves_items() {
    let seen = std::sync::Mutex::new(0u64);
    for parallel in [true, false] {
        let got = items(parallel)
            .inspect(|x| {
                *seen.lock().unwrap() += *x;
            })
            .collect();
        assert_eq!(got, vec![1, 2, 3]);
    }
    assert_eq!(*seen.lock().unwrap(), 12);
}

#[test]
fn update_changes_each_item() {
    for parallel in [true, false] {
        let got = items(parallel).update(|x: &mut u64| *x *= 10).collect();
        assert_eq!(got, vec![10, 20, 30]);
    }
}

#[test]
fn filter_keeps_matching_in_order() {
    for parallel in [true, false] {
        let got = CondIterator::new(vec![1u64, 2, 3, 4, 5, 6], parallel).filter(|x| *x % 2 == 0).collect();
        assert_eq!(got, vec![2, 4, 6]);
    }
}

#[test]
fn filter_map_keeps_somes() {
    for parallel in [true, false] {
        let got = CondIterator::new(vec![1u64, 2, 3, 4], parallel)
            .filter_map(|x| if x % 2 == 1 { Some(x * 100) } else { None })
            .collect();
        assert_eq!(got, vec![100, 300]);
    }
}

#[test]
fn flat_map_concatenates() {
    for parallel in [true, false] {
        let got = CondIterator::new(vec![1u64, 0, 3], parallel).flat_map(|x| (0..x).map(|_| x).collect::<Vec<u64>>()).collect();
        assert_eq!(got, vec![1, 3, 3, 3]);
    }
}

#[test]
fn flatten_concatenates() {
    for parallel in [true, false] {
        let got = CondIterator::new(vec![vec![1u64, 2], vec![], vec![3]], parallel).flatten().collect();
        assert_eq!(got, vec![1, 2, 3]);
    }
}

#[test]
fn chain_appends() {
    for parallel in [true, false] {
        let got = items(parallel).chain(vec![7, 8]).collect();
        assert_eq!(got, vec![1, 2, 3, 7, 8]);
    }
}

#[test]
fn enumerate_numbers_from_zero() {
    for parallel in [true, false] {
        let got = CondIterator::new(vec!['a', 'b', 'c'], parallel).enumerate().collect();
        assert_eq!(got, vec![(0, 'a'), (1, 'b'), (2, 'c')]);
    }
}

#[test]
fn skip_and_take() {
    for parallel in [true, false] {
        assert_eq!(items(parallel).skip(1).collect(), vec![2, 3]);
        assert_eq!(items(parallel).skip(5).collect(), Vec::<u64>::new());
        assert_eq!(items(parallel).take(2).collect(), vec![1, 2]);
        assert_eq!(items(parallel).take(9).collect(), vec![1, 2, 3]);
        assert_eq!(items(parallel).take(0).collect(), Vec::<u64>::new());
    }
}

#[test]
fn rev_reverses() {
    for parallel in [true, false] {
        assert_eq!(items(parallel).rev().collect(), vec![3, 2, 1]);
    }
}

#[test]
fn fold_serial_gives_one_value() {
    let got = items(false).fold(|| 10u64, |a, x| a + x).collect();
    assert_eq!(got, vec![16]);
    let empty = CondIterator::new(Vec::<u64>::new(), false).fold(|| 10u64, |a, x| a + x).collect();
    assert_eq!(empty, vec![10]);
}

#[test]
fn fold_parallel_gives_folds_of_pieces() {
    let v: Vec<u64> = (1..=1000).collect();
    let folds = CondIterator::new(v, true).fold(|| 0u64, |a, x| a + x).collect();
    assert!(!folds.is_empty());
    assert_eq!(folds.iter().sum::<u64>(), 500500);
}

#[test]
fn fold_with_sums() {
    let got = items(false).fold_with(1u64, |a, x| a * 10 + x).collect();
    assert_eq!(got, vec![1123]);
    let v: Vec<u64> = (1..=100).collect();
    let par = CondIterator::new(v, true).fold_with(0u64, |a, x| a + x).collect();
    assert_eq!(par.iter().sum::<u64>(), 5050);
}

#[test]
fn intersperse_puts_separator_between() {
    for parallel in [true, false] {
        assert_eq!(items(parallel).intersperse(0).collect(), vec![1, 0, 2, 0, 3]);
        let one = CondIterator::new(vec![9u64], parallel).intersperse(0).collect();
        assert_eq!(one, vec![9]);
        let none = CondIterator::new(Vec::<u64>::new(), parallel).intersperse(0).collect();
        assert_eq!(none, Vec::<u64>::new());
    }
}

#[test]
fn zip_stops_at_shorter() {
    for parallel in [true, false] {
        let got = items(parallel).zip(vec!['x', 'y']).collect();
        assert_eq!(got, vec![(1, 'x'), (2, 'y')]);
        let got2 = CondIterator::new(vec![1u64], parallel).zip(vec!['x', 'y']).collect();
        assert_eq!(got2, vec![(1, 'x')]);
    }
}

#[test]
fn zip_eq_pairs_all() {
    for parallel in [true, false] {
        let got = items(parallel).zip_eq(vec!['x', 'y', 'z']).collect();
        assert_eq!(got, vec![(1, 'x'), (2, 'y'), (3, 'z')]);
    }
}

#[test]
fn interleave_alternates_then_rest() {
    for parallel in [true, false] {
        assert_eq!(items(parallel).interleave(vec![5, 6]).collect(), vec![1, 5, 2, 6, 3]);
        let got = CondIterator::new(vec![1u64], parallel).interleave(vec![5, 6, 7]).collect();
        assert_eq!(got, vec![1, 5, 6, 7]);
        let empty = CondIterator::new(Vec::<u64>::new(), parallel).interleave(vec![5, 6]).collect();
        assert_eq!(empty, vec![5, 6]);
    }
}

#[test]
fn interleave_shortest_stops_when_turn_runs_out() {
    for parallel in [true, false] {
        assert_eq!(items(parallel).interleave_shortest(vec![5, 6]).collect(), vec![1, 5, 2, 6, 3]);
        let a = CondIterator::new(vec![1u64, 2], parallel).interleave_shortest(vec![5, 6, 7]).collect();
        assert_eq!(a, vec![1, 5, 2, 6]);
        let b = CondIterator::new(vec![1u64, 2, 3, 4], parallel).interleave_shortest(vec![5]).collect();
        assert_eq!(b, vec![1, 5, 2]);
        let c = CondIterator::new(Vec::<u64>::new(), parallel).interleave_shortest(vec![5]).collect();
        assert_eq!(c, Vec::<u64>::new());
    }
}

#[test]
fn cloned_copies_referenced_items() {
    let data = vec![String::from("a"), String::from("b")];
    for parallel in [true, false] {
        let refs: Vec<&String> = data.iter().collect();
        let got = CondIterator::new(refs, parallel).cloned().collect();
        assert_eq!(got, data);
    }
}

#[test]
fn while_some_serial_stops_at_none() {
    let got = CondIterator::new(vec![Some(1u64), Some(2), None, Some(3)], false).while_some().collect();
    assert_eq!(got, vec![1, 2]);
    let first_none = CondIterator::new(vec![None, Some(3u64)], false).while_some().collect();
    assert_eq!(first_none, Vec::<u64>::new());
}

#[test]
fn while_some_all_some_gives_all() {
    for parallel in [true, false] {
        let got = CondIterator::new(vec![Some(1u64), Some(2), Some(3)], parallel).while_some().collect();
        assert_eq!(got, vec![1, 2, 3]);
    }
}

#[test]
fn while_some_parallel_gives_some_values_in_order() {
    let mut input: Vec<Option<u64>> = (0..200).map(Some).collect();
    input[100] = None;
    let got = CondIterator::new(input, true).while_some().collect();
    let mut last: Option<u64> = None;
    for x in &got {
        assert!(*x < 200 && *x != 100);
        if let Some(l) = last {
            assert!(l < *x);
        }
        last = Some(*x);
    }
}

#[test]
fn map_with_serial_running_sum() {
    let got = CondIterator::new(vec![1i32, 2, 3], false)
        .map_with(0i32, |s: &mut i32, x: i32| {
            *s += x;
            *s
        })
        .collect();
    assert_eq!(got, vec![1, 3, 6]);
}

#[test]
fn map_init_serial_shares_one_value() {
    let got = CondIterator::new(vec![5i32, 6], false)
        .map_init(
            || 100i32,
            |s: &mut i32, x: i32| {
                *s += 1;
                *s + x
            },
        )
        .collect();
    assert_eq!(got, vec![106, 108]);
}

#[test]
fn fold_and_fold_with_on_i32() {
    assert_eq!(CondIterator::new(vec![1i32, 2, 3], false).fold(|| 0i32, |a, x| a + x).collect(), vec![6]);
    assert_eq!(CondIterator::new(vec![1i32, 2, 3], false).fold_with(10i32, |a, x| a + x).collect(), vec![16]);
    assert_eq!(CondIterator::new(Vec::<i32>::new(), false).fold_with(10i32, |a, x| a + x).collect(), vec![10]);
    let par = CondIterator::new(vec![1i32, 2, 3], true).fold_with(10i32, |a, x| a + x).collect();
    assert!(!par.is_empty());
    assert_eq!(par.iter().sum::<i32>() - 10 * (par.len() as i32), 6);
}

#[test]
fn intersperse_with_strings() {
    for parallel in [true, false] {
        let got = CondIterator::new(vec![String::from("a"), String::from("b"), String::from("c")], parallel)
            .intersperse(String::from(","))
            .collect();
        assert_eq!(got.concat(), "a,b,c");
    }
}
