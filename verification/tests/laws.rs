use rayon_cond::cond::CondIterator;

fn numbers() -> Vec<u64> {
    (1..=500).collect()
}

#[test]
fn reduce_same_either_way_on_numbers() {
    let par = CondIterator::new(numbers(), true).reduce(|| 0, |a, b| a + b);
    let ser = CondIterator::new(numbers(), false).reduce(|| 0, |a, b| a + b);
    assert_eq!(par, ser);
    assert_eq!(ser, 125250);
}

#[test]
fn reduce_with_same_either_way_on_strings() {
    let words: Vec<String> = (0..300).map(|i| format!("{},", i)).collect();
    let par = CondIterator::new(words.clone(), true).reduce_with(|a, b| a + &b);
    let ser = CondIterator::new(words.clone(), false).reduce_with(|a, b| a + &b);
    assert_eq!(par, ser);
    assert_eq!(ser, Some(words.concat()));
}

#[test]
fn map_filter_same_either_way() {
    let par = CondIterator::new(numbers(), true).map(|x| x * 3).filter(|x| *x % 2 == 0).collect();
    let ser = CondIterator::new(numbers(), false).map(|x| x * 3).filter(|x| *x % 2 == 0).collect();
    assert_eq!(par, ser);
    assert_eq!(ser.len(), 250);
}

#[test]
fn filter_map_and_flat_map_same_either_way() {
    let f = |x: u64| if x % 3 == 0 { Some(x / 3) } else { None };
    let par = CondIterator::new(numbers(), true).filter_map(f).collect();
    let ser = CondIterator::new(numbers(), false).filter_map(f).collect();
    assert_eq!(par, ser);
    let g = |x: u64| if x % 2 == 0 { vec![x, x] } else { vec![] };
    let par2 = CondIterator::new(numbers(), true).flat_map(g).collect();
    let ser2 = CondIterator::new(numbers(), false).flat_map(g).collect();
    assert_eq!(par2, ser2);
    assert_eq!(ser2.len(), 500);
}

#[test]
fn partition_same_either_way() {
    let par = CondIterator::new(numbers(), true).partition(|x| *x % 7 == 0);
    let ser = CondIterator::new(numbers(), false).partition(|x| *x % 7 == 0);
    assert_eq!(par, ser);
    assert_eq!(ser.0.len() + ser.1.len(), 500);
}

#[test]
fn rev_twice_gives_items_back() {
    for parallel in [true, false] {
        assert_eq!(CondIterator::new(numbers(), parallel).rev().rev().collect(), numbers());
    }
}

#[test]
fn take_then_skip_gives_items_back() {
    for parallel in [true, false] {
        for n in [0usize, 3, 500, 900] {
            let mut front = CondIterator::new(numbers(), parallel).take(n).collect();
            let back = CondIterator::new(numbers(), parallel).skip(n).collect();
            front.extend(back);
            assert_eq!(front, numbers());
        }
    }
}

#[test]
fn enumerate_then_unzip() {
    for parallel in [true, false] {
        let (places, got) = CondIterator::new(numbers(), parallel).enumerate().unzip();
        assert_eq!(got, numbers());
        assert_eq!(places, (0usize..500).collect::<Vec<usize>>());
    }
}

#[test]
fn interleave_keeps_every_item() {
    for parallel in [true, false] {
        let got = CondIterator::new(vec![1u64, 2, 3, 4], parallel).interleave(vec![10, 20]).collect();
        assert_eq!(got.len(), 6);
        assert_eq!(got, vec![1, 10, 2, 20, 3, 4]);
    }
}

#[test]
fn chain_sum_is_sum_of_sums() {
    for parallel in [true, false] {
        let a = CondIterator::new(vec![1u64, 2, 3], parallel).chain(vec![10, 20]).sum();
        assert_eq!(a, 6 + 30);
    }
}

#[test]
fn min_and_max_bound_every_item() {
    for parallel in [true, false] {
        let v = vec![7u64, 2, 9, 4];
        let lo = CondIterator::new(v.clone(), parallel).min().unwrap();
        let hi = CondIterator::new(v.clone(), parallel).max().unwrap();
        assert!(v.contains(&lo) && v.contains(&hi));
        assert!(v.iter().all(|x| lo <= *x && *x <= hi));
    }
}

#[test]
fn find_and_position_same_either_way() {
    let v = numbers();
    let p = |x: &u64| *x % 37 == 0;
    let q = |x: u64| x % 37 == 0;
    let a = CondIterator::new(v.clone(), true).find_first(p);
    let b = CondIterator::new(v.clone(), false).find_first(p);
    assert_eq!(a, b);
    assert_eq!(b, Some(37));
    let a = CondIterator::new(v.clone(), true).find_last(p);
    let b = CondIterator::new(v.clone(), false).find_last(p);
    assert_eq!(a, b);
    assert_eq!(b, Some(481));
    let a = CondIterator::new(v.clone(), true).position_first(q);
    let b = CondIterator::new(v.clone(), false).position_first(q);
    assert_eq!(a, b);
    assert_eq!(b, Some(36));
    let a = CondIterator::new(v.clone(), true).position_last(q);
    let b = CondIterator::new(v.clone(), false).position_last(q);
    assert_eq!(a, b);
    assert_eq!(b, Some(480));
}

#[test]
fn any_and_all_same_either_way() {
    for q in [|x: u64| x > 499, |x: u64| x > 600, |x: u64| x > 0] {
        let a = CondIterator::new(numbers(), true).any(q);
        let b = CondIterator::new(numbers(), false).any(q);
        assert_eq!(a, b);
        let c = CondIterator::new(numbers(), true).all(q);
        let d = CondIterator::new(numbers(), false).all(q);
        assert_eq!(c, d);
    }
}

#[test]
fn min_max_by_key_same_either_way_on_ties() {
    let v: Vec<(u64, u64)> = (0..400).map(|i| (i % 7, i)).collect();
    let a = CondIterator::new(v.clone(), true).min_by_key(|p| p.0);
    let b = CondIterator::new(v.clone(), false).min_by_key(|p| p.0);
    assert_eq!(a, b);
    assert_eq!(b, Some((0, 0)));
    let a = CondIterator::new(v.clone(), true).max_by_key(|p| p.0);
    let b = CondIterator::new(v.clone(), false).max_by_key(|p| p.0);
    assert_eq!(a, b);
    assert_eq!(b, Some((6, 398)));
}

#[test]
fn min_max_by_same_either_way_on_ties() {
    let v: Vec<(u64, u64)> = (0..400).map(|i| (i % 7, i)).collect();
    let a = CondIterator::new(v.clone(), true).min_by(|x, y| x.0.cmp(&y.0));
    let b = CondIterator::new(v.clone(), false).min_by(|x, y| x.0.cmp(&y.0));
    assert_eq!(a, b);
    assert_eq!(b, Some((0, 0)));
    let a = CondIterator::new(v.clone(), true).max_by(|x, y| x.0.cmp(&y.0));
    let b = CondIterator::new(v.clone(), false).max_by(|x, y| x.0.cmp(&y.0));
    assert_eq!(a, b);
    assert_eq!(b, Some((6, 398)));
}

#[test]
fn map_with_same_either_way_when_state_is_ignored() {
    let par = CondIterator::new(numbers(), true).map_with(String::from("s"), |_s: &mut String, x| x * 3).collect();
    let ser = CondIterator::new(numbers(), false).map_with(String::from("s"), |_s: &mut String, x| x * 3).collect();
    assert_eq!(par, ser);
    let par2 = CondIterator::new(numbers(), true).map_init(|| 0u64, |_s: &mut u64, x| x + 1).collect();
    let ser2 = CondIterator::new(numbers(), false).map_init(|| 0u64, |_s: &mut u64, x| x + 1).collect();
    assert_eq!(par2, ser2);
    assert_eq!(ser2[0], 2);
}

#[test]
fn fold_then_reduce_gives_the_fold() {
    for parallel in [true, false] {
        let r = CondIterator::new(numbers(), parallel)
            .fold(|| 0u64, |a, b| a + b)
            .reduce(|| 0u64, |a, b| a + b);
        assert_eq!(r, 125250);
        let words: Vec<String> = (0..200).map(|i| format!("{};", i)).collect();
        let joined = CondIterator::new(words.clone(), parallel)
            .fold(String::new, |a, b| a + &b)
            .reduce(String::new, |a, b| a + &b);
        assert_eq!(joined, words.concat());
    }
}
