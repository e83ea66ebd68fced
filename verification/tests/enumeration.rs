use combo::combinations;
use combo::CombinationIter;
use std::collections::BTreeSet;

fn drain_view<T: Clone>(view: &mut CombinationIter<'_, '_, T>) -> Vec<T> {
    let mut out = Vec::new();
    while let Some(x) = view.next() {
        out.push(x.clone());
    }
    out
}

fn drain_all<T: Clone>(seq: &[T], k: usize) -> Vec<Vec<T>> {
    let mut combinator = combinations(seq, k);
    let mut out = Vec::new();
    while let Some(mut view) = combinator.next() {
        out.push(drain_view(&mut view));
    }
    out
}

fn binomial(n: usize, k: usize) -> usize {
    if k > n {
        return 0;
    }
    let mut r: usize = 1;
    for i in 0..k {
        r = r * (n - i) / (i + 1);
    }
    r
}

#[test]
fn all_combinations_generated() {
    // The sequence to choose from
    let sequence: Vec<u32> = (0..4).collect();

    // Set of all combinations
    let combos: BTreeSet<BTreeSet<u32>> = [
        [0, 1, 2].iter().cloned().collect(),
        [0, 1, 3].iter().cloned().collect(),
        [0, 2, 3].iter().cloned().collect(),
        [1, 2, 3].iter().cloned().collect(),
    ]
    .iter()
    .cloned()
    .collect();

    let mut combinator = combinations(&sequence[..], 3);
    while let Some(mut combo) = combinator.next() {
        let mut c: BTreeSet<u32> = BTreeSet::new();
        while let Some(x) = combo.next() {
            c.insert(*x);
        }
        assert!(combos.contains(&c), "{:?} does not contain {:?}", &combos, &c);
    }
}

#[test]
fn four_choose_three_covers_every_subset() {
    let sequence: Vec<u32> = (0..4).collect();
    let produced: BTreeSet<BTreeSet<u32>> = drain_all(&sequence[..], 3)
        .into_iter()
        .map(|c| c.into_iter().collect())
        .collect();
    let expected: BTreeSet<BTreeSet<u32>> = [[0, 1, 2], [0, 1, 3], [0, 2, 3], [1, 2, 3]]
        .iter()
        .map(|c| c.iter().cloned().collect())
        .collect();
    assert_eq!(produced, expected);
}

#[test]
fn five_choose_three_in_order() {
    let sequence: Vec<u32> = (0..5).collect();
    let got = drain_all(&sequence[..], 3);
    let expected: Vec<Vec<u32>> = vec![
        vec![0, 1, 2],
        vec![0, 1, 3],
        vec![0, 1, 4],
        vec![0, 2, 3],
        vec![0, 2, 4],
        vec![0, 3, 4],
        vec![1, 2, 3],
        vec![1, 2, 4],
        vec![1, 3, 4],
        vec![2, 3, 4],
    ];
    assert_eq!(got, expected);
}

#[test]
fn empty_combination_is_produced_once() {
    let sequence: Vec<u32> = (0..4).collect();
    let mut combinator = combinations(&sequence[..], 0);
    {
        let mut view = combinator.next().expect("the empty combination");
        assert!(view.next().is_none());
    }
    assert!(combinator.next().is_none());
    assert!(combinator.next().is_none());
}

#[test]
fn empty_combination_of_empty_sequence() {
    let sequence: Vec<u32> = Vec::new();
    let got = drain_all(&sequence[..], 0);
    assert_eq!(got, vec![Vec::<u32>::new()]);
}

#[test]
fn full_length_combination_is_the_sequence() {
    let sequence: Vec<u32> = vec![7, 3, 9, 1];
    let got = drain_all(&sequence[..], 4);
    assert_eq!(got, vec![vec![7, 3, 9, 1]]);
}

#[test]
fn exhaustion_is_terminal() {
    let sequence: Vec<u32> = (0..5).collect();
    let mut combinator = combinations(&sequence[..], 2);
    let mut produced = 0;
    while combinator.next().is_some() {
        produced += 1;
    }
    assert_eq!(produced, 10);
    for _ in 0..20 {
        assert!(combinator.next().is_none());
    }
}

#[test]
fn first_and_last_tuples() {
    let sequence: Vec<usize> = (0..7).collect();
    let got = drain_all(&sequence[..], 3);
    assert_eq!(got.first().unwrap(), &vec![0, 1, 2]);
    assert_eq!(got.last().unwrap(), &vec![4, 5, 6]);
}

#[test]
fn successive_tuples_strictly_increase() {
    for n in 0..8usize {
        let sequence: Vec<usize> = (0..n).collect();
        for k in 0..=n {
            let got = drain_all(&sequence[..], k);
            for pair in got.windows(2) {
                assert!(pair[0] < pair[1], "{:?} then {:?}", pair[0], pair[1]);
            }
        }
    }
}

#[test]
fn every_subset_exactly_once() {
    for n in 0..9usize {
        let sequence: Vec<usize> = (0..n).collect();
        for k in 0..=n {
            let got = drain_all(&sequence[..], k);
            assert_eq!(got.len(), binomial(n, k));
            let mut seen: BTreeSet<Vec<usize>> = BTreeSet::new();
            for c in &got {
                assert_eq!(c.len(), k);
                for pair in c.windows(2) {
                    assert!(pair[0] < pair[1]);
                }
                for x in c {
                    assert!(*x < n);
                }
                assert!(seen.insert(c.clone()));
            }
            assert_eq!(seen.len(), binomial(n, k));
        }
    }
}

#[test]
fn six_choose_two_count_and_successor_steps() {
    let sequence: Vec<u32> = (0..6).collect();
    let got = drain_all(&sequence[..], 2);
    assert_eq!(got.len(), 15);
    assert_eq!(got[4], vec![0, 5]);
    assert_eq!(got[5], vec![1, 2]);
    assert_eq!(got[14], vec![4, 5]);
}

#[test]
fn view_yields_references_into_the_source() {
    let sequence: Vec<String> = vec!["a".to_string(), "b".to_string(), "c".to_string()];
    let mut combinator = combinations(&sequence[..], 2);
    let _ = combinator.next();
    let mut view = combinator.next().expect("a second combination");
    let x: &String = view.next().unwrap();
    assert!(std::ptr::eq(x, &sequence[0]));
    let y: &String = view.next().unwrap();
    assert!(std::ptr::eq(y, &sequence[2]));
    assert!(view.next().is_none());
    assert!(view.next().is_none());
}

#[test]
fn view_may_be_left_partly_consumed() {
    let sequence: Vec<u32> = vec![10, 20, 30, 40];
    let mut combinator = combinations(&sequence[..], 3);
    {
        let mut view = combinator.next().unwrap();
        assert_eq!(view.next(), Some(&10));
    }
    let mut view = combinator.next().unwrap();
    assert_eq!(drain_view(&mut view), vec![10, 20, 40]);
}

#[test]
fn single_element_combinations() {
    let sequence: Vec<char> = vec!['x', 'y', 'z'];
    let got = drain_all(&sequence[..], 1);
    assert_eq!(got, vec![vec!['x'], vec!['y'], vec!['z']]);
}
