use flow::{filter_gt300, fizzbuzzer, new_flow, segregate, send_many, Flow, Label};
use flow::{fizzbuzz_flow, range_filter_flow, Classify, FizzBuzzer, GreaterThan300, Predicate, Transform};
use flow::{BUZZ, FIZZ, FIZZBUZZ, NUMBER};

/// Any filter the tests attach to an integer flow.
enum IntFilter {
    Even,
    Above300,
}

impl Predicate<i32> for IntFilter {
    fn keep(&self, v: &i32) -> bool {
        match self {
            IntFilter::Even => is_even(v),
            IntFilter::Above300 => GreaterThan300.keep(v),
        }
    }
}

struct DoublePositive;

impl Transform<i32> for DoublePositive {
    fn map(&self, v: &i32) -> Option<i32> {
        double_positive(v)
    }
}

struct BySign;

impl Classify<i32> for BySign {
    fn classify(&self, v: &i32) -> Vec<Label> {
        by_sign(v)
    }
}

struct NoMap;

impl Transform<u64> for NoMap {
    fn map(&self, v: &u64) -> Option<u64> {
        Some(*v)
    }
}

struct NoFilter;

impl Predicate<u64> for NoFilter {
    fn keep(&self, _v: &u64) -> bool {
        true
    }
}

type IntFlow = Flow<i32, DoublePositive, IntFilter, BySign>;
type NumFlow = Flow<u64, NoMap, NoFilter, FizzBuzzer>;

fn int_flow() -> IntFlow {
    new_flow()
}

fn is_even(n: &i32) -> bool {
    n % 2 == 0
}

fn double_positive(n: &i32) -> Option<i32> {
    if *n > 0 {
        Some(n * 2)
    } else {
        None
    }
}

fn by_sign(n: &i32) -> Vec<Label> {
    let mut r = Vec::new();
    if *n < 0 {
        r.push(30);
    }
    if *n % 2 == 0 {
        r.push(20);
    }
    if *n == 7 {
        r.push(99);
        r.push(10);
        r.push(10);
    }
    r
}

#[test]
fn lone_root_observes_nothing() {
    let f = int_flow();
    assert!(f.send(&5).is_empty());
    assert!(f.send(&-1).is_empty());
    assert!(send_many(&f, &vec![1, 2, 3]).is_empty());
}

#[test]
fn children_run_in_attachment_order() {
    let mut f = int_flow();
    let a = f.peep(0);
    let b = f.peep(0);
    let a1 = f.peep(a);
    let c = f.peep(0);
    assert_eq!((a, b, a1, c), (1, 2, 3, 4));
    assert_eq!(f.send(&5), vec![(1, 5), (3, 5), (2, 5), (4, 5)]);
}

#[test]
fn filter_forwards_only_accepted_values() {
    let mut f = int_flow();
    let even = f.filter(0, IntFilter::Even);
    let seen = f.peep(even);
    let below = f.peep(seen);
    assert_eq!(f.send(&4), vec![(seen, 4), (below, 4)]);
    assert!(f.send(&3).is_empty());
}

#[test]
fn transform_forwards_mapped_value_or_stops() {
    let mut f = int_flow();
    let t = f.next(0, DoublePositive);
    let seen = f.peep(t);
    assert_eq!(f.send(&3), vec![(seen, 6)]);
    assert!(f.send(&-1).is_empty());
    assert!(f.send(&0).is_empty());
}

#[test]
fn observer_does_not_change_downstream_values() {
    let mut plain = int_flow();
    let t = plain.next(0, DoublePositive);
    plain.peep(t);

    let mut tapped = int_flow();
    let tap = tapped.peep(0);
    let t2 = tapped.next(tap, DoublePositive);
    tapped.peep(t2);

    for v in [-3, 0, 1, 5, 100] {
        let a = plain.send(&v);
        let b = tapped.send(&v);
        assert_eq!(b[0], (tap, v));
        let rest: Vec<i32> = b[1..].iter().map(|o| o.1).collect();
        let base: Vec<i32> = a.iter().map(|o| o.1).collect();
        assert_eq!(rest, base);
        assert_eq!(b.iter().filter(|o| o.0 == tap).count(), 1);
    }
}

#[test]
fn classifier_routes_by_declared_labels() {
    let mut f = int_flow();
    let outs = segregate(&mut f, 0, BySign, vec![10, 20, 30]);
    assert_eq!(outs.len(), 3);
    let p10 = f.peep(outs[0]);
    let p20 = f.peep(outs[1]);
    let p30 = f.peep(outs[2]);
    // labels come back as [30, 20]; the sub-pipelines run in declared order
    assert_eq!(f.send(&-4), vec![(p20, -4), (p30, -4)]);
    assert_eq!(f.send(&-3), vec![(p30, -3)]);
    assert!(f.send(&3).is_empty());
    // an undeclared label is ignored; a repeated label routes once
    assert_eq!(f.send(&7), vec![(p10, 7)]);
}

#[test]
fn classifier_never_forwards_to_its_own_children() {
    let mut f = int_flow();
    let outs = segregate(&mut f, 0, BySign, vec![20]);
    let classifier = outs[0] - 1;
    let stray = f.peep(classifier);
    let p20 = f.peep(outs[0]);
    assert_eq!(f.send(&2), vec![(p20, 2)]);
    assert!(f.send(&1).iter().all(|o| o.0 != stray));
}

#[test]
fn segregate_returns_one_handle_per_label() {
    let mut f = int_flow();
    assert!(segregate(&mut f, 0, BySign, vec![]).is_empty());
    let outs = segregate(&mut f, 0, BySign, vec![1, 2, 3, 4]);
    assert_eq!(outs, vec![3, 4, 5, 6]);
}

#[test]
fn fizzbuzz_counts_and_order() {
    let mut f: NumFlow = new_flow();
    let outs = segregate(
        &mut f,
        0,
        FizzBuzzer,
        vec![FIZZBUZZ, FIZZ, BUZZ, NUMBER],
    );
    let taps: Vec<usize> = outs.iter().map(|o| f.peep(*o)).collect();
    let values: Vec<u64> = (1..=100).collect();
    let seen = send_many(&f, &values);
    let count = |t: usize| seen.iter().filter(|o| o.0 == t).count();
    assert_eq!(count(taps[0]), 6);
    assert_eq!(count(taps[1]), 27);
    // multiples of five but not of fifteen: 20 - 6
    assert_eq!(count(taps[2]), 14);
    assert_eq!(count(taps[3]), 53);
    assert_eq!(seen.len(), 100);
    let fb: Vec<u64> = seen.iter().filter(|o| o.0 == taps[0]).map(|o| o.1).collect();
    assert_eq!(fb, vec![15, 30, 45, 60, 75, 90]);
}

#[test]
fn range_filter_keeps_values_above_300() {
    let mut f = int_flow();
    let seen_in = f.peep(0);
    let gt = f.filter(seen_in, IntFilter::Above300);
    let passed = f.peep(gt);
    let mut all = Vec::new();
    all.extend(f.send(&1));
    all.extend(f.send(&99));
    all.extend(send_many(&f, &vec![1, 2, 3, 4, 5]));
    all.extend(send_many(&f, &(1..500).collect::<Vec<i32>>()));
    let got: Vec<i32> = all.iter().filter(|o| o.0 == passed).map(|o| o.1).collect();
    assert_eq!(got, (301..500).collect::<Vec<i32>>());
    assert_eq!(all.iter().filter(|o| o.0 == seen_in).count(), 2 + 5 + 499);
}

#[test]
fn bulk_send_matches_sequential_sends() {
    let mut f = int_flow();
    let tap = f.peep(0);
    let even = f.filter(tap, IntFilter::Even);
    f.peep(even);
    let bulk = send_many(&f, &vec![1, 2, 3, 4, 5]);
    let mut one_by_one = Vec::new();
    for v in [1, 2, 3, 4, 5] {
        one_by_one.extend(f.send(&v));
    }
    assert_eq!(bulk, one_by_one);
    assert_eq!(bulk.len(), 7);
}

#[test]
fn sample_callbacks() {
    assert!(filter_gt300(&301));
    assert!(!filter_gt300(&300));
    assert!(!filter_gt300(&-500));
    assert_eq!(fizzbuzzer(&45), vec![FIZZBUZZ]);
    assert_eq!(fizzbuzzer(&9), vec![FIZZ]);
    assert_eq!(fizzbuzzer(&10), vec![BUZZ]);
    assert_eq!(fizzbuzzer(&7), vec![NUMBER]);
    assert_eq!(fizzbuzzer(&0), vec![FIZZBUZZ]);
}

#[test]
fn repeated_declared_label_reaches_every_sub_pipeline() {
    let mut f = int_flow();
    let outs = segregate(&mut f, 0, BySign, vec![20, 30, 20]);
    let a = f.peep(outs[0]);
    let b = f.peep(outs[1]);
    let c = f.peep(outs[2]);
    assert_eq!(f.send(&2), vec![(a, 2), (c, 2)]);
    assert_eq!(f.send(&-2), vec![(a, -2), (b, -2), (c, -2)]);
}

#[test]
fn sample_stages_match_sample_functions() {
    assert!(GreaterThan300.keep(&301));
    assert!(!GreaterThan300.keep(&300));
    assert_eq!(FizzBuzzer.classify(&30), vec![FIZZBUZZ]);
    assert_eq!(FizzBuzzer.classify(&8), vec![NUMBER]);
}

#[test]
fn demo_flow_passes_only_values_above_300() {
    let (f, seen_in, passed): (Flow<i32, DoublePositive, GreaterThan300, BySign>, usize, usize) =
        range_filter_flow();
    let mut all = Vec::new();
    all.extend(f.send(&1));
    all.extend(f.send(&99));
    all.extend(send_many(&f, &vec![1, 2, 3, 4, 5]));
    all.extend(send_many(&f, &(290..310).collect::<Vec<i32>>()));
    let first: Vec<i32> = all.iter().filter(|o| o.0 == seen_in).map(|o| o.1).collect();
    let mut expected_first = vec![1, 99, 1, 2, 3, 4, 5];
    expected_first.extend(290..310);
    assert_eq!(first, expected_first);
    let second: Vec<i32> = all.iter().filter(|o| o.0 == passed).map(|o| o.1).collect();
    assert_eq!(second, (301..310).collect::<Vec<i32>>());
    // each pass is observed right after the first observer saw the same value
    for (i, o) in all.iter().enumerate() {
        if o.0 == passed {
            assert_eq!(all[i - 1], (seen_in, o.1));
        }
    }
}

#[test]
fn fizzbuzz_flow_puts_each_number_in_one_sub_pipeline() {
    let (f, taps): (NumFlow, Vec<usize>) = fizzbuzz_flow();
    assert_eq!(taps.len(), 4);
    let values: Vec<u64> = (1..=100).collect();
    let seen = send_many(&f, &values);
    assert_eq!(seen.len(), 100);
    for (i, o) in seen.iter().enumerate() {
        assert_eq!(o.1, values[i]);
        assert_eq!(o.0, taps[fizzbuzzer(&o.1)[0] as usize]);
    }
    let count = |t: usize| seen.iter().filter(|o| o.0 == t).count();
    assert_eq!(
        (count(taps[0]), count(taps[1]), count(taps[2]), count(taps[3])),
        (6, 27, 14, 53)
    );
}
