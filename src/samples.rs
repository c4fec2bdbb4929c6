use vstd::prelude::*;

use crate::flow::{new_flow, Classify, Flow, Label, Link, Predicate, Transform};

verus! {

/// Label for multiples of both three and five.
pub const FIZZBUZZ: Label = 0;

/// Label for multiples of three that are not multiples of five.
pub const FIZZ: Label = 1;

/// Label for multiples of five that are not multiples of three.
pub const BUZZ: Label = 2;

/// Label for numbers that are multiples of neither three nor five.
pub const NUMBER: Label = 3;

/// The one label that the FizzBuzz game gives to `n`.
pub open spec fn fizzbuzz_label(n: u64) -> Label {
    if n % 15 == 0 {
        FIZZBUZZ
    } else if n % 3 == 0 {
        FIZZ
    } else if n % 5 == 0 {
        BUZZ
    } else {
        NUMBER
    }
}

/// Classifies `n` for the FizzBuzz game: a single label, as `fizzbuzz_label` gives.
pub fn fizzbuzzer(n: &u64) -> (r: Vec<Label>)
    ensures
        r@ == seq![fizzbuzz_label(*n)],
{
    let mut r: Vec<Label> = Vec::new();
    if *n % 15 == 0 {
        r.push(FIZZBUZZ);
    } else if *n % 3 == 0 {
        r.push(FIZZ);
    } else if *n % 5 == 0 {
        r.push(BUZZ);
    } else {
        r.push(NUMBER);
    }
    r
}

/// Keeps the numbers greater than 300.
pub fn filter_gt300(n: &i32) -> (r: bool)
    ensures
        r == (*n > 300),
{
    *n > 300
}

/// The predicate of `filter_gt300`, to attach as a filter.
pub struct GreaterThan300;

impl Predicate<i32> for GreaterThan300 {
    open spec fn keeps(&self, v: i32) -> bool {
        v > 300
    }

    fn keep(&self, v: &i32) -> (r: bool) {
        filter_gt300(v)
    }
}

/// The classification of `fizzbuzzer`, to attach as a classifier.
pub struct FizzBuzzer;

impl Classify<u64> for FizzBuzzer {
    open spec fn labels(&self, v: u64) -> Seq<Label> {
        seq![fizzbuzz_label(v)]
    }

    fn classify(&self, v: &u64) -> (r: Vec<Label>) {
        fizzbuzzer(v)
    }
}

/// The demo pipeline: an observer on the root, below it a filter that keeps the
/// numbers greater than 300, and below that a second observer. Returns the flow
/// and the handles of the two observers. Every number sent is observed by the
/// first; those greater than 300 are then observed by the second.
pub fn range_filter_flow<T: Transform<i32>, C: Classify<i32>>() -> (r: (
    Flow<i32, T, GreaterThan300, C>,
    usize,
    usize,
))
    ensures
        r.0.wf(),
        forall|n: i32| #[trigger] r.0.observed(0, n) == seq![(r.1, n)] + if n > 300 {
            seq![(r.2, n)]
        } else {
            Seq::empty()
        },
{
    let mut f = new_flow::<i32, T, GreaterThan300, C>();
    let seen = f.peep(0);
    let gt = f.filter(seen, GreaterThan300);
    let passed = f.peep(gt);
    proof {
        assert forall|n: i32| #[trigger] f.observed(0, n) == seq![(seen, n)] + if n > 300 {
            seq![(passed, n)]
        } else {
            Seq::empty()
        } by {
            let e = Seq::<(usize, i32)>::empty();
            let tail = if n > 300 { seq![(passed, n)] } else { e };
            assert(f.observed_from(3, 4, n) == e);
            assert(f.observed(3, n) =~= seq![(passed, n)]);
            assert(f.observed_from(2, 4, n) == e);
            assert(f.observed_from(2, 3, n) =~= tail);
            assert(f.observed(2, n) =~= tail);
            assert(f.observed_from(1, 4, n) == e);
            assert(f.receives(1, 3, n) is None);
            assert(f.observed_from(1, 3, n) =~= e);
            assert(f.observed_from(1, 2, n) =~= tail);
            assert(f.observed(1, n) =~= seq![(seen, n)] + tail);
            assert(f.observed_from(0, 4, n) == e);
            assert(f.receives(0, 3, n) is None);
            assert(f.observed_from(0, 3, n) =~= e);
            assert(f.receives(0, 2, n) is None);
            assert(f.observed_from(0, 2, n) =~= e);
            assert(f.observed_from(0, 1, n) =~= seq![(seen, n)] + tail);
            assert(f.observed(0, n) =~= seq![(seen, n)] + tail);
        }
    }
    (f, seen, passed)
}

/// The FizzBuzz pipeline: a classifier on the root with one sub-pipeline per
/// label, in the order `FIZZBUZZ`, `FIZZ`, `BUZZ`, `NUMBER`, and an observer on
/// each. Returns the flow and the handles of the four observers, in that order.
/// Every number sent is observed exactly once, by the observer of its label.
pub fn fizzbuzz_flow<T: Transform<u64>, P: Predicate<u64>>() -> (r: (
    Flow<u64, T, P, FizzBuzzer>,
    Vec<usize>,
))
    ensures
        r.0.wf(),
        r.1@.len() == 4,
        forall|n: u64| #[trigger] r.0.observed(0, n) == seq![(r.1@[fizzbuzz_label(n) as int], n)],
{
    let mut f = new_flow::<u64, T, P, FizzBuzzer>();
    let mut labels: Vec<Label> = Vec::new();
    labels.push(FIZZBUZZ);
    labels.push(FIZZ);
    labels.push(BUZZ);
    labels.push(NUMBER);
    let outs = crate::flow::segregate(&mut f, 0, FizzBuzzer, labels);
    let mut taps: Vec<usize> = Vec::new();
    let a = f.peep(outs[0]);
    taps.push(a);
    let b = f.peep(outs[1]);
    taps.push(b);
    let c = f.peep(outs[2]);
    taps.push(c);
    let d = f.peep(outs[3]);
    taps.push(d);
    proof {
        let e = Seq::<(usize, u64)>::empty();
        assert(f.len() == 10);
        assert(taps@ =~= seq![6usize, 7, 8, 9]);
        assert forall|n: u64| #[trigger] f.observed(0, n) == seq![(taps@[fizzbuzz_label(n) as int], n)] by {
            let lab = fizzbuzz_label(n);
            assert(FizzBuzzer.labels(n) == seq![lab]);
            assert forall|k: int| 6 <= k < 10 implies #[trigger] f.observed(k, n) == seq![(k as usize, n)] by {
                f.lemma_silent_from(k, k + 1, n);
                assert(f.observed(k, n) =~= seq![(k as usize, n)] + f.observed_from(k, k + 1, n));
            }
            assert forall|k: int| 2 <= k < 6 implies #[trigger] f.observed(k, n) == seq![((k + 4) as usize, n)] by {
                assert forall|j: int| k + 1 <= j < f.len() && j != k + 4 implies #[trigger] f.receives(k, j, n) is None by {
                    if j < 6 {
                        assert(f.nodes()[j].link == Link::Branch(1, (j - 2) as u32));
                    } else {
                        assert(f.nodes()[j].link == Link::Child((j - 4) as usize));
                    }
                }
                f.lemma_silent_from(k, k + 5, n);
                let m = k + 4;
                assert(f.nodes()[m].link == Link::Child(k as usize));
                assert(f.receives(k, m, n) == Some(n));
                assert(f.observed(m, n) == seq![(m as usize, n)]);
                assert(f.observed_from(k, m, n) =~= seq![(m as usize, n)]);
                assert(f.observed_from(k, k + 1, n) =~= seq![(m as usize, n)]) by {
                    assert(f.observed_from(k, m - 1, n) =~= seq![(m as usize, n)]);
                    assert(f.observed_from(k, m - 2, n) =~= seq![(m as usize, n)]);
                    assert(f.observed_from(k, m - 3, n) =~= seq![(m as usize, n)]);
                }
                assert(f.observed(k, n) =~= f.observed_from(k, k + 1, n));
            }
            assert(f.observed_from(1, 6, n) =~= e) by {
                assert forall|j: int| 6 <= j < f.len() implies #[trigger] f.receives(1, j, n) is None by {
                    assert(f.nodes()[j].link == Link::Child((j - 4) as usize));
                }
                f.lemma_silent_from(1, 6, n);
            }
            assert forall|k: int| 2 <= k < 6 implies #[trigger] f.receives(1, k, n) == (if lab == k - 2 {
                Some(n)
            } else {
                None
            }) by {
                let l = (k - 2) as u32;
                assert(f.nodes()[k].link == Link::Branch(1, l));
                assert(f.nodes()[1].cap is Classifier);
                assert(seq![lab][0] == lab);
                assert(seq![lab].contains(l) == (lab == l));
            }
            let tail = seq![(taps@[lab as int], n)];
            assert(f.observed_from(1, 2, n) =~= tail) by {
                assert(f.observed_from(1, 5, n) =~= (if lab == 3 { f.observed(5, n) } else { e }));
                assert(f.observed_from(1, 4, n) =~= (if lab == 2 { f.observed(4, n) } else { e }) + f.observed_from(1, 5, n));
                assert(f.observed_from(1, 3, n) =~= (if lab == 1 { f.observed(3, n) } else { e }) + f.observed_from(1, 4, n));
                assert(f.observed_from(1, 2, n) =~= (if lab == 0 { f.observed(2, n) } else { e }) + f.observed_from(1, 3, n));
                assert(f.observed(2, n) == seq![(6usize, n)]);
                assert(f.observed(3, n) == seq![(7usize, n)]);
                assert(f.observed(4, n) == seq![(8usize, n)]);
                assert(f.observed(5, n) == seq![(9usize, n)]);
                assert(lab < 4);
            }
            assert(f.observed(1, n) =~= tail);
            assert(f.observed_from(0, 2, n) =~= e) by {
                assert forall|j: int| 2 <= j < f.len() implies #[trigger] f.receives(0, j, n) is None by {
                    if j < 6 {
                        assert(f.nodes()[j].link == Link::Branch(1, (j - 2) as u32));
                    } else {
                        assert(f.nodes()[j].link == Link::Child((j - 4) as usize));
                    }
                }
                f.lemma_silent_from(0, 2, n);
            }
            assert(f.observed(0, n) =~= tail);
        }
    }
    (f, taps)
}

} // verus!
