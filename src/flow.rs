use vstd::prelude::*;

verus! {

/// Tag that routes a value to one of a classifier's private sub-pipelines.
pub type Label = u32;

/// How a node hangs in the tree.
pub enum Link {
    /// The root of the whole flow.
    Root,
    /// An ordinary child of the given node.
    Child(usize),
    /// The private sub-pipeline of the given classifier node, for the given label.
    Branch(usize, Label),
}

/// The behaviour a node performs on each value it receives.
pub enum Capability<T, P, C> {
    /// Forwards the value unchanged.
    Pass,
    /// Forwards what the mapping returns, or stops on `None`.
    Transform(T),
    /// Forwards the value unchanged when the predicate holds, else stops.
    Filter(P),
    /// Records the value as observed, then forwards it unchanged.
    Observer,
    /// Routes the value to the private sub-pipelines whose labels it is given;
    /// never forwards to ordinary children.
    Classifier(C),
}

/// One node of a flow: where it hangs and what it does.
pub struct Node<T, P, C> {
    pub link: Link,
    pub cap: Capability<T, P, C>,
}

/// A mapping that a transform node applies to each value it receives.
pub trait Transform<V> {
    /// What the mapping gives for `v`: a value to forward, or `None` to stop.
    /// Left unknown unless an implementation defines it.
    open spec fn maps(&self, v: V) -> Option<V> {
        arbitrary()
    }

    /// Applies the mapping to `v`.
    fn map(&self, v: &V) -> (r: Option<V>)
        ensures
            r == self.maps(*v),
    ;
}

/// A predicate that a filter node tests on each value it receives.
pub trait Predicate<V> {
    /// Whether the predicate holds of `v`. Left unknown unless an implementation
    /// defines it.
    open spec fn keeps(&self, v: V) -> bool {
        arbitrary()
    }

    /// Tests the predicate on `v`.
    fn keep(&self, v: &V) -> (r: bool)
        ensures
            r == self.keeps(*v),
    ;
}

/// A classification that a classifier node applies to each value it receives.
pub trait Classify<V> {
    /// The labels that `v` is given, possibly none, possibly repeated. Left
    /// unknown unless an implementation defines it.
    open spec fn labels(&self, v: V) -> Seq<Label> {
        arbitrary()
    }

    /// Gives `v` its labels.
    fn classify(&self, v: &V) -> (r: Vec<Label>)
        ensures
            r@ == self.labels(*v),
    ;
}

/// A tree of processing nodes. Node `0` is the root; every other node is attached
/// after its parent, so a parent's handle is always smaller than its children's,
/// and siblings are ordered by handle in the order they were attached.
pub struct Flow<V, T, P, C> {
    nodes: Vec<Node<T, P, C>>,
    marker: std::marker::PhantomData<V>,
}

impl<V: Copy, T: Transform<V>, P: Predicate<V>, C: Classify<V>> Flow<V, T, P, C> {
    /// The nodes, indexed by handle.
    pub closed spec fn nodes(&self) -> Seq<Node<T, P, C>> {
        self.nodes@
    }

    /// The number of nodes.
    pub open spec fn len(&self) -> nat {
        self.nodes().len()
    }

    /// Node `i` hangs below a node attached before it; a branch hangs below a
    /// classifier.
    pub open spec fn link_ok(&self, i: int) -> bool {
        match self.nodes()[i].link {
            Link::Root => i == 0,
            Link::Child(p) => 0 <= p < i,
            Link::Branch(p, _) => 0 <= p < i && self.nodes()[p as int].cap is Classifier,
        }
    }

    /// Well-formedness: a root at `0` that passes values on, and every other node
    /// attached after its parent.
    pub open spec fn wf(&self) -> bool {
        &&& 0 < self.len() < usize::MAX
        &&& self.nodes()[0].link is Root
        &&& self.nodes()[0].cap is Pass
        &&& forall|i: int| 0 <= i < self.len() ==> #[trigger] self.link_ok(i)
    }

    /// The value that node `n` forwards to its ordinary children when it receives `v`.
    pub open spec fn forwards(&self, n: int, v: V) -> Option<V> {
        match self.nodes()[n].cap {
            Capability::Pass => Some(v),
            Capability::Observer => Some(v),
            Capability::Transform(t) => t.maps(v),
            Capability::Filter(p) => if p.keeps(v) { Some(v) } else { None },
            Capability::Classifier(_) => None,
        }
    }

    /// The value that node `k` receives directly from node `n` when `n` receives `v`.
    pub open spec fn receives(&self, n: int, k: int, v: V) -> Option<V> {
        match self.nodes()[k].link {
            Link::Root => None,
            Link::Child(p) => if p == n { self.forwards(n, v) } else { None },
            Link::Branch(p, l) => match self.nodes()[n].cap {
                Capability::Classifier(c) => if p == n && c.labels(v).contains(l) {
                    Some(v)
                } else {
                    None
                },
                _ => None,
            },
        }
    }

    /// The observations, in order, that follow from node `n` receiving `v`: one
    /// `(handle, value)` pair for each observer node that the value reaches.
    pub open spec fn observed(&self, n: int, v: V) -> Seq<(usize, V)>
        decreases self.len() - n, self.len() - n,
    {
        if 0 <= n < self.len() {
            let own = if self.nodes()[n].cap is Observer {
                seq![(n as usize, v)]
            } else {
                Seq::empty()
            };
            own + self.observed_from(n, n + 1, v)
        } else {
            Seq::empty()
        }
    }

    /// The observations that follow, in handle order, from what the nodes with
    /// handles `k` and above receive directly from `n` when `n` receives `v`.
    pub open spec fn observed_from(&self, n: int, k: int, v: V) -> Seq<(usize, V)>
        decreases self.len() - n, self.len() - k,
    {
        if 0 <= n < k < self.len() {
            let here = match self.receives(n, k, v) {
                Some(w) => self.observed(k, w),
                None => Seq::empty(),
            };
            here + self.observed_from(n, k + 1, v)
        } else {
            Seq::empty()
        }
    }

    /// Appends a node with the given link and capability; returns its handle.
    fn attach(&mut self, link: Link, cap: Capability<T, P, C>) -> (id: usize)
        requires
            old(self).len() + 1 < usize::MAX,
        ensures
            id == old(self).len(),
            final(self).nodes() == old(self).nodes().push(Node { link, cap }),
    {
        let id = self.nodes.len();
        self.nodes.push(Node { link, cap });
        id
    }

    /// Attaches to node `at` a child that maps each value it receives through
    /// `transform`, forwarding the result or stopping on `None`. Returns the new
    /// child's handle, which is larger than every existing handle.
    pub fn next(&mut self, at: usize, transform: T) -> (id: usize)
        requires
            old(self).wf(),
            at < old(self).len(),
            old(self).len() + 1 < usize::MAX,
        ensures
            final(self).wf(),
            id == old(self).len(),
            final(self).nodes() == old(self).nodes().push(
                Node { link: Link::Child(at), cap: Capability::Transform(transform) },
            ),
    {
        let id = self.attach(Link::Child(at), Capability::Transform(transform));
        proof {
            assert(self.nodes()[id as int] == self.nodes().last());
            self.lemma_push_wf(*old(self));
        }
        id
    }

    /// Attaches to node `at` a child that forwards a value unchanged when
    /// `predicate` holds of it, and stops it otherwise.
    pub fn filter(&mut self, at: usize, predicate: P) -> (id: usize)
        requires
            old(self).wf(),
            at < old(self).len(),
            old(self).len() + 1 < usize::MAX,
        ensures
            final(self).wf(),
            id == old(self).len(),
            final(self).nodes() == old(self).nodes().push(
                Node { link: Link::Child(at), cap: Capability::Filter(predicate) },
            ),
    {
        let id = self.attach(Link::Child(at), Capability::Filter(predicate));
        proof {
            assert(self.nodes()[id as int] == self.nodes().last());
            self.lemma_push_wf(*old(self));
        }
        id
    }

    /// Attaches to node `at` an observer: a child that records each value it
    /// receives and forwards it unchanged.
    pub fn peep(&mut self, at: usize) -> (id: usize)
        requires
            old(self).wf(),
            at < old(self).len(),
            old(self).len() + 1 < usize::MAX,
        ensures
            final(self).wf(),
            id == old(self).len(),
            final(self).nodes() == old(self).nodes().push(
                Node { link: Link::Child(at), cap: Capability::Observer },
            ),
    {
        let id = self.attach(Link::Child(at), Capability::Observer);
        proof {
            assert(self.nodes()[id as int] == self.nodes().last());
            self.lemma_push_wf(*old(self));
        }
        id
    }

    /// Sends `v` into the root and runs the whole tree on it. Returns one
    /// `(handle, value)` pair per observer that a value reached, in dispatch order.
    pub fn send(&self, v: &V) -> (r: Vec<(usize, V)>)
        requires
            self.wf(),
        ensures
            r@ == self.observed(0, *v),
    {
        let mut out: Vec<(usize, V)> = Vec::new();
        self.dispatch(0, v, &mut out);
        proof { assert(out@ =~= self.observed(0, *v)); }
        out
    }

    /// The observations from sending each of `vs` into the root, one after another.
    pub open spec fn observed_all(&self, vs: Seq<V>) -> Seq<(usize, V)>
        decreases vs.len(),
    {
        if vs.len() == 0 {
            Seq::empty()
        } else {
            self.observed_all(vs.drop_last()) + self.observed(0, vs.last())
        }
    }

    /// Runs node `n` on `v` and everything downstream of it, appending to `out`
    /// one `(handle, value)` pair per observer reached, in dispatch order. The
    /// nodes that receive something from `n` run one after another, by handle.
    fn dispatch(&self, n: usize, v: &V, out: &mut Vec<(usize, V)>)
        requires
            self.wf(),
            n < self.len(),
        ensures
            final(out)@ == old(out)@ + self.observed(n as int, *v),
        decreases self.len() - n, self.len() - n,
    {
        let ghost start = out@;
        let node = &self.nodes[n];
        let mut labels: Vec<Label> = Vec::new();
        let fwd: Option<V> = match &node.cap {
            Capability::Pass => Some(*v),
            Capability::Observer => {
                out.push((n, *v));
                Some(*v)
            },
            Capability::Transform(t) => {
                t.map(v)
            },
            Capability::Filter(p) => {
                if p.keep(v) { Some(*v) } else { None }
            },
            Capability::Classifier(c) => {
                labels = c.classify(v);
                None
            },
        };
        let ghost mid = out@;
        let mut k: usize = n + 1;
        while k < self.nodes.len()
            invariant
                self.wf(),
                n < k <= self.len(),
                fwd == self.forwards(n as int, *v),
                self.nodes()[n as int].cap is Classifier ==> labels@ == self.nodes()[
                    n as int].cap->Classifier_0.labels(*v),
                out@ + self.observed_from(n as int, k as int, *v) == mid + self.observed_from(
                    n as int,
                    n + 1,
                    *v,
                ),
            decreases self.len() - k,
        {
            proof { assert(self.link_ok(k as int)); }
            let got: Option<V> = match &self.nodes[k].link {
                Link::Root => None,
                Link::Child(p) => if *p == n { fwd } else { None },
                Link::Branch(p, l) => if *p == n && has_label(&labels, *l) { Some(*v) } else { None },
            };
            let ghost before = out@;
            match got {
                Some(w) => self.dispatch(k, &w, out),
                None => {},
            }
            proof {
                assert(got == self.receives(n as int, k as int, *v));
                let here = out@.subrange(before.len() as int, out@.len() as int);
                assert(out@ == before + here);
                assert(self.observed_from(n as int, k as int, *v) == here + self.observed_from(
                    n as int,
                    k + 1,
                    *v,
                ));
                assert(out@ + self.observed_from(n as int, k + 1, *v) =~= before
                    + self.observed_from(n as int, k as int, *v));
            }
            k = k + 1;
        }
        proof {
            assert(self.observed_from(n as int, k as int, *v) == Seq::<(usize, V)>::empty());
            assert(out@ =~= out@ + self.observed_from(n as int, k as int, *v));
            assert(mid == start + (if self.nodes()[n as int].cap is Observer {
                seq![(n, *v)]
            } else {
                Seq::empty()
            }));
        }
    }

    /// Appending one well-linked node with a well-behaved capability keeps the
    /// flow well-formed.
    proof fn lemma_push_wf(&self, prev: Self)
        requires
            prev.wf(),
            self.len() == prev.len() + 1,
            self.len() < usize::MAX,
            forall|i: int| 0 <= i < prev.len() ==> self.nodes()[i] == prev.nodes()[i],
            self.link_ok(prev.len() as int),
        ensures
            self.wf(),
    {
        assert forall|i: int| 0 <= i < self.len() implies #[trigger] self.link_ok(i) by {
            if i < prev.len() {
                assert(self.nodes()[i] == prev.nodes()[i]);
                assert(prev.link_ok(i));
                match self.nodes()[i].link {
                    Link::Branch(p, _) => {
                        assert(self.nodes()[p as int] == prev.nodes()[p as int]);
                    },
                    _ => {},
                }
            }
        }
        assert(self.nodes()[0] == prev.nodes()[0]);
    }
}

/// A new flow: a lone root that passes every value on unchanged. Sent any
/// value, it observes nothing.
pub fn new_flow<V: Copy, T: Transform<V>, P: Predicate<V>, C: Classify<V>>() -> (f: Flow<V, T, P, C>)
    ensures
        f.wf(),
        f.nodes() == seq![Node::<T, P, C> { link: Link::Root, cap: Capability::Pass }],
        forall|v: V| #[trigger] f.observed(0, v) == Seq::<(usize, V)>::empty(),
{
    let mut nodes: Vec<Node<T, P, C>> = Vec::new();
    nodes.push(Node { link: Link::Root, cap: Capability::Pass });
    let f = Flow { nodes, marker: std::marker::PhantomData };
    assert(f.nodes() =~= seq![Node::<T, P, C> { link: Link::Root, cap: Capability::Pass }]);
    assert(f.link_ok(0));
    proof {
        assert forall|v: V| #[trigger] f.observed(0, v) == Seq::<(usize, V)>::empty() by {
            f.lemma_lone_root(v);
        }
    }
    f
}

/// Attaches to node `at` of `flow` a classifier: a child that gives each value it
/// receives the labels that `classify` returns, and sends it on to one private
/// sub-pipeline per label in `labels`, in the order of `labels`. Each sub-pipeline
/// starts as a node that passes values on. Returns the handles of those
/// sub-pipelines, one per entry of `labels`, in the same order.
///
/// A label that `classify` gives but `labels` does not hold is ignored. Each
/// sub-pipeline whose label is given receives the value once, however many times
/// the label is given, and the sub-pipelines run in the order of `labels`. A label
/// that `labels` holds more than once names that many sub-pipelines, and a value
/// given that label goes to every one of them.
pub fn segregate<V: Copy, T: Transform<V>, P: Predicate<V>, C: Classify<V>>(
    flow: &mut Flow<V, T, P, C>,
    at: usize,
    classify: C,
    labels: Vec<Label>,
) -> (r: Vec<usize>)
    requires
        old(flow).wf(),
        at < old(flow).len(),
        old(flow).len() + labels@.len() + 2 < usize::MAX,
    ensures
        final(flow).wf(),
        final(flow).len() == old(flow).len() + 1 + labels@.len(),
        forall|i: int| 0 <= i < old(flow).len() ==> final(flow).nodes()[i] == old(flow).nodes()[i],
        final(flow).nodes()[old(flow).len() as int] == (Node {
            link: Link::Child(at),
            cap: Capability::<T, P, C>::Classifier(classify),
        }),
        r@.len() == labels@.len(),
        forall|i: int| 0 <= i < labels@.len() ==> #[trigger] r@[i] == old(flow).len() + 1 + i,
        forall|i: int| 0 <= i < labels@.len() ==> #[trigger] final(flow).nodes()[old(flow).len() + 1 + i] == (Node::<T, P, C> {
            link: Link::Branch(old(flow).len() as usize, labels@[i]),
            cap: Capability::Pass,
        }),
{
    let ghost prev = *flow;
    let cls = flow.attach(Link::Child(at), Capability::Classifier(classify));
    proof {
        assert(flow.nodes()[cls as int] == flow.nodes().last());
        flow.lemma_push_wf(prev);
    }
    let mut r: Vec<usize> = Vec::new();
    let mut i: usize = 0;
    while i < labels.len()
        invariant
            flow.wf(),
            i <= labels@.len(),
            cls == prev.len(),
            prev.len() + labels@.len() + 2 < usize::MAX,
            flow.len() == prev.len() + 1 + i,
            forall|j: int| 0 <= j < prev.len() ==> flow.nodes()[j] == prev.nodes()[j],
            flow.nodes()[cls as int] == (Node {
                link: Link::Child(at),
                cap: Capability::<T, P, C>::Classifier(classify),
            }),
            r@.len() == i,
            forall|j: int| 0 <= j < i ==> #[trigger] r@[j] == prev.len() + 1 + j,
            forall|j: int| 0 <= j < i ==> #[trigger] flow.nodes()[prev.len() + 1 + j] == (Node::<T, P, C> {
                link: Link::Branch(cls, labels@[j]),
                cap: Capability::Pass,
            }),
        decreases labels@.len() - i,
    {
        let ghost before = *flow;
        let id = flow.attach(Link::Branch(cls, labels[i]), Capability::Pass);
        proof {
            assert(flow.nodes()[id as int] == flow.nodes().last());
            assert(flow.nodes()[cls as int] == before.nodes()[cls as int]);
            flow.lemma_push_wf(before);
        }
        r.push(id);
        i = i + 1;
        proof {
            assert forall|j: int| 0 <= j < i implies #[trigger] flow.nodes()[prev.len() + 1 + j] == (Node::<T, P, C> {
                link: Link::Branch(cls, labels@[j]),
                cap: Capability::Pass,
            }) by {
                if j < i - 1 {
                    assert(flow.nodes()[prev.len() + 1 + j] == before.nodes()[prev.len() + 1 + j]);
                }
            }
        }
    }
    r
}
/// Sends each of `values` into the root of `flow`, in order. Returns the
/// observations of all those sends, in the order they were made.
pub fn send_many<V: Copy, T: Transform<V>, P: Predicate<V>, C: Classify<V>>(
    flow: &Flow<V, T, P, C>,
    values: &Vec<V>,
) -> (r: Vec<(usize, V)>)
    requires
        flow.wf(),
    ensures
        r@ == flow.observed_all(values@),
{
    let mut out: Vec<(usize, V)> = Vec::new();
    let mut i: usize = 0;
    while i < values.len()
        invariant
            flow.wf(),
            i <= values@.len(),
            out@ == flow.observed_all(values@.subrange(0, i as int)),
        decreases values@.len() - i,
    {
        flow.dispatch(0, &values[i], &mut out);
        i = i + 1;
        proof {
            let pre = values@.subrange(0, i as int);
            assert(pre.drop_last() =~= values@.subrange(0, i - 1));
        }
    }
    proof { assert(values@.subrange(0, i as int) =~= values@); }
    out
}

impl<V: Copy, T: Transform<V>, P: Predicate<V>, C: Classify<V>> Flow<V, T, P, C> {
    /// When nothing at or above handle `k` receives anything from `n`, nothing
    /// is observed from there on.
    pub proof fn lemma_silent_from(&self, n: int, k: int, v: V)
        requires
            forall|j: int| k <= j < self.len() ==> #[trigger] self.receives(n, j, v) is None,
        ensures
            self.observed_from(n, k, v) == Seq::<(usize, V)>::empty(),
        decreases self.len() - k,
    {
        if 0 <= n < k < self.len() {
            self.lemma_silent_from(n, k + 1, v);
            assert(self.observed_from(n, k, v) =~= Seq::<(usize, V)>::empty());
        }
    }

    /// The observations from the nodes at and above handle `k` start with those
    /// of the nodes between `k` and `m`, followed by those from `m` on.
    proof fn lemma_from_split(&self, n: int, k: int, m: int, v: V)
        requires
            0 <= n < k <= m <= self.len(),
        ensures
            exists|a: Seq<(usize, V)>| self.observed_from(n, k, v) == a + self.observed_from(n, m, v),
        decreases m - k,
    {
        if k == m {
            assert(self.observed_from(n, k, v) == Seq::<(usize, V)>::empty() + self.observed_from(n, m, v));
        } else {
            self.lemma_from_split(n, k + 1, m, v);
            let a = choose|a: Seq<(usize, V)>| self.observed_from(n, k + 1, v) == a + self.observed_from(n, m, v);
            let here = match self.receives(n, k, v) {
                Some(w) => self.observed(k, w),
                None => Seq::empty(),
            };
            assert(self.observed_from(n, k, v) == (here + a) + self.observed_from(n, m, v));
        }
    }

    /// Children run in attachment order: when nodes `c1 < c2` both receive a value
    /// directly from `n`, everything observed downstream of `c1` comes before
    /// everything observed downstream of `c2`. For a classifier `n` these are its
    /// sub-pipelines, whose handles `segregate` gives in the order of the labels.
    pub proof fn lemma_attachment_order(&self, n: int, c1: int, c2: int, v: V, w1: V, w2: V)
        requires
            self.wf(),
            0 <= n < c1 < c2 < self.len(),
            self.receives(n, c1, v) == Some(w1),
            self.receives(n, c2, v) == Some(w2),
        ensures
            exists|a: Seq<(usize, V)>, b: Seq<(usize, V)>, c: Seq<(usize, V)>|
                self.observed(n, v) == a + self.observed(c1, w1) + b + self.observed(c2, w2) + c,
    {
        self.lemma_from_split(n, n + 1, c1, v);
        let a0 = choose|a: Seq<(usize, V)>| self.observed_from(n, n + 1, v) == a + self.observed_from(n, c1, v);
        self.lemma_from_split(n, c1 + 1, c2, v);
        let b = choose|a: Seq<(usize, V)>| self.observed_from(n, c1 + 1, v) == a + self.observed_from(n, c2, v);
        let own = if self.nodes()[n].cap is Observer {
            seq![(n as usize, v)]
        } else {
            Seq::empty()
        };
        let x1 = self.observed(c1, w1);
        let x2 = self.observed(c2, w2);
        let c = self.observed_from(n, c2 + 1, v);
        assert(self.observed(n, v) == own + self.observed_from(n, n + 1, v));
        assert(self.observed_from(n, c1, v) == x1 + self.observed_from(n, c1 + 1, v));
        assert(self.observed_from(n, c2, v) == x2 + c);
        let a = own + a0;
        assert(self.observed(n, v) =~= a + x1 + b + x2 + c);
    }

    /// A filter node forwards a value to its children exactly when the predicate
    /// holds of it; otherwise nothing downstream of it observes the value.
    pub proof fn lemma_filter(&self, n: int, v: V)
        requires
            self.wf(),
            0 <= n < self.len(),
            self.nodes()[n].cap is Filter,
        ensures
            forall|k: int| #![trigger self.receives(n, k, v)]
                0 <= k < self.len() && self.nodes()[k].link == Link::Child(n as usize)
                    ==> self.receives(n, k, v) == if self.nodes()[n].cap->Filter_0.keeps(v) {
                        Some(v)
                    } else {
                        None
                    },
            !self.nodes()[n].cap->Filter_0.keeps(v) ==> self.observed(n, v)
                == Seq::<(usize, V)>::empty(),
    {
        if !self.nodes()[n].cap->Filter_0.keeps(v) {
            self.lemma_silent_from(n, n + 1, v);
            assert(self.observed(n, v) =~= Seq::<(usize, V)>::empty());
        }
    }

    /// A transform node hands its children what the mapping returns; when the
    /// mapping returns `None`, nothing downstream of it observes the value.
    pub proof fn lemma_transform(&self, n: int, v: V)
        requires
            self.wf(),
            0 <= n < self.len(),
            self.nodes()[n].cap is Transform,
        ensures
            forall|k: int| #![trigger self.receives(n, k, v)]
                0 <= k < self.len() && self.nodes()[k].link == Link::Child(n as usize)
                    ==> self.receives(n, k, v) == self.nodes()[n].cap->Transform_0.maps(v),
            self.nodes()[n].cap->Transform_0.maps(v) is None ==> self.observed(n, v)
                == Seq::<(usize, V)>::empty(),
    {
        if self.nodes()[n].cap->Transform_0.maps(v) is None {
            self.lemma_silent_from(n, n + 1, v);
            assert(self.observed(n, v) =~= Seq::<(usize, V)>::empty());
        }
    }

    /// An observer records each value that reaches it exactly once, unmodified,
    /// ahead of everything downstream, and hands its children the same value
    /// that a pass-through node would.
    pub proof fn lemma_observer(&self, n: int, v: V)
        requires
            self.wf(),
            0 <= n < self.len(),
            self.nodes()[n].cap is Observer,
        ensures
            self.observed(n, v) == seq![(n as usize, v)] + self.observed_from(n, n + 1, v),
            forall|k: int| #![trigger self.receives(n, k, v)]
                0 <= k < self.len() && self.nodes()[k].link == Link::Child(n as usize)
                    ==> self.receives(n, k, v) == Some(v),
    {
    }

    /// A classifier sends a value to each of its sub-pipelines whose label it is
    /// given, unchanged, to no other sub-pipeline, and never to its ordinary
    /// children.
    pub proof fn lemma_classifier(&self, n: int, v: V)
        requires
            self.wf(),
            0 <= n < self.len(),
            self.nodes()[n].cap is Classifier,
        ensures
            self.observed(n, v) == self.observed_from(n, n + 1, v),
            forall|k: int| #![trigger self.receives(n, k, v)]
                0 <= k < self.len() ==> match self.nodes()[k].link {
                    Link::Branch(p, l) => p == n ==> self.receives(n, k, v) == if self.nodes()[n].cap->Classifier_0.labels(
                        v,
                    ).contains(l) {
                        Some(v)
                    } else {
                        None
                    },
                    Link::Child(p) => self.receives(n, k, v) is None,
                    Link::Root => self.receives(n, k, v) is None,
                },
    {
        assert(self.observed(n, v) =~= self.observed_from(n, n + 1, v));
    }

    /// A flow that is only its root observes nothing, whatever it is sent.
    pub proof fn lemma_lone_root(&self, v: V)
        requires
            self.wf(),
            self.len() == 1,
        ensures
            self.observed(0, v) == Seq::<(usize, V)>::empty(),
    {
        assert(self.observed(0, v) =~= Seq::<(usize, V)>::empty());
    }

    /// Sending values in bulk observes the same as sending them one at a time:
    /// the observations of `a` followed by `b` are those of `a`, then those of `b`.
    pub proof fn lemma_bulk_is_sequential(&self, a: Seq<V>, b: Seq<V>)
        ensures
            self.observed_all(a + b) == self.observed_all(a) + self.observed_all(b),
        decreases b.len(),
    {
        if b.len() == 0 {
            assert(a + b =~= a);
            assert(self.observed_all(a) + self.observed_all(b) =~= self.observed_all(a));
        } else {
            self.lemma_bulk_is_sequential(a, b.drop_last());
            assert((a + b).drop_last() =~= a + b.drop_last());
            assert((a + b).last() == b.last());
        }
    }

    /// Sending a single value in bulk observes what sending it alone observes.
    pub proof fn lemma_bulk_single(&self, x: V)
        ensures
            self.observed_all(seq![x]) == self.observed(0, x),
    {
        assert(seq![x].drop_last() =~= Seq::<V>::empty());
        assert(seq![x].last() == x);
        assert(self.observed_all(Seq::<V>::empty()) == Seq::<(usize, V)>::empty());
        assert(Seq::<(usize, V)>::empty() + self.observed(0, x) =~= self.observed(0, x));
    }
}

/// `obs` without the records of the observer with handle `n`.
pub open spec fn without<V>(obs: Seq<(usize, V)>, n: usize) -> Seq<(usize, V)> {
    obs.filter(not_from::<V>(n))
}

/// Whether a record is not one of the observer with handle `n`.
pub open spec fn not_from<V>(n: usize) -> spec_fn((usize, V)) -> bool {
    |o: (usize, V)| o.0 != n
}

impl<V: Copy, T: Transform<V>, P: Predicate<V>, C: Classify<V>> Flow<V, T, P, C> {
    /// `b` is `a` with its observer `n` replaced by a node that passes values on.
    pub open spec fn untapped(a: Self, b: Self, n: int) -> bool {
        &&& a.len() == b.len()
        &&& 0 <= n < a.len()
        &&& a.nodes()[n].cap is Observer
        &&& b.nodes()[n].cap is Pass
        &&& b.nodes()[n].link == a.nodes()[n].link
        &&& forall|i: int| 0 <= i < a.len() && i != n ==> #[trigger] b.nodes()[i] == a.nodes()[i]
    }

    /// An observer does not interfere: a flow observes, apart from the records of
    /// its observer `n`, exactly what the same flow observes with `n` passing
    /// values on instead, from any node and for any value.
    pub proof fn lemma_observer_non_interference(a: Self, b: Self, n: int, m: int, v: V)
        requires
            a.wf(),
            Self::untapped(a, b, n),
        ensures
            b.observed(m, v) == without(a.observed(m, v), n as usize),
        decreases a.len() - m, a.len() - m,
    {
        if 0 <= m < a.len() {
            Self::lemma_observer_non_interference_from(a, b, n, m, m + 1, v);
            let own_a = if a.nodes()[m].cap is Observer {
                seq![(m as usize, v)]
            } else {
                Seq::empty()
            };
            let own_b = if b.nodes()[m].cap is Observer {
                seq![(m as usize, v)]
            } else {
                Seq::empty()
            };
            let pred = not_from::<V>(n as usize);
            Seq::filter_distributes_over_add(own_a, a.observed_from(m, m + 1, v), pred);
            if m == n {
                assert(own_a.filter(pred) =~= Seq::<(usize, V)>::empty()) by {
                    assert(own_a.len() == 1);
                    assert(own_a.drop_last() =~= Seq::<(usize, V)>::empty());
                    assert(Seq::<(usize, V)>::empty().filter(pred) =~= Seq::<(usize, V)>::empty());
                    assert(!pred(own_a.last()));
                    reveal_with_fuel(Seq::filter, 2);
                }
            } else {
                assert(b.nodes()[m] == a.nodes()[m]);
                assert(own_a.filter(pred) =~= own_b) by {
                    assert(Seq::<(usize, V)>::empty().filter(pred) =~= Seq::<(usize, V)>::empty());
                    if own_a.len() > 0 {
                        assert(own_a.drop_last() =~= Seq::<(usize, V)>::empty());
                        assert(m as usize != n as usize);
                        assert(pred(own_a.last()));
                        reveal_with_fuel(Seq::filter, 2);
                    }
                }
            }
            assert(b.observed(m, v) =~= own_b + b.observed_from(m, m + 1, v));
            assert(a.observed(m, v) =~= own_a + a.observed_from(m, m + 1, v));
        } else {
            assert(Seq::<(usize, V)>::empty().filter(not_from::<V>(n as usize))
                =~= Seq::<(usize, V)>::empty());
        }
    }

    proof fn lemma_observer_non_interference_from(a: Self, b: Self, n: int, m: int, k: int, v: V)
        requires
            a.wf(),
            Self::untapped(a, b, n),
            0 <= m < a.len(),
        ensures
            b.observed_from(m, k, v) == without(a.observed_from(m, k, v), n as usize),
        decreases a.len() - m, a.len() - k,
    {
        let pred = not_from::<V>(n as usize);
        if m < k < a.len() {
            Self::lemma_observer_non_interference_from(a, b, n, m, k + 1, v);
            assert(b.nodes()[k].link == a.nodes()[k].link);
            assert(b.receives(m, k, v) == a.receives(m, k, v)) by {
                if m != n {
                    assert(b.nodes()[m] == a.nodes()[m]);
                }
            }
            let here_a = match a.receives(m, k, v) {
                Some(w) => a.observed(k, w),
                None => Seq::empty(),
            };
            let here_b = match b.receives(m, k, v) {
                Some(w) => b.observed(k, w),
                None => Seq::empty(),
            };
            match a.receives(m, k, v) {
                Some(w) => {
                    Self::lemma_observer_non_interference(a, b, n, k, w);
                },
                None => {
                    assert(Seq::<(usize, V)>::empty().filter(pred) =~= Seq::<(usize, V)>::empty());
                },
            }
            Seq::filter_distributes_over_add(here_a, a.observed_from(m, k + 1, v), pred);
            assert(b.observed_from(m, k, v) =~= here_b + b.observed_from(m, k + 1, v));
        } else {
            assert(Seq::<(usize, V)>::empty().filter(pred) =~= Seq::<(usize, V)>::empty());
        }
    }
}

/// Whether `l` occurs in `labels`.
fn has_label(labels: &Vec<Label>, l: Label) -> (r: bool)
    ensures
        r == labels@.contains(l),
{
    let mut i: usize = 0;
    while i < labels.len()
        invariant
            i <= labels@.len(),
            forall|j: int| 0 <= j < i ==> labels@[j] != l,
        decreases labels@.len() - i,
    {
        if labels[i] == l {
            return true;
        }
        i = i + 1;
    }
    false
}
} // verus!
