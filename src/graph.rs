use vstd::prelude::*;

verus! {

/// Names one output of one node: the producer side of an edge.
#[derive(Debug, Copy, Clone, PartialEq, Eq, Structural)]
pub struct OutputRef {
    pub node: usize,
    pub output: usize,
}

/// The kind of signal an input or output carries.
#[derive(Debug, Copy, Clone, PartialEq, Eq, Structural)]
pub enum BusKind {
    Audio,
    Midi,
    Control,
}

/// The wiring of one node: for each declared input, the outputs that feed
/// it (fan-in), and the kinds of its inputs and outputs.
pub struct NodeLinks {
    pub inputs: Vec<Vec<OutputRef>>,
    pub input_kinds: Vec<BusKind>,
    pub output_kinds: Vec<BusKind>,
}

/// The node graph: slot `id` holds the wiring of node `id`, or nothing once
/// that id is free.
pub struct Graph {
    pub slots: Vec<Option<NodeLinks>>,
}

/// Why an edge was refused.
#[derive(Debug, Copy, Clone, PartialEq, Eq, Structural)]
pub enum ConnectError {
    /// The consuming or the producing node does not exist.
    MissingNode,
    /// The consumer has no input of that index.
    MissingInput,
    /// The producer has no output of that index.
    MissingOutput,
    /// The output's bus kind differs from the input's.
    KindMismatch,
    /// The producer already depends on the consumer.
    Cycle,
}

impl Graph {
    pub open spec fn has(&self, id: int) -> bool {
        0 <= id < self.slots@.len() && self.slots@[id].is_some()
    }

    pub open spec fn links(&self, id: int) -> NodeLinks {
        self.slots@[id].unwrap()
    }

    /// The sources feeding each input of node `id`.
    pub open spec fn inputs_of(&self, id: int) -> Seq<Seq<OutputRef>> {
        self.links(id).inputs@.map_values(|v: Vec<OutputRef>| v@)
    }

    pub open spec fn valid_source(&self, id: int, i: int, k: int) -> bool {
        0 <= i < self.links(id).inputs@.len() && 0 <= k < self.links(id).inputs@[i]@.len()
    }

    /// Source `k` of input `i` of node `id`.
    pub open spec fn source(&self, id: int, i: int, k: int) -> OutputRef {
        self.links(id).inputs@[i]@[k]
    }

    /// Node `a` feeds some input of node `b`.
    pub open spec fn feeds(&self, a: int, b: int) -> bool {
        self.has(b) && exists|i: int, k: int|
            #![trigger self.source(b, i, k)]
            self.valid_source(b, i, k) && self.source(b, i, k).node == a
    }

    /// A walk from `p[0]` towards the sources: each node feeds the one before.
    pub open spec fn is_upstream_path(&self, p: Seq<int>) -> bool {
        p.len() >= 1 && forall|j: int| 0 <= j < p.len() - 1 ==> self.feeds(#[trigger] p[j + 1], p[j])
    }

    /// Node `b` is `a` itself or lies upstream of `a`: `a`'s output depends on `b`'s.
    pub open spec fn reaches(&self, a: int, b: int) -> bool {
        exists|p: Seq<int>| #[trigger] self.is_upstream_path(p) && p[0] == a && p.last() == b
    }

    /// Every input has a kind, and every edge starts at an existing output of
    /// the same kind as the input it ends at.
    pub open spec fn wf(&self) -> bool {
        &&& forall|id: int|
            #[trigger] self.has(id) ==> self.links(id).inputs@.len()
                == self.links(id).input_kinds@.len()
        &&& forall|id: int, i: int, k: int|
            #![trigger self.source(id, i, k)]
            self.has(id) && self.valid_source(id, i, k) ==> {
                let r = self.source(id, i, k);
                &&& self.has(r.node as int)
                &&& r.output < self.links(r.node as int).output_kinds@.len()
                &&& self.links(r.node as int).output_kinds@[r.output as int]
                    == self.links(id).input_kinds@[i]
            }
    }

    /// An empty graph.
    pub fn new() -> (r: Graph)
        ensures
            r.wf(),
            r.slots@.len() == 0,
    {
        Graph { slots: Vec::new() }
    }

    pub fn has_node(&self, id: usize) -> (r: bool)
        ensures
            r == self.has(id as int),
    {
        id < self.slots.len() && self.slots[id].is_some()
    }

    /// Number of nodes present.
    pub fn get_node_count(&self) -> (r: usize)
        ensures
            r == count_present(self.slots@),
    {
        let mut count: usize = 0;
        let mut id: usize = 0;
        while id < self.slots.len()
            invariant
                id <= self.slots@.len(),
                count == count_present(self.slots@.subrange(0, id as int)),
                count <= id,
            decreases self.slots@.len() - id,
        {
            proof {
                assert(self.slots@.subrange(0, id as int + 1).drop_last() =~= self.slots@.subrange(
                    0,
                    id as int,
                ));
            }
            if self.slots[id].is_some() {
                count += 1;
            }
            id += 1;
        }
        proof {
            assert(self.slots@.subrange(0, id as int) =~= self.slots@);
        }
        count
    }
}

impl Graph {
    /// Every marked node's sources are marked.
    pub open spec fn closed_under_sources(&self, marked: Seq<bool>) -> bool {
        forall|v: int, i: int, k: int|
            #![trigger marked[v], self.source(v, i, k)]
            0 <= v < marked.len() && marked[v] && self.has(v) && self.valid_source(v, i, k)
                ==> marked[self.source(v, i, k).node as int]
    }

    /// Extending an upstream path by a source of its last node.
    proof fn lemma_path_push(&self, p: Seq<int>, s: int)
        requires
            self.is_upstream_path(p),
            self.feeds(s, p.last()),
        ensures
            self.is_upstream_path(p.push(s)),
    {
        let q = p.push(s);
        assert forall|j: int| 0 <= j < q.len() - 1 implies self.feeds(#[trigger] q[j + 1], q[j]) by {
            if j < p.len() - 1 {
                assert(q[j + 1] == p[j + 1] && q[j] == p[j]);
            }
        }
    }

    /// A set of marks closed under sources holds every node of an upstream
    /// path that starts at a marked node.
    proof fn lemma_closed_holds_path(&self, marked: Seq<bool>, p: Seq<int>)
        requires
            self.wf(),
            marked.len() == self.slots@.len(),
            self.closed_under_sources(marked),
            self.is_upstream_path(p),
            0 <= p[0] < marked.len(),
            marked[p[0]],
        ensures
            0 <= p.last() < marked.len() && marked[p.last()],
        decreases p.len(),
    {
        if p.len() > 1 {
            let q = p.drop_last();
            assert(self.is_upstream_path(q)) by {
                assert forall|j: int| 0 <= j < q.len() - 1 implies self.feeds(#[trigger] q[j + 1], q[j]) by {
                    assert(q[j + 1] == p[j + 1] && q[j] == p[j]);
                }
            }
            self.lemma_closed_holds_path(marked, q);
            let b = q.last();
            let j = p.len() - 2;
            assert(p[j] == b);
            assert(self.feeds(p[j + 1], p[j]));
            let (i, k) = choose|i: int, k: int|
                #![trigger self.source(b, i, k)]
                self.valid_source(b, i, k) && self.source(b, i, k).node == p.last();
            assert(marked[self.source(b, i, k).node as int]);
        }
    }

    /// Marks exactly the nodes that `root` reaches: itself and everything upstream.
    pub fn upstream_marks(&self, root: usize) -> (marked: Vec<bool>)
        requires
            self.wf(),
            self.has(root as int),
        ensures
            marked@.len() == self.slots@.len(),
            forall|v: int| 0 <= v < marked@.len() ==> (#[trigger] marked@[v] <==> self.reaches(root as int, v)),
    {
        let n = self.slots.len();
        let mut marked: Vec<bool> = Vec::new();
        let mut j: usize = 0;
        while j < n
            invariant
                n == self.slots@.len(),
                j <= n,
                marked@.len() == j,
                forall|v: int| 0 <= v < j ==> !(#[trigger] marked@[v]),
            decreases n - j,
        {
            marked.push(false);
            j += 1;
        }
        marked.set(root, true);
        let mut worklist: Vec<usize> = Vec::new();
        worklist.push(root);
        let mut count: usize = 1;
        let ghost mut seen: Set<int> = set![root as int];
        proof {
            let p = seq![root as int];
            assert(self.is_upstream_path(p));
            assert(p.last() == root as int);
            assert(worklist@[0] == root);
            assert(worklist@.contains(root));
            assert forall|v: int| 0 <= v < n implies (#[trigger] marked@[v] <==> seen.contains(v)) by {
                if v != root as int {
                    assert(marked@[v] == false);
                }
            }
        }
        while worklist.len() > 0
            invariant
                self.wf(),
                n == self.slots@.len(),
                marked@.len() == n,
                forall|v: int| 0 <= v < n ==> (#[trigger] marked@[v] <==> seen.contains(v)),
                seen.finite(),
                seen.subset_of(Set::new(|v: int| 0 <= v < n)),
                count == seen.len(),
                count <= n,
                forall|x: int| 0 <= x < n && #[trigger] marked@[x] ==> self.has(x),
                root < n,
                marked@[root as int],
                worklist@.no_duplicates(),
                forall|w: int| 0 <= w < worklist@.len() ==> #[trigger] worklist@[w] < n && marked@[worklist@[w] as int],
                forall|v: int| 0 <= v < n && #[trigger] marked@[v] ==> self.reaches(root as int, v),
                forall|v: int, i: int, k: int|
                    #![trigger marked@[v], self.source(v, i, k)]
                    0 <= v < n && marked@[v] && !worklist@.contains(v as usize) && self.has(v)
                        && self.valid_source(v, i, k) ==> marked@[self.source(v, i, k).node as int],
            decreases n - count, worklist@.len(),
        {
            let ghost wl_before = worklist@;
            let v = worklist.pop().unwrap();
            let ghost wl0 = worklist@;
            let ghost c0 = count;
            proof {
                assert(wl_before =~= wl0.push(v));
                assert forall|x: usize| !wl0.contains(x) && x != v implies !wl_before.contains(x) by {
                    if wl_before.contains(x) {
                        let w = choose|w: int| 0 <= w < wl_before.len() && wl_before[w] == x;
                        if w < wl0.len() {
                            assert(wl0[w] == x);
                        }
                    }
                }
                assert(!worklist@.contains(v)) by {
                    let full = wl0.push(v);
                    if worklist@.contains(v) {
                        let w = choose|w: int| 0 <= w < worklist@.len() && worklist@[w] == v;
                        assert(full[w] == full[full.len() - 1]);
                    }
                }
                assert forall|w: int| 0 <= w < worklist@.len() implies #[trigger] worklist@[w] < n && marked@[worklist@[w] as int] by {
                    assert(worklist@[w] == wl0.push(v)[w]);
                }
            }
            let links = self.slots[v].as_ref().unwrap();
            let ni = links.inputs.len();
            let mut i: usize = 0;
            while i < ni
                invariant
                    self.wf(),
                    n == self.slots@.len(),
                    self.has(v as int),
                    *links == self.links(v as int),
                    ni == links.inputs@.len(),
                    i <= ni,
                    v < n,
                    marked@.len() == n,
                    marked@[v as int],
                    forall|x: int| 0 <= x < n ==> (#[trigger] marked@[x] <==> seen.contains(x)),
                    seen.finite(),
                    seen.subset_of(Set::new(|x: int| 0 <= x < n)),
                    count == seen.len(),
                    count <= n,
                    forall|x: int| 0 <= x < n && #[trigger] marked@[x] ==> self.has(x),
                    root < n,
                marked@[root as int],
                    worklist@.no_duplicates(),
                    !worklist@.contains(v),
                    forall|w: int| 0 <= w < worklist@.len() ==> #[trigger] worklist@[w] < n && marked@[worklist@[w] as int],
                    forall|x: int| 0 <= x < n && #[trigger] marked@[x] ==> self.reaches(root as int, x),
                    forall|x: int, i2: int, k: int|
                        #![trigger marked@[x], self.source(x, i2, k)]
                        0 <= x < n && marked@[x] && !worklist@.contains(x as usize) && x != v
                            && self.has(x) && self.valid_source(x, i2, k) ==> marked@[self.source(x, i2, k).node as int],
                    forall|i2: int, k: int|
                        #![trigger self.source(v as int, i2, k)]
                        0 <= i2 < i && self.valid_source(v as int, i2, k) ==> marked@[self.source(v as int, i2, k).node as int],
                    count >= c0,
                    count == c0 ==> worklist@.len() == wl0.len(),
                decreases ni - i,
            {
                let refs = &links.inputs[i];
                let nk = refs.len();
                let mut k: usize = 0;
                while k < nk
                    invariant
                        self.wf(),
                        n == self.slots@.len(),
                        self.has(v as int),
                        *links == self.links(v as int),
                        ni == links.inputs@.len(),
                        i < ni,
                        *refs == links.inputs@[i as int],
                        nk == refs@.len(),
                        k <= nk,
                        v < n,
                        marked@.len() == n,
                        marked@[v as int],
                        forall|x: int| 0 <= x < n ==> (#[trigger] marked@[x] <==> seen.contains(x)),
                        seen.finite(),
                        seen.subset_of(Set::new(|x: int| 0 <= x < n)),
                        count == seen.len(),
                        count <= n,
                        forall|x: int| 0 <= x < n && #[trigger] marked@[x] ==> self.has(x),
                        root < n,
                marked@[root as int],
                        worklist@.no_duplicates(),
                        !worklist@.contains(v),
                        forall|w: int| 0 <= w < worklist@.len() ==> #[trigger] worklist@[w] < n && marked@[worklist@[w] as int],
                        forall|x: int| 0 <= x < n && #[trigger] marked@[x] ==> self.reaches(root as int, x),
                        forall|x: int, i2: int, k2: int|
                            #![trigger marked@[x], self.source(x, i2, k2)]
                            0 <= x < n && marked@[x] && !worklist@.contains(x as usize) && x != v
                                && self.has(x) && self.valid_source(x, i2, k2) ==> marked@[self.source(x, i2, k2).node as int],
                        forall|i2: int, k2: int|
                            #![trigger self.source(v as int, i2, k2)]
                            0 <= i2 < i && self.valid_source(v as int, i2, k2) ==> marked@[self.source(v as int, i2, k2).node as int],
                        forall|k2: int|
                            #![trigger self.source(v as int, i as int, k2)]
                            0 <= k2 < k ==> marked@[self.source(v as int, i as int, k2).node as int],
                        count >= c0,
                        count == c0 ==> worklist@.len() == wl0.len(),
                    decreases nk - k,
                {
                    let s = refs[k].node;
                    proof {
                        assert(self.source(v as int, i as int, k as int).node == s);
                        assert(self.has(s as int));
                    }
                    if !marked[s] {
                        proof {
                            assert(self.feeds(s as int, v as int));
                            let p = choose|p: Seq<int>|
                                #[trigger] self.is_upstream_path(p) && p[0] == root as int && p.last()
                                    == v as int;
                            self.lemma_path_push(p, s as int);
                            assert(p.push(s as int)[0] == root as int);
                            assert(p.push(s as int).last() == s as int);
                            assert(!seen.contains(s as int));
                            vstd::set_lib::lemma_int_range(0, n as int);
                            assert(Set::new(|x: int| 0 <= x < n) =~= vstd::set_lib::set_int_range(0, n as int));
                            vstd::set_lib::lemma_len_subset(
                                seen.insert(s as int),
                                Set::new(|x: int| 0 <= x < n),
                            );
                        }
                        marked.set(s, true);
                        let ghost wl1 = worklist@;
                        worklist.push(s);
                        proof {
                            seen = seen.insert(s as int);
                            assert forall|w: int| 0 <= w < worklist@.len() implies #[trigger] worklist@[w] < n && marked@[worklist@[w] as int] by {
                                if w < wl1.len() {
                                    assert(worklist@[w] == wl1[w]);
                                }
                            }
                            assert forall|a: int, b: int| 0 <= a < b < worklist@.len() implies worklist@[a] != worklist@[b] by {
                                if b < wl1.len() {
                                    assert(worklist@[a] == wl1[a] && worklist@[b] == wl1[b]);
                                } else {
                                    assert(worklist@[a] == wl1[a]);
                                    assert(marked@[wl1[a] as int]);
                                }
                            }
                            assert(worklist@.contains(v) ==> wl1.contains(v)) by {
                                if worklist@.contains(v) {
                                    let w = choose|w: int| 0 <= w < worklist@.len() && worklist@[w] == v;
                                    if w < wl1.len() {
                                        assert(wl1[w] == v);
                                    }
                                }
                            }
                            assert forall|x: int, i2: int, k2: int|
                                #![trigger marked@[x], self.source(x, i2, k2)]
                                0 <= x < n && marked@[x] && !worklist@.contains(x as usize) && x != v
                                    && self.has(x) && self.valid_source(x, i2, k2) implies marked@[self.source(x, i2, k2).node as int] by {
                                if x != s as int {
                                    assert(!wl1.contains(x as usize)) by {
                                        if wl1.contains(x as usize) {
                                            let w = choose|w: int| 0 <= w < wl1.len() && wl1[w] == x as usize;
                                            assert(worklist@[w] == x as usize);
                                        }
                                    }
                                } else {
                                    assert(worklist@[worklist@.len() - 1] == s);
                                }
                            }
                        }
                        count += 1;
                    }
                    k += 1;
                }
                i += 1;
            }
        }
        proof {
            assert(self.closed_under_sources(marked@)) by {
                assert forall|x: int, i2: int, k2: int|
                    #![trigger marked@[x], self.source(x, i2, k2)]
                    0 <= x < marked@.len() && marked@[x] && self.has(x) && self.valid_source(x, i2, k2)
                        implies marked@[self.source(x, i2, k2).node as int] by {
                    assert(!worklist@.contains(x as usize));
                }
            }
            assert forall|v: int| 0 <= v < marked@.len() implies (#[trigger] marked@[v] <==> self.reaches(root as int, v)) by {
                if self.reaches(root as int, v) {
                    let p = choose|p: Seq<int>|
                        #[trigger] self.is_upstream_path(p) && p[0] == root as int && p.last() == v;
                    self.lemma_closed_holds_path(marked@, p);
                }
            }
        }
        marked
    }
}

/// Holds of the references that do not point at node `id`.
pub open spec fn not_from(id: usize) -> spec_fn(OutputRef) -> bool {
    |r: OutputRef| r.node != id
}

/// The sources that remain once node `id` is gone.
pub open spec fn scrubbed(inputs: Seq<Seq<OutputRef>>, id: usize) -> Seq<Seq<OutputRef>> {
    inputs.map_values(|refs: Seq<OutputRef>| refs.filter(not_from(id)))
}

/// Every element a filter keeps comes from the filtered sequence.
proof fn lemma_filter_from(s: Seq<OutputRef>, pred: spec_fn(OutputRef) -> bool, k: int)
    requires
        0 <= k < s.filter(pred).len(),
    ensures
        s.contains(s.filter(pred)[k]),
    decreases s.len(),
{
    reveal(Seq::filter);
    if s.len() > 0 {
        let sub = s.drop_last().filter(pred);
        if k < sub.len() {
            lemma_filter_from(s.drop_last(), pred, k);
            let j = choose|j: int| 0 <= j < s.drop_last().len() && s.drop_last()[j] == sub[k];
            assert(s[j] == s.filter(pred)[k]);
        } else {
            assert(s[s.len() - 1] == s.filter(pred)[k]);
        }
    }
}

/// Copy of `refs` without the references to node `id`.
fn without_node(refs: &Vec<OutputRef>, id: usize) -> (r: Vec<OutputRef>)
    ensures
        r@ == refs@.filter(not_from(id)),
{
    let mut out: Vec<OutputRef> = Vec::new();
    let mut k: usize = 0;
    while k < refs.len()
        invariant
            k <= refs@.len(),
            out@ == refs@.subrange(0, k as int).filter(not_from(id)),
        decreases refs@.len() - k,
    {
        proof {
            assert(refs@.subrange(0, k as int + 1).drop_last() =~= refs@.subrange(0, k as int));
            reveal(Seq::filter);
        }
        if refs[k].node != id {
            out.push(refs[k]);
        }
        k += 1;
    }
    proof {
        assert(refs@.subrange(0, k as int) =~= refs@);
    }
    out
}

impl Graph {
    /// Node `id` has the same presence, wiring and kinds in both graphs.
    pub open spec fn same_node(&self, other: &Graph, id: int) -> bool {
        &&& self.has(id) == other.has(id)
        &&& self.has(id) ==> {
            &&& self.inputs_of(id) == other.inputs_of(id)
            &&& self.links(id).input_kinds@ == other.links(id).input_kinds@
            &&& self.links(id).output_kinds@ == other.links(id).output_kinds@
        }
    }

    /// Adds a node with the given input and output kinds and no edges, under
    /// the smallest free id, which it returns.
    pub fn add_node(&mut self, input_kinds: Vec<BusKind>, output_kinds: Vec<BusKind>) -> (id: usize)
        requires
            old(self).wf(),
            old(self).slots@.len() < usize::MAX,
        ensures
            final(self).wf(),
            id <= old(self).slots@.len(),
            final(self).slots@.len() == if id == old(self).slots@.len() {
                old(self).slots@.len() as int + 1
            } else {
                old(self).slots@.len() as int
            },
            forall|j: int| 0 <= j < id ==> #[trigger] old(self).has(j),
            !old(self).has(id as int),
            final(self).has(id as int),
            final(self).inputs_of(id as int) == Seq::new(
                input_kinds@.len(),
                |i: int| Seq::<OutputRef>::empty(),
            ),
            final(self).links(id as int).input_kinds@ == input_kinds@,
            final(self).links(id as int).output_kinds@ == output_kinds@,
            forall|j: int| j != id ==> #[trigger] final(self).same_node(old(self), j),
    {
        let mut id: usize = 0;
        while id < self.slots.len() && self.slots[id].is_some()
            invariant
                id <= self.slots@.len(),
                forall|j: int| 0 <= j < id ==> #[trigger] self.has(j),
            decreases self.slots@.len() - id,
        {
            id += 1;
        }
        let mut inputs: Vec<Vec<OutputRef>> = Vec::new();
        let mut i: usize = 0;
        while i < input_kinds.len()
            invariant
                i <= input_kinds@.len(),
                inputs@.len() == i,
                forall|j: int| 0 <= j < i ==> (#[trigger] inputs@[j])@.len() == 0,
            decreases input_kinds@.len() - i,
        {
            inputs.push(Vec::new());
            i += 1;
        }
        let links = NodeLinks { inputs, input_kinds, output_kinds };
        let ghost old_g = *self;
        if id == self.slots.len() {
            self.slots.push(Some(links));
        } else {
            self.slots.set(id, Some(links));
        }
        proof {
            assert forall|j: int| 0 <= j < self.inputs_of(id as int).len() implies self.inputs_of(id as int)[j] =~= Seq::<OutputRef>::empty() by {
                assert(self.links(id as int).inputs@[j]@.len() == 0);
            }
            assert(self.inputs_of(id as int) =~= Seq::new(
                self.links(id as int).input_kinds@.len(),
                |i: int| Seq::<OutputRef>::empty(),
            ));
            assert forall|j: int| #[trigger] self.has(j) implies self.links(j).inputs@.len()
                == self.links(j).input_kinds@.len() by {
                if j != id {
                    assert(self.slots@[j] == old_g.slots@[j]);
                    assert(old_g.has(j));
                } else {
                    assert(self.slots@[j] == Some(links));
                }
            }
            assert forall|j: int| j != id implies #[trigger] self.same_node(&old_g, j) by {
                if 0 <= j < old_g.slots@.len() {
                    assert(self.slots@[j] == old_g.slots@[j]);
                }
            }
            assert forall|v: int, i2: int, k: int|
                #![trigger self.source(v, i2, k)]
                self.has(v) && self.valid_source(v, i2, k) implies {
                    let r = self.source(v, i2, k);
                    &&& self.has(r.node as int)
                    &&& r.output < self.links(r.node as int).output_kinds@.len()
                    &&& self.links(r.node as int).output_kinds@[r.output as int]
                        == self.links(v).input_kinds@[i2]
                } by {
                assert(v != id);
                assert(self.slots@[v] == old_g.slots@[v]);
                assert(self.source(v, i2, k) == old_g.source(v, i2, k));
                let r = old_g.source(v, i2, k);
                assert(r.node != id);
                assert(self.slots@[r.node as int] == old_g.slots@[r.node as int]);
            }
        }
        id
    }

    /// Adds a node with the given kinds and no edges under id `id`, if that id
    /// is free; slots up to it are added as needed. Returns whether it did.
    pub fn place_node(&mut self, id: usize, input_kinds: Vec<BusKind>, output_kinds: Vec<BusKind>) -> (ok: bool)
        requires
            old(self).wf(),
            id < usize::MAX,
        ensures
            final(self).wf(),
            ok == !old(self).has(id as int),
            !ok ==> final(self).slots@ == old(self).slots@,
            ok ==> {
                &&& final(self).has(id as int)
                &&& final(self).inputs_of(id as int) == Seq::new(
                    input_kinds@.len(),
                    |i: int| Seq::<OutputRef>::empty(),
                )
                &&& final(self).links(id as int).input_kinds@ == input_kinds@
                &&& final(self).links(id as int).output_kinds@ == output_kinds@
                &&& forall|j: int| j != id ==> #[trigger] final(self).same_node(old(self), j)
            },
    {
        if self.has_node(id) {
            return false;
        }
        let ghost old_g = *self;
        while self.slots.len() <= id
            invariant
                id < usize::MAX,
                self.slots@.len() >= old_g.slots@.len(),
                forall|j: int| 0 <= j < old_g.slots@.len() ==> #[trigger] self.slots@[j] == old_g.slots@[j],
                forall|j: int| old_g.slots@.len() <= j < self.slots@.len() ==> (#[trigger] self.slots@[j]).is_none(),
            decreases id + 1 - self.slots@.len(),
        {
            self.slots.push(None);
        }
        let mut inputs: Vec<Vec<OutputRef>> = Vec::new();
        let mut i: usize = 0;
        while i < input_kinds.len()
            invariant
                i <= input_kinds@.len(),
                inputs@.len() == i,
                forall|j: int| 0 <= j < i ==> (#[trigger] inputs@[j])@.len() == 0,
            decreases input_kinds@.len() - i,
        {
            inputs.push(Vec::new());
            i += 1;
        }
        let links = NodeLinks { inputs, input_kinds, output_kinds };
        self.slots.set(id, Some(links));
        proof {
            assert forall|j: int| j != id implies #[trigger] self.same_node(&old_g, j) by {
                if 0 <= j < old_g.slots@.len() {
                    assert(self.slots@[j] == old_g.slots@[j]);
                } else if j >= 0 && j < self.slots@.len() {
                    assert(self.slots@[j].is_none());
                }
            }
            assert forall|j: int| 0 <= j < self.inputs_of(id as int).len() implies self.inputs_of(id as int)[j] =~= Seq::<OutputRef>::empty() by {
                assert(self.links(id as int).inputs@[j]@.len() == 0);
            }
            assert(self.inputs_of(id as int) =~= Seq::new(
                self.links(id as int).input_kinds@.len(),
                |i: int| Seq::<OutputRef>::empty(),
            ));
            assert forall|j: int| #[trigger] self.has(j) implies self.links(j).inputs@.len()
                == self.links(j).input_kinds@.len() by {
                if j != id {
                    assert(self.slots@[j] == old_g.slots@[j]);
                    assert(old_g.has(j));
                } else {
                    assert(self.slots@[j] == Some(links));
                }
            }
            assert forall|v: int, i2: int, k: int|
                #![trigger self.source(v, i2, k)]
                self.has(v) && self.valid_source(v, i2, k) implies {
                    let r = self.source(v, i2, k);
                    &&& self.has(r.node as int)
                    &&& r.output < self.links(r.node as int).output_kinds@.len()
                    &&& self.links(r.node as int).output_kinds@[r.output as int]
                        == self.links(v).input_kinds@[i2]
                } by {
                assert(v != id);
                assert(self.slots@[v] == old_g.slots@[v]);
                assert(self.source(v, i2, k) == old_g.source(v, i2, k));
                let r = old_g.source(v, i2, k);
                assert(old_g.has(r.node as int));
                assert(r.node != id);
                assert(self.slots@[r.node as int] == old_g.slots@[r.node as int]);
            }
        }
        true
    }

    /// Feeds input `input` of node `dst` from output `src`, after checking in
    /// this order that both nodes exist, that the input and the output exist,
    /// that their kinds agree, and that `src.node` does not already depend on
    /// `dst` (which would close a cycle).
    pub fn connect(&mut self, dst: usize, input: usize, src: OutputRef) -> (r: Result<(), ConnectError>)
        requires
            old(self).wf(),
        ensures
            final(self).wf(),
            r == if !old(self).has(dst as int) || !old(self).has(src.node as int) {
                Err(ConnectError::MissingNode)
            } else if input >= old(self).links(dst as int).inputs@.len() {
                Err(ConnectError::MissingInput)
            } else if src.output >= old(self).links(src.node as int).output_kinds@.len() {
                Err(ConnectError::MissingOutput)
            } else if old(self).links(src.node as int).output_kinds@[src.output as int] != old(
                self,
            ).links(dst as int).input_kinds@[input as int] {
                Err(ConnectError::KindMismatch)
            } else if old(self).reaches(src.node as int, dst as int) {
                Err(ConnectError::Cycle)
            } else {
                Ok(())
            },
            r.is_err() ==> final(self).slots@ == old(self).slots@,
            r.is_ok() ==> {
                &&& final(self).slots@.len() == old(self).slots@.len()
                &&& forall|j: int| j != dst ==> #[trigger] final(self).same_node(old(self), j)
                &&& final(self).has(dst as int)
                &&& final(self).inputs_of(dst as int) == old(self).inputs_of(dst as int).update(
                    input as int,
                    old(self).inputs_of(dst as int)[input as int].push(src),
                )
                &&& final(self).links(dst as int).input_kinds@ == old(self).links(dst as int).input_kinds@
                &&& final(self).links(dst as int).output_kinds@ == old(self).links(dst as int).output_kinds@
            },
    {
        if !self.has_node(dst) || !self.has_node(src.node) {
            return Err(ConnectError::MissingNode);
        }
        let dst_links = self.slots[dst].as_ref().unwrap();
        let src_links = self.slots[src.node].as_ref().unwrap();
        if input >= dst_links.inputs.len() {
            return Err(ConnectError::MissingInput);
        }
        if src.output >= src_links.output_kinds.len() {
            return Err(ConnectError::MissingOutput);
        }
        if src_links.output_kinds[src.output] != dst_links.input_kinds[input] {
            return Err(ConnectError::KindMismatch);
        }
        let marks = self.upstream_marks(src.node);
        if marks[dst] {
            return Err(ConnectError::Cycle);
        }
        let ghost old_g = *self;
        let mut slot: Option<NodeLinks> = None;
        self.slots.set_and_swap(dst, &mut slot);
        let mut links = slot.unwrap();
        let mut refs: Vec<OutputRef> = Vec::new();
        links.inputs.set_and_swap(input, &mut refs);
        refs.push(src);
        links.inputs.set_and_swap(input, &mut refs);
        let mut back = Some(links);
        self.slots.set_and_swap(dst, &mut back);
        proof {
            assert(self.inputs_of(dst as int) =~= old_g.inputs_of(dst as int).update(
                input as int,
                old_g.inputs_of(dst as int)[input as int].push(src),
            ));
            assert forall|j: int| #[trigger] self.has(j) implies self.links(j).inputs@.len()
                == self.links(j).input_kinds@.len() by {
                if j != dst {
                    assert(self.slots@[j] == old_g.slots@[j]);
                    assert(old_g.has(j));
                } else {
                    assert(old_g.has(j));
                    assert(self.inputs_of(j).len() == old_g.inputs_of(j).len());
                }
            }
            assert forall|j: int| j != dst implies #[trigger] self.same_node(&old_g, j) by {
                if 0 <= j < old_g.slots@.len() {
                    assert(self.slots@[j] == old_g.slots@[j]);
                }
            }
            assert forall|v: int, i2: int, k: int|
                #![trigger self.source(v, i2, k)]
                self.has(v) && self.valid_source(v, i2, k) implies {
                    let r = self.source(v, i2, k);
                    &&& self.has(r.node as int)
                    &&& r.output < self.links(r.node as int).output_kinds@.len()
                    &&& self.links(r.node as int).output_kinds@[r.output as int]
                        == self.links(v).input_kinds@[i2]
                } by {
                let r = self.source(v, i2, k);
                if v != dst {
                    assert(self.slots@[v] == old_g.slots@[v]);
                    assert(r == old_g.source(v, i2, k));
                } else if i2 != input {
                    assert(self.inputs_of(v)[i2] == old_g.inputs_of(v)[i2]);
                    assert(r == old_g.source(v, i2, k));
                } else if k < old_g.inputs_of(v)[i2].len() {
                    assert(self.inputs_of(v)[i2][k] == old_g.inputs_of(v)[i2][k]);
                    assert(r == old_g.source(v, i2, k));
                } else {
                    assert(self.inputs_of(v)[i2][k] == src);
                }
                assert(old_g.has(r.node as int));
                if r.node != dst {
                    assert(self.slots@[r.node as int] == old_g.slots@[r.node as int]);
                }
                if v != dst {
                    assert(self.slots@[v] == old_g.slots@[v]);
                }
            }
        }
        Ok(())
    }

    /// Removes node `id`, then drops every reference to it from the inputs of
    /// the remaining nodes. Deleting a missing node changes nothing.
    pub fn delete_node(&mut self, id: usize)
        requires
            old(self).wf(),
        ensures
            final(self).wf(),
            final(self).slots@.len() == old(self).slots@.len(),
            !final(self).has(id as int),
            !old(self).has(id as int) ==> final(self).slots@ == old(self).slots@,
            forall|v: int| v != id ==> #[trigger] final(self).has(v) == old(self).has(v),
            forall|v: int|
                old(self).has(id as int) && v != id && #[trigger] old(self).has(v) ==> {
                    &&& final(self).inputs_of(v) == scrubbed(old(self).inputs_of(v), id)
                    &&& final(self).links(v).input_kinds@ == old(self).links(v).input_kinds@
                    &&& final(self).links(v).output_kinds@ == old(self).links(v).output_kinds@
                },
            forall|v: int, i: int, k: int|
                #![trigger final(self).source(v, i, k)]
                final(self).has(v) && final(self).valid_source(v, i, k) ==> final(self).source(v, i, k).node != id,
    {
        if !self.has_node(id) {
            return;
        }
        let ghost old_g = *self;
        self.slots.set(id, None);
        let n = self.slots.len();
        let mut v: usize = 0;
        while v < n
            invariant
                n == self.slots@.len(),
                n == old_g.slots@.len(),
                v <= n,
                !self.has(id as int),
                forall|j: int| j != id ==> #[trigger] self.has(j) == old_g.has(j),
                forall|j: int|
                    v <= j < n && j != id ==> #[trigger] self.slots@[j] == old_g.slots@[j],
                forall|j: int|
                    0 <= j < v && j != id && #[trigger] old_g.has(j) ==> {
                        &&& self.inputs_of(j) == scrubbed(old_g.inputs_of(j), id)
                        &&& self.links(j).input_kinds@ == old_g.links(j).input_kinds@
                        &&& self.links(j).output_kinds@ == old_g.links(j).output_kinds@
                    },
            decreases n - v,
        {
            let ghost prev = self.slots@;
            let ghost prev_g = *self;
            if self.slots[v].is_some() {
                let mut slot: Option<NodeLinks> = None;
                self.slots.set_and_swap(v, &mut slot);
                let mut links = slot.unwrap();
                let ghost old_links = links;
                let ni = links.inputs.len();
                let mut i: usize = 0;
                while i < ni
                    invariant
                        ni == links.inputs@.len(),
                        ni == old_links.inputs@.len(),
                        i <= ni,
                        links.input_kinds@ == old_links.input_kinds@,
                        links.output_kinds@ == old_links.output_kinds@,
                        forall|j: int| 0 <= j < i ==> (#[trigger] links.inputs@[j])@ == old_links.inputs@[j]@.filter(not_from(id)),
                        forall|j: int| i <= j < ni ==> #[trigger] links.inputs@[j] == old_links.inputs@[j],
                    decreases ni - i,
                {
                    let mut kept = without_node(&links.inputs[i], id);
                    links.inputs.set_and_swap(i, &mut kept);
                    i += 1;
                }
                let mut back = Some(links);
                self.slots.set_and_swap(v, &mut back);
                proof {
                    assert(self.inputs_of(v as int) =~= scrubbed(old_g.inputs_of(v as int), id));
                    assert forall|j: int| j != id implies #[trigger] self.has(j) == old_g.has(j) by {
                        assert(prev_g.has(j) == old_g.has(j));
                        if 0 <= j < n && j != v {
                            assert(self.slots@[j] == prev[j]);
                        }
                        if j == v {
                            assert(prev_g.has(j));
                        }
                    }
                }
            }
            v += 1;
        }
        proof {
            assert forall|v: int, i: int, k: int|
                #![trigger self.source(v, i, k)]
                self.has(v) && self.valid_source(v, i, k) implies self.source(v, i, k).node != id && {
                    let r = self.source(v, i, k);
                    &&& self.has(r.node as int)
                    &&& r.output < self.links(r.node as int).output_kinds@.len()
                    &&& self.links(r.node as int).output_kinds@[r.output as int]
                        == self.links(v).input_kinds@[i]
                } by {
                broadcast use vstd::seq_lib::group_filter_ensures;
                let olds = old_g.inputs_of(v)[i];
                let pred = not_from(id);
                assert(self.inputs_of(v)[i] == olds.filter(pred));
                let r = self.source(v, i, k);
                assert(self.inputs_of(v)[i][k] == r);
                assert(olds.filter(pred)[k] == r);
                lemma_filter_from(olds, pred, k);
                assert(olds.contains(r));
                let k0 = choose|k0: int| 0 <= k0 < olds.len() && olds[k0] == r;
                assert(old_g.source(v, i, k0) == r);
                assert(r.node != id);
            }
        }
    }
}

/// Membership, as a separate term so that quantifiers over a set's members
/// do not trigger one another.
pub open spec fn in_set(s: Set<int>, v: int) -> bool {
    s.contains(v)
}

/// Why no render order exists.
#[derive(Debug, Copy, Clone, PartialEq, Eq, Structural)]
pub enum ScheduleError {
    /// The root is not a node of the graph.
    MissingRoot,
    /// The nodes upstream of the root contain a cycle.
    Cycle,
}

impl Graph {
    /// A non-empty set of nodes that `root` reaches, each fed by another
    /// member: following sources inside it never ends, so it holds a cycle.
    pub open spec fn cycle_witness(&self, root: int, s: Set<int>) -> bool {
        &&& s.len() > 0
        &&& s.finite()
        &&& forall|v: int| #[trigger] s.contains(v) ==> self.reaches(root, v)
        &&& forall|v: int| #[trigger] in_set(s, v) ==> exists|w: int| s.contains(w) && self.feeds(w, v)
    }

    /// `order` lists, once each, exactly the nodes that `root` reaches, every
    /// node after all of its sources.
    pub open spec fn is_render_order(&self, root: int, order: Seq<usize>) -> bool {
        &&& order.no_duplicates()
        &&& forall|v: int| 0 <= v < self.slots@.len() ==> (order.contains(v as usize) <==> self.reaches(root, v))
        &&& self.sources_first(order)
    }

    /// Each source of `order[k]` appears in `order` before index `k`.
    pub open spec fn sources_first(&self, order: Seq<usize>) -> bool {
        forall|k: int, i: int, kk: int|
            #![trigger self.source(order[k] as int, i, kk)]
            0 <= k < order.len() && self.valid_source(order[k] as int, i, kk) ==> order.subrange(
                0,
                k,
            ).contains(self.source(order[k] as int, i, kk).node)
    }

    /// Every source of node `v` is marked in `emitted`.
    pub open spec fn sources_marked(&self, v: int, emitted: Seq<bool>) -> bool {
        forall|i: int, k: int|
            #![trigger self.source(v, i, k)]
            self.valid_source(v, i, k) ==> emitted[self.source(v, i, k).node as int]
    }

    /// A node that `root` reaches exists.
    proof fn lemma_reached_exists(&self, root: int, v: int)
        requires
            self.wf(),
            self.has(root),
            self.reaches(root, v),
        ensures
            self.has(v),
    {
        let p = choose|p: Seq<int>| #[trigger] self.is_upstream_path(p) && p[0] == root && p.last() == v;
        if p.len() > 1 {
            let j = p.len() - 2;
            assert(self.feeds(p[j + 1], p[j]));
            let b = p[j];
            let (i, k) = choose|i: int, k: int|
                #![trigger self.source(b, i, k)]
                self.valid_source(b, i, k) && self.source(b, i, k).node == p[j + 1];
        }
    }

    /// Whether every source of node `v` is marked in `emitted`.
    fn sources_emitted(&self, v: usize, emitted: &Vec<bool>) -> (r: bool)
        requires
            self.wf(),
            self.has(v as int),
            emitted@.len() == self.slots@.len(),
        ensures
            r == self.sources_marked(v as int, emitted@),
    {
        let links = self.slots[v].as_ref().unwrap();
        let mut i: usize = 0;
        while i < links.inputs.len()
            invariant
                self.wf(),
                self.has(v as int),
                *links == self.links(v as int),
                emitted@.len() == self.slots@.len(),
                i <= links.inputs@.len(),
                forall|i2: int, k: int|
                    #![trigger self.source(v as int, i2, k)]
                    0 <= i2 < i && self.valid_source(v as int, i2, k) ==> emitted@[self.source(v as int, i2, k).node as int],
            decreases links.inputs@.len() - i,
        {
            let refs = &links.inputs[i];
            let mut k: usize = 0;
            while k < refs.len()
                invariant
                    self.wf(),
                    self.has(v as int),
                    *links == self.links(v as int),
                    emitted@.len() == self.slots@.len(),
                    i < links.inputs@.len(),
                    *refs == links.inputs@[i as int],
                    k <= refs@.len(),
                    forall|i2: int, k2: int|
                        #![trigger self.source(v as int, i2, k2)]
                        0 <= i2 < i && self.valid_source(v as int, i2, k2) ==> emitted@[self.source(v as int, i2, k2).node as int],
                    forall|k2: int|
                        #![trigger self.source(v as int, i as int, k2)]
                        0 <= k2 < k ==> emitted@[self.source(v as int, i as int, k2).node as int],
                decreases refs@.len() - k,
            {
                let s = refs[k].node;
                proof {
                    assert(self.source(v as int, i as int, k as int).node == s);
                }
                if !emitted[s] {
                    return false;
                }
                k += 1;
            }
            i += 1;
        }
        true
    }

    /// Appending a node whose sources are all listed keeps `order` free of
    /// repeats and sources-first, and keeps the marks in step with it.
    proof fn lemma_emit(&self, order0: Seq<usize>, v: usize, eb: Seq<bool>, n: int)
        requires
            self.wf(),
            self.has(v as int),
            n == self.slots@.len(),
            n <= usize::MAX,
            eb.len() == n,
            !eb[v as int],
            forall|x: int| 0 <= x < n ==> (#[trigger] eb[x] <==> order0.contains(x as usize)),
            order0.no_duplicates(),
            forall|k: int| 0 <= k < order0.len() ==> #[trigger] order0[k] < n,
            self.sources_first(order0),
            self.sources_marked(v as int, eb),
        ensures
            ({
                let order = order0.push(v);
                let e = eb.update(v as int, true);
                &&& forall|x: int| 0 <= x < n ==> (#[trigger] e[x] <==> order.contains(x as usize))
                &&& order.no_duplicates()
                &&& forall|k: int| 0 <= k < order.len() ==> #[trigger] order[k] < n
                &&& self.sources_first(order)
            }),
    {
        let order = order0.push(v);
        let e = eb.update(v as int, true);
        assert(!order0.contains(v));
        assert forall|x: int| 0 <= x < n implies (#[trigger] e[x] <==> order.contains(x as usize)) by {
            if x == v as int {
                assert(order[order.len() - 1] == v);
            } else {
                if order.contains(x as usize) {
                    let k = choose|k: int| 0 <= k < order.len() && order[k] == x as usize;
                    if k == order0.len() {
                        assert(order[k] == v);
                        assert(false);
                    }
                    assert(order0[k] == x as usize);
                }
                if order0.contains(x as usize) {
                    let k = choose|k: int| 0 <= k < order0.len() && order0[k] == x as usize;
                    assert(order[k] == x as usize);
                }
            }
        }
        assert forall|a: int, b: int| 0 <= a < b < order.len() implies order[a] != order[b] by {
            if b < order0.len() {
                assert(order[a] == order0[a] && order[b] == order0[b]);
            } else {
                assert(order[a] == order0[a]);
                assert(order0.contains(order0[a]));
            }
        }
        assert forall|k: int| 0 <= k < order.len() implies #[trigger] order[k] < n by {
            if k < order0.len() {
                assert(order[k] == order0[k]);
            }
        }
        assert forall|k: int, i: int, kk: int|
            #![trigger self.source(order[k] as int, i, kk)]
            0 <= k < order.len() && self.valid_source(order[k] as int, i, kk) implies order.subrange(
                0,
                k,
            ).contains(self.source(order[k] as int, i, kk).node) by {
            if k < order0.len() {
                assert(order[k] == order0[k]);
                assert(order.subrange(0, k) =~= order0.subrange(0, k));
            } else {
                assert(order[k] == v);
                assert(self.valid_source(v as int, i, kk));
                let s = self.source(v as int, i, kk).node;
                assert(eb[s as int]);
                assert(self.has(s as int));
                assert(eb[s as int] <==> order0.contains((s as int) as usize));
                assert(order.subrange(0, k) =~= order0);
            }
        }
        assert(self.sources_first(order));
    }

    /// The bookkeeping of `render_order` between passes: `marks` holds what
    /// `root` reaches, `emitted` what `order` lists, and `order` is
    /// repeat-free and sources-first.
    pub open spec fn schedule_state(
        &self,
        root: int,
        marks: Seq<bool>,
        emitted: Seq<bool>,
        order: Seq<usize>,
    ) -> bool {
        let n = self.slots@.len();
        &&& self.wf()
        &&& self.has(root)
        &&& marks.len() == n
        &&& emitted.len() == n
        &&& forall|v: int| 0 <= v < n ==> (#[trigger] marks[v] <==> self.reaches(root, v))
        &&& forall|v: int| 0 <= v < n && #[trigger] emitted[v] ==> marks[v]
        &&& forall|v: int| 0 <= v < n ==> (#[trigger] emitted[v] <==> order.contains(v as usize))
        &&& order.no_duplicates()
        &&& forall|k: int| 0 <= k < order.len() ==> #[trigger] order[k] < n
        &&& self.sources_first(order)
    }

    /// One pass over all nodes, appending each reached node whose sources are
    /// all listed. Without progress, every reached unlisted node has an
    /// unlisted source.
    fn schedule_pass(
        &self,
        root: usize,
        marks: &Vec<bool>,
        emitted: &mut Vec<bool>,
        order: &mut Vec<usize>,
    ) -> (progress: bool)
        requires
            self.schedule_state(root as int, marks@, old(emitted)@, old(order)@),
        ensures
            self.schedule_state(root as int, marks@, final(emitted)@, final(order)@),
            progress ==> final(order)@.len() > old(order)@.len(),
            !progress ==> final(emitted)@ == old(emitted)@,
            !progress ==> forall|x: int|
                0 <= x < marks@.len() && #[trigger] marks@[x] && !final(emitted)@[x]
                    ==> !self.sources_marked(x, final(emitted)@),
    {
        let n = self.slots.len();
        let mut progress = false;
        let mut v: usize = 0;
        while v < n
            invariant
                n == self.slots@.len(),
                v <= n,
                self.schedule_state(root as int, marks@, emitted@, order@),
                progress ==> order@.len() > old(order)@.len(),
                order@.len() >= old(order)@.len(),
                !progress ==> emitted@ == old(emitted)@,
                !progress ==> forall|x: int|
                    0 <= x < v && #[trigger] marks@[x] && !emitted@[x] ==> !self.sources_marked(x, emitted@),
            decreases n - v,
        {
            if marks[v] && !emitted[v] {
                proof {
                    self.lemma_reached_exists(root as int, v as int);
                }
                if self.sources_emitted(v, emitted) {
                    let ghost order0 = order@;
                    let ghost eb = emitted@;
                    proof {
                        self.lemma_emit(order0, v, eb, n as int);
                    }
                    emitted.set(v, true);
                    order.push(v);
                    proof {
                        assert(emitted@ =~= eb.update(v as int, true));
                        assert forall|x: int| 0 <= x < n && #[trigger] emitted@[x] implies marks@[x] by {
                            if x != v as int {
                                assert(eb[x]);
                            }
                        }
                    }
                    progress = true;
                }
            }
            v += 1;
        }
        progress
    }

    /// The order in which to render the nodes that `root` depends on: each
    /// exactly once, after its sources. Fails on a missing root, or with a
    /// set of upstream nodes that feed each other in a cycle.
    pub fn render_order(&self, root: usize) -> (r: Result<Vec<usize>, ScheduleError>)
        requires
            self.wf(),
        ensures
            !self.has(root as int) ==> r == Err::<Vec<usize>, ScheduleError>(ScheduleError::MissingRoot),
            self.has(root as int) ==> r != Err::<Vec<usize>, ScheduleError>(ScheduleError::MissingRoot),
            r matches Ok(order) ==> self.is_render_order(root as int, order@),
            r == Err::<Vec<usize>, ScheduleError>(ScheduleError::Cycle) <==> exists|s: Set<int>|
                self.cycle_witness(root as int, s),
    {
        if !self.has_node(root) {
            proof {
                assert forall|w: Set<int>| !self.cycle_witness(root as int, w) by {
                    if self.cycle_witness(root as int, w) {
                        let v = lemma_some_member(w);
                        assert(self.reaches(root as int, v));
                        let p = choose|p: Seq<int>|
                            #[trigger] self.is_upstream_path(p) && p[0] == root as int && p.last() == v;
                        if p.len() > 1 {
                            let j = 0int;
                            assert(self.feeds(p[j + 1], p[j]));
                        } else {
                            assert(in_set(w, v));
                            let y = choose|y: int| w.contains(y) && self.feeds(y, v);
                        }
                    }
                }
            }
            return Err(ScheduleError::MissingRoot);
        }
        let marks = self.upstream_marks(root);
        let n = self.slots.len();
        let mut emitted: Vec<bool> = Vec::new();
        let mut j: usize = 0;
        while j < n
            invariant
                n == self.slots@.len(),
                j <= n,
                emitted@.len() == j,
                forall|v: int| 0 <= v < j ==> !(#[trigger] emitted@[v]),
            decreases n - j,
        {
            emitted.push(false);
            j += 1;
        }
        let mut order: Vec<usize> = Vec::new();
        proof {
            assert(self.sources_first(order@));
        }
        loop
            invariant
                n == self.slots@.len(),
                self.schedule_state(root as int, marks@, emitted@, order@),
            ensures
                self.schedule_state(root as int, marks@, emitted@, order@),
                forall|x: int|
                    0 <= x < n && #[trigger] marks@[x] && !emitted@[x] ==> !self.sources_marked(x, emitted@),
            decreases n - order@.len(),
        {
            proof {
                lemma_distinct_bounded(order@, n as int);
            }
            let progress = self.schedule_pass(root, &marks, &mut emitted, &mut order);
            proof {
                lemma_distinct_bounded(order@, n as int);
            }
            if !progress {
                break;
            }
        }
        let mut all_done = true;
        let mut w: usize = 0;
        while w < n
            invariant
                n == self.slots@.len(),
                marks@.len() == n,
                emitted@.len() == n,
                w <= n,
                all_done == forall|x: int| 0 <= x < w && #[trigger] marks@[x] ==> emitted@[x],
            decreases n - w,
        {
            if marks[w] && !emitted[w] {
                all_done = false;
            }
            w += 1;
        }
        if all_done {
            proof {
                assert forall|x: int| 0 <= x < self.slots@.len() implies (order@.contains(x as usize)
                    <==> self.reaches(root as int, x)) by {
                    assert(marks@[x] ==> emitted@[x]);
                    assert(emitted@[x] <==> order@.contains(x as usize));
                }
                assert forall|w: Set<int>| !self.cycle_witness(root as int, w) by {
                    self.lemma_render_order_acyclic(root as int, order@, w);
                }
            }
            Ok(order)
        } else {
            proof {
                self.lemma_stuck_is_cycle(root as int, marks@, emitted@);
            }
            Err(ScheduleError::Cycle)
        }
    }
}

impl Graph {
    /// When no pass makes progress and some reached node is unlisted, the
    /// unlisted reached nodes witness a cycle.
    proof fn lemma_stuck_is_cycle(&self, root: int, marks: Seq<bool>, emitted: Seq<bool>)
        requires
            self.wf(),
            self.has(root),
            marks.len() == self.slots@.len(),
            emitted.len() == self.slots@.len(),
            forall|v: int| 0 <= v < marks.len() ==> (#[trigger] marks[v] <==> self.reaches(root, v)),
            forall|x: int|
                0 <= x < marks.len() && #[trigger] marks[x] && !emitted[x] ==> !self.sources_marked(x, emitted),
            exists|x: int| 0 <= x < marks.len() && #[trigger] marks[x] && !emitted[x],
        ensures
            exists|s: Set<int>| self.cycle_witness(root, s),
    {
        let n = marks.len() as int;
        let s = Set::new(|x: int| 0 <= x < n && marks[x] && !emitted[x]);
        let x0 = choose|x: int| 0 <= x < n && #[trigger] marks[x] && !emitted[x];
        assert(s.contains(x0));
        vstd::set_lib::lemma_int_range(0, n);
        assert(s.subset_of(vstd::set_lib::set_int_range(0, n)));
        vstd::set_lib::lemma_len_subset(s, vstd::set_lib::set_int_range(0, n));
        assert forall|x: int| #[trigger] in_set(s, x) implies exists|y: int|
            s.contains(y) && self.feeds(y, x) by {
            assert(!self.sources_marked(x, emitted));
            let (i, kk) = choose|i: int, kk: int|
                #![trigger self.source(x, i, kk)]
                self.valid_source(x, i, kk) && !emitted[self.source(x, i, kk).node as int];
            let y = self.source(x, i, kk).node as int;
            self.lemma_reached_exists(root, x);
            assert(self.feeds(y, x));
            assert(self.has(y));
            let p = choose|p: Seq<int>| #[trigger] self.is_upstream_path(p) && p[0] == root && p.last() == x;
            self.lemma_path_push(p, y);
            assert(p.push(y)[0] == root);
            assert(self.reaches(root, y));
            assert(s.contains(y));
        }
        assert(self.cycle_witness(root, s));
    }
}

impl Graph {
    /// No member of a cycle witness sits at index `k` or before in a render order.
    proof fn lemma_witness_not_listed(&self, root: int, order: Seq<usize>, s: Set<int>, k: int)
        requires
            self.wf(),
            self.has(root),
            self.is_render_order(root, order),
            self.cycle_witness(root, s),
            0 <= k < order.len(),
        ensures
            forall|j: int| 0 <= j <= k ==> !s.contains(#[trigger] order[j] as int),
        decreases k,
    {
        if k > 0 {
            self.lemma_witness_not_listed(root, order, s, k - 1);
        }
        if s.contains(order[k] as int) {
            let v = order[k] as int;
            assert(in_set(s, v));
            let w = choose|w: int| s.contains(w) && self.feeds(w, v);
            let (i, kk) = choose|i: int, kk: int|
                #![trigger self.source(v, i, kk)]
                self.valid_source(v, i, kk) && self.source(v, i, kk).node == w;
            assert(self.source(order[k] as int, i, kk).node == w);
            assert(order.subrange(0, k).contains(self.source(order[k] as int, i, kk).node));
            let j = choose|j: int| 0 <= j < k && order.subrange(0, k)[j] == w as usize;
            assert(order[j] == w as usize);
            assert(!s.contains(order[j] as int));
        }
    }

    /// A graph with a render order from `root` has no cycle upstream of it.
    pub proof fn lemma_render_order_acyclic(&self, root: int, order: Seq<usize>, s: Set<int>)
        requires
            self.wf(),
            self.slots@.len() <= usize::MAX,
            self.has(root),
            self.is_render_order(root, order),
        ensures
            !self.cycle_witness(root, s),
    {
        if self.cycle_witness(root, s) {
            let v = lemma_some_member(s);
            assert(self.reaches(root, v));
            self.lemma_reached_exists(root, v);
            assert(order.contains(v as usize));
            let k = choose|k: int| 0 <= k < order.len() && order[k] == v as usize;
            self.lemma_witness_not_listed(root, order, s, k);
            assert(order[k] as int == v);
        }
    }
}

/// A member of a non-empty finite set.
proof fn lemma_some_member(s: Set<int>) -> (v: int)
    requires
        s.finite(),
        s.len() > 0,
    ensures
        s.contains(v),
{
    vstd::set_lib::lemma_set_empty_equivalency_len(s);
    s.choose()
}

/// A repeat-free list of ids below `n` has at most `n` entries.
proof fn lemma_distinct_bounded(s: Seq<usize>, n: int)
    requires
        0 <= n,
        s.no_duplicates(),
        forall|k: int| 0 <= k < s.len() ==> #[trigger] s[k] < n,
    ensures
        s.len() <= n,
{
    let t = s.map_values(|x: usize| x as int);
    assert forall|a: int, b: int| 0 <= a < b < t.len() implies t[a] != t[b] by {
        assert(s[a] != s[b]);
    }
    t.unique_seq_to_set();
    vstd::set_lib::lemma_int_range(0, n);
    assert forall|x: int| t.to_set().contains(x) implies vstd::set_lib::set_int_range(0, n).contains(x) by {
        let k = choose|k: int| 0 <= k < t.len() && t[k] == x;
        assert(s[k] < n);
    }
    vstd::set_lib::lemma_len_subset(t.to_set(), vstd::set_lib::set_int_range(0, n));
}

/// Number of occupied slots.
pub open spec fn count_present(s: Seq<Option<NodeLinks>>) -> nat
    decreases s.len(),
{
    if s.len() == 0 {
        0
    } else {
        count_present(s.drop_last()) + if s.last().is_some() {
            1nat
        } else {
            0nat
        }
    }
}

} // verus!
