use vstd::prelude::*;

verus! {

/// `g[a]` lists the nodes that node `a` depends on.
pub open spec fn has_edge(g: Seq<Seq<usize>>, a: int, b: int) -> bool {
    0 <= a < g.len() && 0 <= b < g.len() && g[a].contains(b as usize)
}

/// Every listed dependency names a node of the graph.
pub open spec fn edges_in_range(g: Seq<Seq<usize>>) -> bool {
    forall|a: int, k: int| 0 <= a < g.len() && 0 <= k < g[a].len() ==> g[a][k] < g.len()
}

/// `order` lists every node exactly once, each after all of its dependencies.
pub open spec fn is_topological_order(g: Seq<Seq<usize>>, order: Seq<usize>) -> bool {
    &&& order.len() == g.len()
    &&& order.no_duplicates()
    &&& forall|i: int| 0 <= i < order.len() ==> order[i] < g.len()
    &&& forall|i: int, j: int|
        0 <= i < order.len() && 0 <= j < order.len() && has_edge(g, order[i] as int, order[j] as int)
            ==> j < i
}

/// `c` is a non-empty cycle: each element depends on the next, the last one on the first.
pub open spec fn is_cycle(g: Seq<Seq<usize>>, c: Seq<usize>) -> bool {
    &&& c.len() > 0
    &&& forall|i: int|
        0 <= i < c.len() ==> #[trigger] has_edge(g, c[i] as int, c[(i + 1) % (c.len() as int)] as int)
}

pub open spec fn is_acyclic(g: Seq<Seq<usize>>) -> bool {
    !exists|c: Seq<usize>| is_cycle(g, c)
}

/// The nodes `0..n`.
pub open spec fn below(n: nat) -> Set<usize>
    decreases n,
{
    if n == 0 {
        Set::empty()
    } else {
        below((n - 1) as nat).insert((n - 1) as usize)
    }
}

proof fn lemma_below(n: nat)
    requires
        n <= usize::MAX + 1,
    ensures
        below(n).finite(),
        below(n).len() == n,
        forall|v: usize| #[trigger] below(n).contains(v) <==> (v as nat) < n,
    decreases n,
{
    if n > 0 {
        lemma_below((n - 1) as nat);
    }
}

/// A duplicate-free sequence of nodes below `n` has at most `n` elements, and exactly `n`
/// only when it holds every one of them.
pub proof fn lemma_distinct_nodes(s: Seq<usize>, n: nat)
    requires
        n <= usize::MAX + 1,
        s.no_duplicates(),
        forall|i: int| 0 <= i < s.len() ==> (s[i] as nat) < n,
    ensures
        s.len() <= n,
        (forall|v: usize| (v as nat) < n ==> s.contains(v)) ==> s.len() == n,
        s.len() == n ==> forall|v: usize| (v as nat) < n ==> s.contains(v),
{
    lemma_below(n);
    s.unique_seq_to_set();
    assert(s.to_set().subset_of(below(n)));
    vstd::set_lib::lemma_len_subset(s.to_set(), below(n));
    if forall|v: usize| (v as nat) < n ==> s.contains(v) {
        assert(below(n).subset_of(s.to_set()));
        vstd::set_lib::lemma_len_subset(below(n), s.to_set());
    }
    if s.len() == n {
        assert forall|v: usize| (v as nat) < n implies s.contains(v) by {
            if !s.contains(v) {
                assert(s.to_set().subset_of(below(n).remove(v)));
                vstd::set_lib::lemma_len_subset(s.to_set(), below(n).remove(v));
            }
        }
    }
}

/// Position of node `x` in an order that holds it.
spec fn position(order: Seq<usize>, x: usize) -> int {
    choose|i: int| 0 <= i < order.len() && order[i] == x
}

/// No graph that has a topological order has a cycle.
pub proof fn lemma_ordered_graph_is_acyclic(g: Seq<Seq<usize>>, order: Seq<usize>)
    requires
        g.len() <= usize::MAX,
        is_topological_order(g, order),
    ensures
        is_acyclic(g),
{
    lemma_distinct_nodes(order, g.len());
    if exists|c: Seq<usize>| is_cycle(g, c) {
        let c = choose|c: Seq<usize>| is_cycle(g, c);
        let len = c.len() as int;
        lemma_cycle_descends(g, order, c, len);
        vstd::arithmetic::div_mod::lemma_mod_self_0(len);
        assert(position(order, c[len % len]) + len <= position(order, c[0]));
    }
}

proof fn lemma_cycle_descends(g: Seq<Seq<usize>>, order: Seq<usize>, c: Seq<usize>, k: int)
    requires
        is_topological_order(g, order),
        forall|v: usize| (v as nat) < g.len() ==> order.contains(v),
        is_cycle(g, c),
        1 <= k <= c.len(),
    ensures
        position(order, c[k % (c.len() as int)]) + k <= position(order, c[0]),
    decreases k,
{
    let len = c.len() as int;
    let i = k - 1;
    vstd::arithmetic::div_mod::lemma_small_mod(i as nat, len as nat);
    assert(has_edge(g, c[i] as int, c[(i + 1) % len] as int));
    let a = c[i];
    let b = c[(i + 1) % len];
    assert(order.contains(a));
    assert(order.contains(b));
    let pa = position(order, a);
    let pb = position(order, b);
    assert(has_edge(g, order[pa] as int, order[pb] as int));
    if k > 1 {
        lemma_cycle_descends(g, order, c, k - 1);
    } else {
        vstd::arithmetic::div_mod::lemma_small_mod(0, len as nat);
    }
}

/// The tail of a duplicate-free walk along edges, whose last node has an edge back to
/// the tail's first node, is a cycle without repeated nodes.
proof fn lemma_suffix_cycle(g: Seq<Seq<usize>>, whole: Seq<usize>, pos: int)
    requires
        0 <= pos < whole.len(),
        whole.no_duplicates(),
        forall|i: int| 0 <= i < whole.len() - 1 ==> #[trigger] has_edge(g, whole[i] as int, whole[i + 1] as int),
        has_edge(g, whole.last() as int, whole[pos] as int),
    ensures
        is_cycle(g, whole.subrange(pos, whole.len() as int)),
        whole.subrange(pos, whole.len() as int).no_duplicates(),
{
    let c = whole.subrange(pos, whole.len() as int);
    assert forall|a: int, b: int| 0 <= a < b < c.len() implies c[a] != c[b] by {
        assert(c[a] == whole[pos + a]);
        assert(c[b] == whole[pos + b]);
    }
    assert forall|j: int| 0 <= j < c.len() implies #[trigger] has_edge(
        g,
        c[j] as int,
        c[(j + 1) % (c.len() as int)] as int,
    ) by {
        if j + 1 < c.len() {
            vstd::arithmetic::div_mod::lemma_small_mod((j + 1) as nat, c.len());
            assert(has_edge(g, whole[pos + j] as int, whole[pos + j + 1] as int));
        } else {
            vstd::arithmetic::div_mod::lemma_mod_self_0(c.len() as int);
        }
    }
}

/// A dependency graph over the nodes `0..len()`, stored as adjacency lists.
pub struct IdGraph {
    deps: Vec<Vec<usize>>,
}

impl IdGraph {
    pub closed spec fn view(&self) -> Seq<Seq<usize>> {
        self.deps@.map_values(|d: Vec<usize>| d@)
    }

    pub open spec fn wf(&self) -> bool {
        edges_in_range(self@)
    }

    pub fn new() -> (r: IdGraph)
        ensures
            r.wf(),
            r@ == Seq::<Seq<usize>>::empty(),
    {
        let r = IdGraph { deps: Vec::new() };
        assert(r@ =~= Seq::<Seq<usize>>::empty());
        r
    }

    pub fn len(&self) -> (r: usize)
        ensures
            r == self@.len(),
    {
        self.deps.len()
    }

    /// Makes sure that `id` is a node of the graph, adding edgeless nodes as needed.
    pub fn add_node(&mut self, id: usize)
        requires
            old(self).wf(),
        ensures
            final(self).wf(),
            final(self)@.len() == (if id < old(self)@.len() { old(self)@.len() as int } else { id + 1 }),
            forall|a: int| 0 <= a < old(self)@.len() ==> final(self)@[a] == old(self)@[a],
            forall|a: int| old(self)@.len() <= a < final(self)@.len() ==> final(self)@[a].len() == 0,
    {
        while self.deps.len() <= id
            invariant
                edges_in_range(self@),
                self@.len() >= old(self)@.len(),
                self@.len() <= (if id < old(self)@.len() { old(self)@.len() as int } else { id + 1 }),
                forall|a: int| 0 <= a < old(self)@.len() ==> self@[a] == old(self)@[a],
                forall|a: int| old(self)@.len() <= a < self@.len() ==> self@[a].len() == 0,
            decreases id + 1 - self.deps.len(),
        {
            let ghost prev = self@;
            self.deps.push(Vec::new());
            assert(self@ =~= prev.push(Seq::<usize>::empty()));
        }
    }

    /// Records that `depender` depends on `dependee`; both become nodes of the graph.
    pub fn add_edge(&mut self, depender: usize, dependee: usize)
        requires
            old(self).wf(),
        ensures
            final(self).wf(),
            final(self)@.len() == vstd::math::max(
                old(self)@.len() as int,
                vstd::math::max(depender + 1, dependee + 1),
            ),
            forall|a: int, b: int|
                has_edge(final(self)@, a, b) <==> (has_edge(old(self)@, a, b) || (a == depender
                    && b == dependee)),
    {
        self.add_node(depender);
        self.add_node(dependee);
        let ghost mid = self@;
        let total0 = self.deps.len();
        assert forall|a: int, b: int| has_edge(mid, a, b) <==> has_edge(old(self)@, a, b) by {
            if has_edge(mid, a, b) && a < old(self)@.len() {
                let m = choose|m: int| 0 <= m < mid[a].len() && mid[a][m] == b as usize;
                assert(old(self)@[a][m] < old(self)@.len());
            }
        }
        let mut k: usize = 0;
        let mut present = false;
        while k < self.deps[depender].len()
            invariant
                self@ == mid,
                depender < self@.len(),
                present <==> exists|m: int| 0 <= m < k && self@[depender as int][m] == dependee,
                k <= self@[depender as int].len(),
            decreases self@[depender as int].len() - k,
        {
            if self.deps[depender][k] == dependee {
                present = true;
            }
            k = k + 1;
        }
        if !present {
            let mut list = self.deps[depender].clone();
            assert(list@ =~= mid[depender as int]);
            list.push(dependee);
            self.deps.set(depender, list);
            assert(self@ =~= mid.update(depender as int, mid[depender as int].push(dependee)));
            let total = self.deps.len();
            assert forall|a: int, b: int|
                has_edge(self@, a, b) <==> (has_edge(mid, a, b) || (a == depender && b
                    == dependee)) by {
                assert(self@.len() == mid.len());
                if a != depender && 0 <= a < self@.len() {
                    assert(self@[a] == mid[a]);
                }
                if a == depender && 0 <= b < self@.len() {
                    let row = mid[a].push(dependee);
                    assert(self@[a] == row);
                    if row.contains(b as usize) {
                        let m = choose|m: int| 0 <= m < row.len() && row[m] == b as usize;
                        if m < mid[a].len() {
                            assert(mid[a][m] == b as usize);
                        }
                    }
                    if mid[a].contains(b as usize) {
                        let m = choose|m: int| 0 <= m < mid[a].len() && mid[a][m] == b as usize;
                        assert(row[m] == b as usize);
                    }
                    if b == dependee {
                        assert(row[mid[a].len() as int] == dependee);
                    }
                }
            }
            assert forall|a: int, k2: int|
                0 <= a < self@.len() && 0 <= k2 < self@[a].len() implies self@[a][k2]
                < self@.len() by {
                if a == depender && k2 == mid[a].len() {
                } else {
                    assert(self@[a][k2] == mid[a][k2]);
                }
            }
            assert forall|a: int, b: int|
                has_edge(self@, a, b) <==> (has_edge(old(self)@, a, b) || (a == depender && b
                    == dependee)) by {
                assert(has_edge(mid, a, b) <==> has_edge(old(self)@, a, b));
                assert(has_edge(self@, a, b) <==> (has_edge(mid, a, b) || (a == depender && b
                    == dependee)));
            }
        } else {
            assert(mid[depender as int].contains(dependee));
        }
    }

    /// Sorts the nodes so that every node comes after all of its dependencies, or returns
    /// one cycle when there is none such order.
    ///
    /// Nodes whose dependencies are all emitted are emitted in turn, until none is left;
    /// among the nodes that never become ready every one still has an unemitted
    /// dependency, and following such dependencies must run into a repetition.
    pub fn topological_sort(&self) -> (r: Result<Vec<usize>, Vec<usize>>)
        requires
            self.wf(),
        ensures
            r matches Ok(order) ==> is_topological_order(self@, order@),
            r matches Err(cycle) ==> is_cycle(self@, cycle@) && cycle@.no_duplicates(),
            is_acyclic(self@) ==> r is Ok,
            !is_acyclic(self@) ==> r is Err,
    {
        let n = self.deps.len();
        let ghost g = self@;
        let mut done: Vec<bool> = Vec::new();
        while done.len() < n
            invariant
                done.len() <= n,
                forall|v: int| 0 <= v < done.len() ==> !done@[v],
            decreases n - done.len(),
        {
            done.push(false);
        }
        let mut order: Vec<usize> = Vec::new();
        let mut stuck = false;
        while !stuck
            invariant
                n == g.len(),
                g == self@,
                edges_in_range(g),
                done.len() == n,
                order@.no_duplicates(),
                forall|i: int| 0 <= i < order.len() ==> order@[i] < n,
                forall|v: int| 0 <= v < n ==> (done@[v] <==> order@.contains(v as usize)),
                forall|i: int, d: int|
                    0 <= i < order.len() && has_edge(g, order@[i] as int, d)
                        ==> order@.subrange(0, i).contains(d as usize),
                stuck ==> forall|v: int|
                    0 <= v < n && !done@[v] ==> exists|d: int| has_edge(g, v, d) && !done@[d],
            decreases n - order.len() + if stuck { 0int } else { 1int },
        {
            proof {
                lemma_distinct_nodes(order@, n as nat);
            }
            let ghost start_len = order.len();
            let mut progress = false;
            let mut v: usize = 0;
            while v < n
                invariant
                    n == g.len(),
                    g == self@,
                    edges_in_range(g),
                    done.len() == n,
                    v <= n,
                    order@.no_duplicates(),
                    forall|i: int| 0 <= i < order.len() ==> order@[i] < n,
                    forall|u: int| 0 <= u < n ==> (done@[u] <==> order@.contains(u as usize)),
                    forall|i: int, d: int|
                        0 <= i < order.len() && has_edge(g, order@[i] as int, d)
                            ==> order@.subrange(0, i).contains(d as usize),
                    order.len() >= start_len,
                    progress <==> order.len() > start_len,
                    !progress ==> forall|u: int|
                        0 <= u < v && !done@[u] ==> exists|d: int| has_edge(g, u, d) && !done@[d],
                decreases n - v,
            {
                if !done[v] {
                    let list = &self.deps[v];
                    let mut k: usize = 0;
                    let mut ready = true;
                    while k < list.len()
                        invariant
                            list@ == g[v as int],
                            v < n,
                            n == g.len(),
                            done.len() == n,
                            edges_in_range(g),
                            k <= list.len(),
                            ready <==> forall|m: int| 0 <= m < k ==> done@[list@[m] as int],
                        decreases list.len() - k,
                    {
                        if !done[list[k]] {
                            ready = false;
                        }
                        k = k + 1;
                    }
                    if ready {
                        let ghost before = order@;
                        proof {
                            assert forall|d: int| has_edge(g, v as int, d) implies before.contains(
                                d as usize,
                            ) by {
                                let m = choose|m: int| 0 <= m < list@.len() && list@[m] == d as usize;
                                assert(done@[list@[m] as int]);
                            }
                        }
                        order.push(v);
                        done.set(v, true);
                        progress = true;
                        proof {
                            assert(order@.subrange(0, before.len() as int) =~= before);
                            assert forall|i: int, d: int|
                                0 <= i < order.len() && has_edge(g, order@[i] as int, d)
                                    implies order@.subrange(0, i).contains(d as usize) by {
                                if i < before.len() {
                                    assert(order@.subrange(0, i) =~= before.subrange(0, i));
                                }
                            }
                            assert forall|u: int| 0 <= u < n implies (done@[u] <==> order@.contains(
                                u as usize,
                            )) by {
                                if u != v {
                                    if order@.contains(u as usize) {
                                        let j = choose|j: int|
                                            0 <= j < order.len() && order@[j] == u as usize;
                                        assert(j < before.len());
                                        assert(before[j] == u as usize);
                                    }
                                    if before.contains(u as usize) {
                                        let j = choose|j: int|
                                            0 <= j < before.len() && before[j] == u as usize;
                                        assert(order@[j] == u as usize);
                                    }
                                } else {
                                    assert(order@[before.len() as int] == v);
                                }
                            }
                        }
                    } else {
                        proof {
                            let m = choose|m: int| 0 <= m < k && !done@[list@[m] as int];
                            assert(has_edge(g, v as int, list@[m] as int));
                        }
                    }
                }
                v = v + 1;
            }
            if !progress {
                stuck = true;
            }
            proof {
                lemma_distinct_nodes(order@, n as nat);
            }
        }
        proof {
            lemma_distinct_nodes(order@, n as nat);
        }
        if order.len() == n {
            proof {
                assert forall|i: int, j: int|
                    0 <= i < order.len() && 0 <= j < order.len() && has_edge(
                        g,
                        order@[i] as int,
                        order@[j] as int,
                    ) implies j < i by {
                    let k = choose|k: int| 0 <= k < i && order@.subrange(0, i)[k] == order@[j];
                    assert(order@[k] == order@[j]);
                }
            }
            proof {
                lemma_ordered_graph_is_acyclic(g, order@);
            }
            return Ok(order);
        }
        // Some node was never emitted: start from it.
        let mut start: usize = 0;
        while start < n && done[start]
            invariant
                start <= n,
                done.len() == n,
                forall|u: int| 0 <= u < start ==> done@[u],
            decreases n - start,
        {
            start = start + 1;
        }
        if start == n {
            proof {
                assert forall|v: usize| (v as nat) < n implies order@.contains(v) by {
                    assert(done@[v as int]);
                }
                lemma_distinct_nodes(order@, n as nat);
            }
            return Ok(order);
        }
        let cycle = self.extract_cycle(&done, start);
        proof {
            assert(is_cycle(g, cycle@));
        }
        Err(cycle)
    }

    /// Follows not-yet-emitted dependencies from `start` until a node repeats, and
    /// returns the cycle found.
    #[verifier::rlimit(100)]
    fn extract_cycle(&self, done: &Vec<bool>, start: usize) -> (cycle: Vec<usize>)
        requires
            self.wf(),
            done.len() == self@.len(),
            start < self@.len(),
            !done@[start as int],
            forall|u: int|
                0 <= u < self@.len() && !done@[u] ==> exists|d: int| has_edge(self@, u, d) && !done@[d],
        ensures
            is_cycle(self@, cycle@),
            cycle@.no_duplicates(),
    {
        let n = self.deps.len();
        let ghost g = self@;
        let mut walk: Vec<usize> = Vec::new();
        walk.push(start);
        let mut id = start;
        loop
            invariant
                n == g.len(),
                g == self@,
                edges_in_range(g),
                done.len() == n,
                walk.len() >= 1,
                walk@.no_duplicates(),
                id == walk@.last(),
                forall|i: int| 0 <= i < walk.len() ==> walk@[i] < n && !done@[walk@[i] as int],
                forall|i: int| 0 <= i < walk.len() - 1 ==> #[trigger] has_edge(g, walk@[i] as int, walk@[i + 1] as int),
                forall|u: int|
                    0 <= u < n && !done@[u] ==> exists|d: int| has_edge(g, u, d) && !done@[d],
            decreases n - walk.len(),
        {
            let list = &self.deps[id];
            let mut k: usize = 0;
            while k < list.len() && done[list[k]]
                invariant
                    list@ == g[id as int],
                    id < n,
                    n == g.len(),
                    done.len() == n,
                    edges_in_range(g),
                    k <= list.len(),
                    forall|m: int| 0 <= m < k ==> done@[list@[m] as int],
                decreases list.len() - k,
            {
                k = k + 1;
            }
            proof {
                let d = choose|d: int| has_edge(g, id as int, d) && !done@[d];
                let m = choose|m: int| 0 <= m < list@.len() && list@[m] == d as usize;
                assert(k <= m);
            }
            let next = list[k];
            let mut pos: usize = 0;
            while pos < walk.len() && walk[pos] != next
                invariant
                    pos <= walk.len(),
                    forall|i: int| 0 <= i < pos ==> walk@[i] != next,
                decreases walk.len() - pos,
            {
                pos = pos + 1;
            }
            if pos < walk.len() {
                let ghost whole = walk@;
                let cycle = walk.split_off(pos);
                proof {
                    lemma_suffix_cycle(g, whole, pos as int);
                }
                return cycle;
            }
            proof {
                lemma_distinct_nodes(walk@, n as nat);
                assert(!walk@.contains(next));
            }
            walk.push(next);
            id = next;
            proof {
                lemma_distinct_nodes(walk@, n as nat);
            }
        }
    }
}

} // verus!
