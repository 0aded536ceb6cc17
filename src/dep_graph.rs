use vstd::prelude::*;

use crate::catalog::AssetId;
use crate::graph::{is_cycle, is_topological_order, IdGraph};

verus! {

/// A dependency graph whose nodes are asset paths.
pub struct DepGraph {
    names: Vec<String>,
    graph: IdGraph,
}

impl DepGraph {
    /// The node names, by node number.
    pub closed spec fn names(&self) -> Seq<Seq<char>> {
        self.names@.map_values(|s: String| s@)
    }

    /// The edges, by node number (see `IdGraph`).
    pub closed spec fn edges(&self) -> Seq<Seq<usize>> {
        self.graph@
    }

    /// No two nodes share a name.
    pub open spec fn names_distinct(&self) -> bool {
        forall|i: int, j: int|
            0 <= i < self.names().len() && 0 <= j < self.names().len() && i != j ==> self.names()[i]
                != self.names()[j]
    }

    /// `final_names` keeps `old_names` as a prefix and adds only the given names.
    pub open spec fn extends_with(
        old_names: Seq<Seq<char>>,
        final_names: Seq<Seq<char>>,
        a: Seq<char>,
        b: Seq<char>,
    ) -> bool {
        &&& old_names.len() <= final_names.len()
        &&& forall|i: int| 0 <= i < old_names.len() ==> #[trigger] final_names[i] == old_names[i]
        &&& forall|i: int|
            old_names.len() <= i < final_names.len() ==> #[trigger] final_names[i] == a
                || final_names[i] == b
    }

    pub closed spec fn wf(&self) -> bool {
        &&& self.graph.wf()
        &&& self.names@.len() == self.graph@.len()
        &&& forall|i: int, j: int|
            0 <= i < self.names@.len() && 0 <= j < self.names@.len() && i != j
                ==> self.names@[i]@ != self.names@[j]@
    }

    pub fn new() -> (r: DepGraph)
        ensures
            r.wf(),
            r.names().len() == 0,
            r.edges().len() == 0,
    {
        DepGraph { names: Vec::new(), graph: IdGraph::new() }
    }

    /// The number of the node called `name`, added if it is not there yet.
    fn node(&mut self, name: &str) -> (r: usize)
        requires
            old(self).wf(),
        ensures
            final(self).wf(),
            r < final(self).names().len(),
            final(self).names()[r as int] == name@,
            final(self).names() == old(self).names() || final(self).names() == old(self).names().push(
                name@,
            ),
            forall|a: int, b: int|
                crate::graph::has_edge(final(self).edges(), a, b) <==> crate::graph::has_edge(
                    old(self).edges(),
                    a,
                    b,
                ),
            final(self).edges().len() == final(self).names().len(),
    {
        let key = name.to_owned();
        let mut i: usize = 0;
        while i < self.names.len()
            invariant
                self.wf(),
                *self == *old(self),
                key@ == name@,
                i <= self.names@.len(),
                forall|k: int| 0 <= k < i ==> self.names@[k]@ != key@,
            decreases self.names@.len() - i,
        {
            if self.names[i] == key {
                assert(self.names()[i as int] == name@);
                return i;
            }
            i = i + 1;
        }
        let id = self.names.len();
        let ghost before = self.graph@;
        self.graph.add_node(id);
        self.names.push(key);
        proof {
            assert(self.names() =~= old(self).names().push(name@));
            assert forall|a: int, b: int|
                crate::graph::has_edge(self.graph@, a, b) <==> crate::graph::has_edge(
                    before,
                    a,
                    b,
                ) by {
                if crate::graph::has_edge(self.graph@, a, b) && a < before.len() {
                    let m = choose|m: int|
                        0 <= m < self.graph@[a].len() && self.graph@[a][m] == b as usize;
                    assert(before[a][m] < before.len());
                }
            }
        }
        id
    }

    /// Makes sure that `name` takes part in the sort, with or without edges.
    pub fn add_asset(&mut self, name: &str)
        requires
            old(self).wf(),
        ensures
            final(self).wf(),
            final(self).names().contains(name@),
            final(self).names() == old(self).names() || final(self).names() == old(self).names().push(
                name@,
            ),
            final(self).names_distinct(),
            final(self).edges().len() == final(self).names().len(),
            forall|a: int, b: int|
                crate::graph::has_edge(final(self).edges(), a, b) <==> crate::graph::has_edge(
                    old(self).edges(),
                    a,
                    b,
                ),
    {
        let i = self.node(name);
        assert(self.names()[i as int] == name@);
        proof {
            lemma_distinct(self);
        }
    }

    /// Records that `depender` depends on `dependee`.
    pub fn add_dependency(&mut self, depender: &str, dependee: &str)
        requires
            old(self).wf(),
        ensures
            final(self).wf(),
            final(self).names().contains(depender@),
            final(self).names().contains(dependee@),
            final(self).names_distinct(),
            final(self).edges().len() == final(self).names().len(),
            DepGraph::extends_with(old(self).names(), final(self).names(), depender@, dependee@),
            forall|a: int, b: int|
                crate::graph::has_edge(final(self).edges(), a, b) <==> (crate::graph::has_edge(
                    old(self).edges(),
                    a,
                    b,
                ) || (0 <= a < final(self).names().len() && 0 <= b < final(self).names().len()
                    && final(self).names()[a] == depender@ && final(self).names()[b]
                    == dependee@)),
    {
        let a = self.node(depender);
        let b = self.node(dependee);
        proof {
            if self.names() == old(self).names().push(dependee@) {
                assert(self.names()[a as int] == depender@);
            }
        }
        let ghost mid = self.graph@;
        self.graph.add_edge(a, b);
        assert(self.names()[a as int] == depender@);
        assert(self.names()[b as int] == dependee@);
        assert(crate::graph::has_edge(self.edges(), a as int, b as int));
        proof {
            lemma_distinct(self);
            assert forall|x: int, y: int|
                crate::graph::has_edge(self.edges(), x, y) <==> (crate::graph::has_edge(
                    old(self).edges(),
                    x,
                    y,
                ) || (0 <= x < self.names().len() && 0 <= y < self.names().len()
                    && self.names()[x] == depender@ && self.names()[y] == dependee@)) by {
                if 0 <= x < self.names().len() && self.names()[x] == depender@ {
                    assert(x == a);
                }
                if 0 <= y < self.names().len() && self.names()[y] == dependee@ {
                    assert(y == b);
                }
                assert(crate::graph::has_edge(mid, x, y) <==> crate::graph::has_edge(old(self).edges(), x, y));
            }
        }
    }

    /// Names of the given nodes, in the same order.
    fn names_of(&self, ids: &Vec<usize>) -> (r: Vec<String>)
        requires
            forall|k: int| 0 <= k < ids.len() ==> ids@[k] < self.names@.len(),
        ensures
            r@.len() == ids@.len(),
            forall|k: int| 0 <= k < ids.len() ==> r@[k]@ == self.names()[ids@[k] as int],
    {
        let mut r: Vec<String> = Vec::new();
        let mut k: usize = 0;
        while k < ids.len()
            invariant
                k <= ids.len(),
                r@.len() == k,
                forall|m: int| 0 <= m < ids.len() ==> ids@[m] < self.names@.len(),
                forall|m: int| 0 <= m < k ==> r@[m]@ == self.names()[ids@[m] as int],
            decreases ids.len() - k,
        {
            r.push(self.names[ids[k]].clone());
            k = k + 1;
        }
        r
    }

    /// Names in an order in which every asset comes after its dependencies, or the names
    /// along one cycle, each depending on the next and the last on the first.
    pub fn topological_sort(&self) -> (r: Result<Vec<String>, Vec<String>>)
        requires
            self.wf(),
        ensures
            r matches Ok(order) ==> exists|ids: Seq<usize>|
                is_topological_order(self.edges(), ids) && order@.len() == ids.len() && forall|
                    k: int,
                | 0 <= k < ids.len() ==> #[trigger] order@[k]@ == self.names()[ids[k] as int],
            r matches Err(cycle) ==> exists|ids: Seq<usize>|
                is_cycle(self.edges(), ids) && ids.no_duplicates() && cycle@.len() == ids.len()
                    && forall|k: int|
                    0 <= k < ids.len() ==> #[trigger] cycle@[k]@ == self.names()[ids[k] as int],
            r matches Err(cycle) ==> forall|a: int, b: int|
                0 <= a < b < cycle@.len() ==> cycle@[a]@ != cycle@[b]@,
            r is Ok <==> crate::graph::is_acyclic(self.edges()),
            self.names_distinct(),
            self.edges().len() == self.names().len(),
    {
        proof {
            lemma_distinct(self);
        }
        match self.graph.topological_sort() {
            Ok(ids) => {
                let order = self.names_of(&ids);
                assert(is_topological_order(self.edges(), ids@));
                Ok(order)
            },
            Err(ids) => {
                proof {
                    let len = ids@.len() as int;
                    assert forall|k: int| 0 <= k < len implies ids@[k] < self.graph@.len() by {
                        assert(crate::graph::has_edge(
                            self.graph@,
                            ids@[k] as int,
                            ids@[(k + 1) % len] as int,
                        ));
                    }
                }
                let cycle = self.names_of(&ids);
                assert(is_cycle(self.edges(), ids@));
                proof {
                    lemma_distinct(self);
                    assert forall|a: int, b: int| 0 <= a < b < cycle@.len() implies cycle@[a]@ != cycle@[b]@ by {
                        assert(ids@[a] != ids@[b]);
                    }
                }
                Err(cycle)
            },
        }
    }
}

proof fn lemma_distinct(g: &DepGraph)
    requires
        g.wf(),
    ensures
        g.names_distinct(),
        g.edges().len() == g.names().len(),
{
    assert forall|i: int, j: int|
        0 <= i < g.names().len() && 0 <= j < g.names().len() && i != j implies g.names()[i]
        != g.names()[j] by {
        assert(g.names@[i]@ != g.names@[j]@);
    }
}

/// A dependency graph whose nodes are asset ids: an asset depends on the assets it
/// includes.
pub struct IncludeGraph {
    keys: Vec<u32>,
    graph: IdGraph,
}

impl IncludeGraph {
    /// The asset ids, by node number.
    pub closed spec fn keys(&self) -> Seq<u32> {
        self.keys@
    }

    /// The edges, by node number (see `IdGraph`).
    pub closed spec fn edges(&self) -> Seq<Seq<usize>> {
        self.graph@
    }

    pub closed spec fn wf(&self) -> bool {
        &&& self.graph.wf()
        &&& self.keys@.len() == self.graph@.len()
        &&& self.keys@.no_duplicates()
    }

    pub fn new() -> (r: IncludeGraph)
        ensures
            r.wf(),
            r.keys().len() == 0,
            r.edges().len() == 0,
    {
        IncludeGraph { keys: Vec::new(), graph: IdGraph::new() }
    }

    fn node(&mut self, id: AssetId) -> (r: usize)
        requires
            old(self).wf(),
        ensures
            final(self).wf(),
            r < final(self).keys().len(),
            final(self).keys()[r as int] == id.0,
            final(self).keys() == old(self).keys() || final(self).keys() == old(self).keys().push(id.0),
            forall|a: int, b: int|
                crate::graph::has_edge(final(self).edges(), a, b) <==> crate::graph::has_edge(
                    old(self).edges(),
                    a,
                    b,
                ),
    {
        let mut i: usize = 0;
        while i < self.keys.len()
            invariant
                self.wf(),
                *self == *old(self),
                i <= self.keys@.len(),
                forall|k: int| 0 <= k < i ==> self.keys@[k] != id.0,
            decreases self.keys@.len() - i,
        {
            if self.keys[i] == id.0 {
                return i;
            }
            i = i + 1;
        }
        let n = self.keys.len();
        let ghost before = self.graph@;
        self.graph.add_node(n);
        self.keys.push(id.0);
        proof {
            assert forall|a: int, b: int|
                crate::graph::has_edge(self.graph@, a, b) <==> crate::graph::has_edge(
                    before,
                    a,
                    b,
                ) by {
                if crate::graph::has_edge(self.graph@, a, b) && a < before.len() {
                    let m = choose|m: int|
                        0 <= m < self.graph@[a].len() && self.graph@[a][m] == b as usize;
                    assert(before[a][m] < before.len());
                }
            }
        }
        n
    }

    /// Records that `includer` includes `includee`.
    pub fn add_include(&mut self, includer: AssetId, includee: AssetId)
        requires
            old(self).wf(),
        ensures
            final(self).wf(),
            final(self).keys().no_duplicates(),
            final(self).edges().len() == final(self).keys().len(),
            final(self).keys().contains(includer.0),
            final(self).keys().contains(includee.0),
            old(self).keys().len() <= final(self).keys().len(),
            forall|i: int| 0 <= i < old(self).keys().len() ==> #[trigger] final(self).keys()[i] == old(self).keys()[i],
            forall|i: int|
                old(self).keys().len() <= i < final(self).keys().len() ==> #[trigger] final(self).keys()[i]
                    == includer.0 || final(self).keys()[i] == includee.0,
            forall|a: int, b: int|
                crate::graph::has_edge(final(self).edges(), a, b) <==> (crate::graph::has_edge(
                    old(self).edges(),
                    a,
                    b,
                ) || (0 <= a < final(self).keys().len() && 0 <= b < final(self).keys().len()
                    && final(self).keys()[a] == includer.0 && final(self).keys()[b] == includee.0)),
    {
        let a = self.node(includer);
        let b = self.node(includee);
        let ghost mid = self.graph@;
        self.graph.add_edge(a, b);
        assert(self.keys()[a as int] == includer.0);
        assert(self.keys()[b as int] == includee.0);
        assert(crate::graph::has_edge(self.edges(), a as int, b as int));
        proof {
            assert forall|x: int, y: int|
                crate::graph::has_edge(self.edges(), x, y) <==> (crate::graph::has_edge(
                    old(self).edges(),
                    x,
                    y,
                ) || (0 <= x < self.keys().len() && 0 <= y < self.keys().len()
                    && self.keys()[x] == includer.0 && self.keys()[y] == includee.0)) by {
                if 0 <= x < self.keys().len() && self.keys()[x] == includer.0 {
                    assert(self.keys@[x] == self.keys@[a as int]);
                }
                if 0 <= y < self.keys().len() && self.keys()[y] == includee.0 {
                    assert(self.keys@[y] == self.keys@[b as int]);
                }
                assert(crate::graph::has_edge(mid, x, y) <==> crate::graph::has_edge(old(self).edges(), x, y));
            }
        }
    }

    fn ids_of(&self, nodes: &Vec<usize>) -> (r: Vec<AssetId>)
        requires
            forall|k: int| 0 <= k < nodes.len() ==> nodes@[k] < self.keys@.len(),
        ensures
            r@.len() == nodes@.len(),
            forall|k: int| 0 <= k < nodes.len() ==> r@[k].0 == self.keys()[nodes@[k] as int],
    {
        let mut r: Vec<AssetId> = Vec::new();
        let mut k: usize = 0;
        while k < nodes.len()
            invariant
                k <= nodes.len(),
                r@.len() == k,
                forall|m: int| 0 <= m < nodes.len() ==> nodes@[m] < self.keys@.len(),
                forall|m: int| 0 <= m < k ==> r@[m].0 == self.keys()[nodes@[m] as int],
            decreases nodes.len() - k,
        {
            r.push(AssetId(self.keys[nodes[k]]));
            k = k + 1;
        }
        r
    }

    /// Ids in an order in which every asset comes after the assets it includes, or the ids
    /// along one cycle, each including the next and the last the first.
    pub fn topological_sort(&self) -> (r: Result<Vec<AssetId>, Vec<AssetId>>)
        requires
            self.wf(),
        ensures
            r matches Ok(order) ==> exists|ids: Seq<usize>|
                is_topological_order(self.edges(), ids) && order@.len() == ids.len() && forall|
                    k: int,
                | 0 <= k < ids.len() ==> #[trigger] order@[k].0 == self.keys()[ids[k] as int],
            r matches Err(cycle) ==> exists|ids: Seq<usize>|
                is_cycle(self.edges(), ids) && ids.no_duplicates() && cycle@.len() == ids.len()
                    && forall|k: int|
                    0 <= k < ids.len() ==> #[trigger] cycle@[k].0 == self.keys()[ids[k] as int],
            r matches Err(cycle) ==> forall|a: int, b: int|
                0 <= a < b < cycle@.len() ==> cycle@[a].0 != cycle@[b].0,
            r is Ok <==> crate::graph::is_acyclic(self.edges()),
            self.keys().no_duplicates(),
            self.edges().len() == self.keys().len(),
    {
        match self.graph.topological_sort() {
            Ok(ids) => {
                let order = self.ids_of(&ids);
                assert(is_topological_order(self.edges(), ids@));
                Ok(order)
            },
            Err(ids) => {
                proof {
                    let len = ids@.len() as int;
                    assert forall|k: int| 0 <= k < len implies ids@[k] < self.graph@.len() by {
                        assert(crate::graph::has_edge(
                            self.graph@,
                            ids@[k] as int,
                            ids@[(k + 1) % len] as int,
                        ));
                    }
                }
                let cycle = self.ids_of(&ids);
                assert(is_cycle(self.edges(), ids@));
                proof {
                    assert forall|a: int, b: int| 0 <= a < b < cycle@.len() implies cycle@[a].0 != cycle@[b].0 by {
                        assert(ids@[a] != ids@[b]);
                        assert(self.keys@[ids@[a] as int] != self.keys@[ids@[b] as int]);
                    }
                }
                Err(cycle)
            },
        }
    }
}

} // verus!
