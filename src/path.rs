use vstd::prelude::*;

use crate::geometry::{distance, scaled_distance, step_bound};
use crate::graph::{
    adjacent, has_id, index_of, is_walk, node_with, valid_nodes, walk_length, Graph, GraphError,
    GraphNode,
};

verus! {

/// A walk through a graph that the path owns, with its length in
/// millionths of a unit.
pub struct Path {
    graph: Graph,
    ids: Vec<u32>,
    length: u128,
}

/// Whether `x` is among the elements of `v`.
pub fn list_contains(v: &Vec<u32>, x: u32) -> (r: bool)
    ensures
        r == v@.contains(x),
{
    let n = v.len();
    let mut i: usize = 0;
    while i < n
        invariant
            n == v@.len(),
            i <= n,
            forall|k: int| 0 <= k < i ==> v@[k] != x,
        decreases n - i,
    {
        if v[i] == x {
            assert(v@[i as int] == x);
            return true;
        }
        i += 1;
    }
    false
}

impl Path {
    pub closed spec fn graph_view(&self) -> Seq<GraphNode> {
        self.graph@
    }

    pub closed spec fn ids_view(&self) -> Seq<u32> {
        self.ids@
    }

    pub closed spec fn length_view(&self) -> nat {
        self.length as nat
    }

    pub open spec fn wf(&self) -> bool {
        &&& valid_nodes(self.graph_view())
        &&& self.ids_view().len() > 0 ==> is_walk(self.graph_view(), self.ids_view())
        &&& self.length_view() == walk_length(self.graph_view(), self.ids_view())
        &&& self.length_view() <= self.ids_view().len() * step_bound()
    }

    /// An empty path over `graph`.
    pub fn new(graph: Graph) -> (r: Path)
        requires
            graph.wf(),
        ensures
            r.wf(),
            r.graph_view() == graph@,
            r.ids_view() == Seq::<u32>::empty(),
            r.length_view() == 0,
    {
        Path { graph, ids: Vec::new(), length: 0 }
    }

    /// Appends `id` when the graph holds it and, unless the path is empty,
    /// it and the current end list each other as neighbours.
    pub fn try_push_node(&mut self, id: u32) -> (r: Result<(), GraphError>)
        requires
            old(self).wf(),
        ensures
            final(self).wf(),
            final(self).graph_view() == old(self).graph_view(),
            r is Ok <==> has_id(old(self).graph_view(), id) && (old(self).ids_view().len() == 0
                || adjacent(old(self).graph_view(), old(self).ids_view().last(), id)),
            r is Ok ==> final(self).ids_view() == old(self).ids_view().push(id),
            r is Err ==> final(self).ids_view() == old(self).ids_view(),
            r == Err::<(), GraphError>(GraphError::UnknownNode) <==> !has_id(
                old(self).graph_view(),
                id,
            ),
            r == Err::<(), GraphError>(GraphError::NotAdjacent) <==> has_id(
                old(self).graph_view(),
                id,
            ) && old(self).ids_view().len() > 0 && !adjacent(
                old(self).graph_view(),
                old(self).ids_view().last(),
                id,
            ),
    {
        let ghost g = self.graph@;
        let ghost p = self.ids@;
        let j = match self.graph.find_index(id) {
            Some(j) => j,
            None => return Err(GraphError::UnknownNode),
        };
        let n = self.ids.len();
        if n == 0 {
            self.ids.push(id);
            proof {
                assert(self.ids@[0] == id);
            }
            return Ok(());
        }
        let last = self.ids[n - 1];
        assert(has_id(g, p[n - 1]));
        let i = match self.graph.find_index(last) {
            Some(i) => i,
            None => return Err(GraphError::UnknownNode),
        };
        let a = self.graph.node_at(i);
        let b = self.graph.node_at(j);
        if !(list_contains(&a.children, id) && list_contains(&b.children, last)) {
            return Err(GraphError::NotAdjacent);
        }
        let d = scaled_distance(&a.coords, &b.coords);
        assert(self.length + d < (n + 1) * step_bound());
        self.length = self.length + d as u128;
        self.ids.push(id);
        proof {
            let q = self.ids@;
            assert(q.drop_last() =~= p);
            assert(q[q.len() - 2] == last);
            assert forall|k: int| 0 <= k < q.len() implies has_id(g, #[trigger] q[k]) by {
                if k < n {
                    assert(q[k] == p[k]);
                }
            }
            assert forall|k: int| 0 <= k < q.len() - 1 implies adjacent(g, #[trigger] q[k], q[k + 1]) by {
                if k < n - 1 {
                    assert(q[k] == p[k] && q[k + 1] == p[k + 1]);
                }
            }
        }
        Ok(())
    }

    /// Appends `id`; when the path is not empty, the caller owes that it and
    /// the current end list each other as neighbours.
    pub fn push_node(&mut self, id: u32) -> (r: Result<(), GraphError>)
        requires
            old(self).wf(),
            old(self).ids_view().len() > 0 ==> adjacent(
                old(self).graph_view(),
                old(self).ids_view().last(),
                id,
            ),
        ensures
            final(self).wf(),
            final(self).graph_view() == old(self).graph_view(),
            r is Ok <==> has_id(old(self).graph_view(), id),
            r is Ok ==> final(self).ids_view() == old(self).ids_view().push(id),
            r is Err ==> r == Err::<(), GraphError>(GraphError::UnknownNode),
            r is Err ==> final(self).ids_view() == old(self).ids_view(),
    {
        self.try_push_node(id)
    }

    /// The ids of the path, first to last.
    pub fn node_ids(&self) -> (r: Vec<u32>)
        ensures
            r@ == self.ids_view(),
    {
        let r = self.ids.clone();
        assert(r@ =~= self.ids@);
        r
    }

    /// The sum of the distances between consecutive nodes, in millionths of
    /// a unit.
    pub fn length(&self) -> (r: u128)
        ensures
            r as nat == self.length_view(),
    {
        self.length
    }

    pub fn start_id(&self) -> (r: Option<u32>)
        ensures
            r == (if self.ids_view().len() == 0 {
                None::<u32>
            } else {
                Some(self.ids_view()[0])
            }),
    {
        if self.ids.len() == 0 {
            None
        } else {
            Some(self.ids[0])
        }
    }

    pub fn end_id(&self) -> (r: Option<u32>)
        ensures
            r == (if self.ids_view().len() == 0 {
                None::<u32>
            } else {
                Some(self.ids_view().last())
            }),
    {
        let n = self.ids.len();
        if n == 0 {
            None
        } else {
            Some(self.ids[n - 1])
        }
    }

    /// Gives the graph back, dropping the walk.
    pub fn reclaim_graph(self) -> (r: Graph)
        requires
            self.wf(),
        ensures
            r@ == self.graph_view(),
            r.wf(),
    {
        self.graph
    }
}

} // verus!
