use vstd::prelude::*;

use crate::geometry::{distance, Point};

verus! {

/// Why an operation on a graph or a path did not succeed.
#[derive(Clone, Copy, Debug, PartialEq, Eq, Structural)]
pub enum GraphError {
    DuplicateId,
    InvalidId,
    InconsistentGraph,
    EmptyGraph,
    SingleNode,
    SameEndpoint,
    EndpointNotFound,
    UnknownNode,
    NoPath,
    NotAdjacent,
}

/// A vertex: its id, where it lies, and the ids it lists as neighbours.
#[derive(Debug)]
pub struct GraphNode {
    pub id: u32,
    pub coords: Point,
    pub children: Vec<u32>,
}

/// An owned collection of nodes with distinct, non-zero ids.
#[derive(Debug)]
pub struct Graph {
    nodes: Vec<GraphNode>,
}

impl View for Graph {
    type V = Seq<GraphNode>;

    closed spec fn view(&self) -> Seq<GraphNode> {
        self.nodes@
    }
}

pub open spec fn ids_unique(s: Seq<GraphNode>) -> bool {
    forall|i: int, j: int| 0 <= i < s.len() && 0 <= j < s.len() && i != j ==> s[i].id != s[j].id
}

pub open spec fn ids_nonzero(s: Seq<GraphNode>) -> bool {
    forall|i: int| 0 <= i < s.len() ==> s[i].id != 0
}

pub open spec fn valid_nodes(s: Seq<GraphNode>) -> bool {
    ids_unique(s) && ids_nonzero(s)
}

/// The position of the node with the given id, or -1 if there is none.
pub open spec fn index_of(s: Seq<GraphNode>, id: u32) -> int
    decreases s.len(),
{
    if s.len() == 0 {
        -1
    } else if s.last().id == id {
        s.len() - 1
    } else {
        index_of(s.drop_last(), id)
    }
}

pub open spec fn has_id(s: Seq<GraphNode>, id: u32) -> bool {
    index_of(s, id) >= 0
}

pub open spec fn node_with(s: Seq<GraphNode>, id: u32) -> GraphNode {
    s[index_of(s, id)]
}

/// Both nodes exist and each lists the other as a neighbour.
pub open spec fn adjacent(s: Seq<GraphNode>, a: u32, b: u32) -> bool {
    has_id(s, a) && has_id(s, b) && node_with(s, a).children@.contains(b) && node_with(
        s,
        b,
    ).children@.contains(a)
}

/// A non-empty sequence of ids of the graph, each consecutive pair adjacent.
pub open spec fn is_walk(s: Seq<GraphNode>, p: Seq<u32>) -> bool {
    &&& p.len() > 0
    &&& forall|i: int| 0 <= i < p.len() ==> has_id(s, #[trigger] p[i])
    &&& forall|i: int| 0 <= i < p.len() - 1 ==> adjacent(s, #[trigger] p[i], p[i + 1])
}

/// The sum of the distances between consecutive nodes of `p`.
pub open spec fn walk_length(s: Seq<GraphNode>, p: Seq<u32>) -> nat
    decreases p.len(),
{
    if p.len() < 2 {
        0
    } else {
        walk_length(s, p.drop_last()) + distance(
            node_with(s, p[p.len() - 2]).coords,
            node_with(s, p.last()).coords,
        )
    }
}

/// Some walk leads from `a` to `b`.
pub open spec fn connected(s: Seq<GraphNode>, a: u32, b: u32) -> bool {
    exists|p: Seq<u32>| is_walk(s, p) && p[0] == a && p.last() == b
}

/// `index_of` is a position holding the id, or -1 when no position does.
pub proof fn lemma_index_of_range(s: Seq<GraphNode>, id: u32)
    ensures
        -1 <= index_of(s, id) < s.len(),
        index_of(s, id) >= 0 ==> s[index_of(s, id)].id == id,
        index_of(s, id) == -1 ==> forall|k: int| 0 <= k < s.len() ==> s[k].id != id,
    decreases s.len(),
{
    if s.len() > 0 && s.last().id != id {
        lemma_index_of_range(s.drop_last(), id);
        if index_of(s, id) == -1 {
            assert forall|k: int| 0 <= k < s.len() implies s[k].id != id by {
                if k < s.len() - 1 {
                    assert(s.drop_last()[k] == s[k]);
                }
            }
        }
    }
}

/// With distinct ids, the one position holding an id is its `index_of`.
pub proof fn lemma_index_of_found(s: Seq<GraphNode>, id: u32, k: int)
    requires
        ids_unique(s),
        0 <= k < s.len(),
        s[k].id == id,
    ensures
        index_of(s, id) == k,
    decreases s.len(),
{
    if s.last().id != id {
        assert(s.drop_last()[k] == s[k]);
        lemma_index_of_found(s.drop_last(), id, k);
    }
}

impl GraphNode {
    pub fn new(id: u32, coords: &Point) -> (r: GraphNode)
        ensures
            r.id == id,
            r.coords == *coords,
            r.children@ == Seq::<u32>::empty(),
    {
        GraphNode { id, coords: *coords, children: Vec::new() }
    }
}

impl PartialEq for GraphNode {
    fn eq(&self, other: &GraphNode) -> (r: bool) {
        self.id == other.id
    }
}

impl vstd::std_specs::cmp::PartialEqSpecImpl for GraphNode {
    open spec fn obeys_eq_spec() -> bool {
        true
    }

    open spec fn eq_spec(&self, other: &GraphNode) -> bool {
        self.id == other.id
    }
}

impl Eq for GraphNode {

}

impl Graph {
    pub open spec fn wf(&self) -> bool {
        valid_nodes(self@)
    }

    /// Builds a graph, refusing a node with id 0 and two nodes with one id.
    pub fn with_nodes(nodes: Vec<GraphNode>) -> (r: Result<Graph, GraphError>)
        ensures
            r is Ok <==> valid_nodes(nodes@),
            r matches Ok(g) ==> g@ == nodes@ && g.wf(),
            r == Err::<Graph, GraphError>(GraphError::InvalidId) <==> !ids_nonzero(nodes@),
            r == Err::<Graph, GraphError>(GraphError::DuplicateId) <==> ids_nonzero(nodes@)
                && !ids_unique(nodes@),
    {
        let n = nodes.len();
        let mut i: usize = 0;
        while i < n
            invariant
                n == nodes@.len(),
                i <= n,
                forall|k: int| 0 <= k < i ==> nodes@[k].id != 0,
            decreases n - i,
        {
            if nodes[i].id == 0 {
                return Err(GraphError::InvalidId);
            }
            i += 1;
        }
        let mut i: usize = 0;
        while i < n
            invariant
                n == nodes@.len(),
                i <= n,
                ids_nonzero(nodes@),
                forall|a: int, b: int| 0 <= a < i && 0 <= b < n && a != b ==> nodes@[a].id != nodes@[b].id,
            decreases n - i,
        {
            let mut j: usize = i + 1;
            while j < n
                invariant
                    n == nodes@.len(),
                    i < n,
                    i < j <= n,
                    ids_nonzero(nodes@),
                    forall|b: int| i < b < j ==> nodes@[i as int].id != nodes@[b].id,
                decreases n - j,
            {
                if nodes[i].id == nodes[j].id {
                    assert(!ids_unique(nodes@)) by {
                        assert(nodes@[i as int].id == nodes@[j as int].id);
                    }
                    return Err(GraphError::DuplicateId);
                }
                j += 1;
            }
            i += 1;
        }
        Ok(Graph { nodes })
    }

    pub fn node_count(&self) -> (r: usize)
        ensures
            r == self@.len(),
    {
        self.nodes.len()
    }

    /// The position of the node with the given id, if there is one.
    pub fn find_index(&self, id: u32) -> (r: Option<usize>)
        requires
            self.wf(),
        ensures
            r matches Some(i) ==> i == index_of(self@, id) && has_id(self@, id) && i < self@.len()
                && self@[i as int].id == id,
            r is None ==> !has_id(self@, id),
    {
        let n = self.nodes.len();
        let mut i: usize = 0;
        while i < n
            invariant
                n == self@.len(),
                self.wf(),
                i <= n,
                forall|k: int| 0 <= k < i ==> self@[k].id != id,
            decreases n - i,
        {
            if self.nodes[i].id == id {
                proof {
                    lemma_index_of_found(self@, id, i as int);
                }
                return Some(i);
            }
            i += 1;
        }
        proof {
            lemma_index_of_range(self@, id);
        }
        None
    }

    /// The node with the given id; id 0 is never a node's id.
    pub fn get_node(&self, id: u32) -> (r: Result<Option<&GraphNode>, GraphError>)
        requires
            self.wf(),
        ensures
            r is Err <==> id == 0,
            r is Err ==> r == Err::<Option<&GraphNode>, GraphError>(GraphError::InvalidId),
            r matches Ok(Some(node)) ==> has_id(self@, id) && *node == node_with(self@, id),
            r matches Ok(None) ==> !has_id(self@, id),
    {
        if id == 0 {
            return Err(GraphError::InvalidId);
        }
        match self.find_index(id) {
            Some(i) => Ok(Some(&self.nodes[i])),
            None => Ok(None),
        }
    }

    /// The node at a position.
    pub fn node_at(&self, i: usize) -> (r: &GraphNode)
        requires
            i < self@.len(),
        ensures
            *r == self@[i as int],
    {
        &self.nodes[i]
    }
}

} // verus!
