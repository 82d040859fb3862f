use vstd::prelude::*;

use crate::node::Node;

verus! {

/// Why a batch of nodes was rejected, or a serialized text refused.
#[derive(Clone, Copy, PartialEq, Eq, Structural, Debug)]
pub enum GraphError {
    /// Two nodes share an identifier.
    DuplicateId,
    /// Some edge names an identifier that no node carries.
    DanglingEdge,
    /// A serialized line misses its identifier or payload token, or a
    /// token does not parse as an integer.
    MalformedLine,
}

/// Some node in the sequence carries the identifier `id`.
pub open spec fn has_id<T>(nodes: Seq<Node<T>>, id: i32) -> bool {
    exists|i: int| 0 <= i < nodes.len() && nodes[i].id == id
}

/// All node identifiers are pairwise distinct.
pub open spec fn ids_distinct<T>(nodes: Seq<Node<T>>) -> bool {
    forall|i: int, j: int|
        0 <= i < j < nodes.len() ==> (#[trigger] nodes[i]).id != (#[trigger] nodes[j]).id
}

/// Every edge target named anywhere equals the identifier of some node.
pub open spec fn edges_valid<T>(nodes: Seq<Node<T>>) -> bool {
    forall|i: int, k: int|
        0 <= i < nodes.len() && 0 <= k < nodes[i].edges@.len() ==> has_id(
            nodes,
            #[trigger] nodes[i].edges@[k],
        )
}

/// Both structural invariants of a graph's node sequence.
pub open spec fn nodes_valid<T>(nodes: Seq<Node<T>>) -> bool {
    edges_valid(nodes) && ids_distinct(nodes)
}

/// An owned, ordered collection of nodes. Construction validates the two
/// structural invariants over the entire node set on every batch append.
pub struct Graph<T> {
    pub nodes: Vec<Node<T>>,
}

impl<T> Graph<T> {
    /// An empty graph.
    pub fn new() -> (g: Graph<T>)
        ensures
            g.nodes@ == Seq::<Node<T>>::empty(),
    {
        Graph { nodes: Vec::new() }
    }

    /// Appends the given nodes in order, then validates both invariants
    /// over the entire resulting node set. On a violation the graph is
    /// left as it was and the batch is refused: a dangling edge is
    /// reported first, a duplicate identifier second.
    pub fn add_nodes(&mut self, nodes: Vec<Node<T>>) -> (r: Result<(), GraphError>)
        ensures
            ({
                let combined = old(self).nodes@ + nodes@;
                match r {
                    Ok(()) => final(self).nodes@ == combined && nodes_valid(combined),
                    Err(GraphError::DanglingEdge) => final(self).nodes@ == old(self).nodes@
                        && !edges_valid(combined),
                    Err(GraphError::DuplicateId) => final(self).nodes@ == old(self).nodes@
                        && edges_valid(combined) && !ids_distinct(combined),
                    Err(GraphError::MalformedLine) => false,
                }
            }),
    {
        let ghost prior = self.nodes@;
        let ghost batch = nodes@;
        let old_len = self.nodes.len();
        let mut nodes = nodes;
        self.nodes.append(&mut nodes);
        assert(self.nodes@ == prior + batch);

        if !check_edges(&self.nodes) {
            self.nodes.truncate(old_len);
            assert(self.nodes@ =~= prior);
            return Err(GraphError::DanglingEdge);
        }
        if !check_ids_distinct(&self.nodes) {
            self.nodes.truncate(old_len);
            assert(self.nodes@ =~= prior);
            return Err(GraphError::DuplicateId);
        }
        Ok(())
    }
}

/// Whether some node in the vector carries the identifier `id`.
fn contains_id<T>(nodes: &Vec<Node<T>>, id: i32) -> (found: bool)
    ensures
        found == has_id(nodes@, id),
{
    let n = nodes.len();
    let mut i: usize = 0;
    while i < n
        invariant
            i <= n,
            n == nodes@.len(),
            forall|j: int| 0 <= j < i ==> (#[trigger] nodes@[j]).id != id,
        decreases n - i,
    {
        if nodes[i].id == id {
            return true;
        }
        i += 1;
    }
    false
}

fn check_edges<T>(nodes: &Vec<Node<T>>) -> (ok: bool)
    ensures
        ok == edges_valid(nodes@),
{
    let n = nodes.len();
    let mut i: usize = 0;
    while i < n
        invariant
            i <= n,
            n == nodes@.len(),
            forall|ii: int, kk: int|
                0 <= ii < i && 0 <= kk < nodes@[ii].edges@.len() ==> has_id(
                    nodes@,
                    #[trigger] nodes@[ii].edges@[kk],
                ),
        decreases n - i,
    {
        let m = nodes[i].edges.len();
        let mut k: usize = 0;
        while k < m
            invariant
                i < n,
                k <= m,
                n == nodes@.len(),
                m == nodes@[i as int].edges@.len(),
                forall|kk: int| 0 <= kk < k ==> has_id(nodes@, #[trigger] nodes@[i as int].edges@[kk]),
            decreases m - k,
        {
            let target = nodes[i].edges[k];
            if !contains_id(nodes, target) {
                return false;
            }
            k += 1;
        }
        i += 1;
    }
    true
}

fn check_ids_distinct<T>(nodes: &Vec<Node<T>>) -> (ok: bool)
    ensures
        ok == ids_distinct(nodes@),
{
    let n = nodes.len();
    let mut i: usize = 0;
    while i < n
        invariant
            i <= n,
            n == nodes@.len(),
            forall|ii: int, jj: int|
                0 <= ii < jj < nodes@.len() && ii < i ==> (#[trigger] nodes@[ii]).id
                    != (#[trigger] nodes@[jj]).id,
        decreases n - i,
    {
        let mut j: usize = i + 1;
        while j < n
            invariant
                i < n,
                i < j <= n,
                n == nodes@.len(),
                forall|jj: int| i < jj < j ==> (#[trigger] nodes@[jj]).id != nodes@[i as int].id,
            decreases n - j,
        {
            if nodes[j].id == nodes[i].id {
                return false;
            }
            j += 1;
        }
        i += 1;
    }
    true
}

/// Uniqueness law: a node sequence holding two entries with an equal
/// identifier never validates, so `add_nodes` refuses every batch whose
/// combined node set holds such a pair.
pub proof fn lemma_duplicate_id_invalid<T>(nodes: Seq<Node<T>>, i: int, j: int)
    requires
        0 <= i < nodes.len(),
        0 <= j < nodes.len(),
        i != j,
        nodes[i].id == nodes[j].id,
    ensures
        !nodes_valid(nodes),
{
    if i < j {
        assert(!ids_distinct(nodes));
    } else {
        assert(!ids_distinct(nodes));
    }
}

/// Edge-validity law: a node sequence in which some edge names an
/// identifier that no node carries never validates, so `add_nodes`
/// refuses every batch whose combined node set holds such an edge.
pub proof fn lemma_dangling_edge_invalid<T>(nodes: Seq<Node<T>>, i: int, k: int)
    requires
        0 <= i < nodes.len(),
        0 <= k < nodes[i].edges@.len(),
        !has_id(nodes, nodes[i].edges@[k]),
    ensures
        !nodes_valid(nodes),
{
    assert(!edges_valid(nodes));
}

} // verus!
