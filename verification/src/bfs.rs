use vstd::prelude::*;

use std::collections::HashMap;
use std::collections::VecDeque;

use crate::graph::{has_id, nodes_valid, Graph};
use crate::node::Node;

verus! {

broadcast use vstd::std_specs::hash::group_hash_axioms;

/// The graph holds a node with identifier `a` whose edge list names `b`.
pub open spec fn step_edge<T>(nodes: Seq<Node<T>>, a: i32, b: i32) -> bool {
    exists|i: int| 0 <= i < nodes.len() && nodes[i].id == a && nodes[i].edges@.contains(b)
}

/// `id` can be reached from `start` along at most `n` outbound edges.
pub open spec fn reachable_within<T>(nodes: Seq<Node<T>>, start: i32, id: i32, n: nat) -> bool
    decreases n,
{
    id == start || (n > 0 && exists|mid: i32|
        reachable_within(nodes, start, mid, (n - 1) as nat) && step_edge(nodes, mid, id))
}

/// `id` can be reached from `start` along outbound edges, directly or
/// transitively; every identifier reaches itself.
pub open spec fn reachable<T>(nodes: Seq<Node<T>>, start: i32, id: i32) -> bool {
    exists|n: nat| reachable_within(nodes, start, id, n)
}

/// The position of the node carrying `id`; meaningful when `has_id` holds.
pub open spec fn index_of_id<T>(nodes: Seq<Node<T>>, id: i32) -> int {
    choose|i: int| 0 <= i < nodes.len() && nodes[i].id == id
}

/// The edge list of the node carrying `id`; meaningful when `has_id` holds.
pub open spec fn edges_of<T>(nodes: Seq<Node<T>>, id: i32) -> Seq<i32> {
    nodes[index_of_id(nodes, id)].edges@
}

/// Extending a walk by one edge keeps the target reachable.
pub proof fn lemma_reachable_step<T>(nodes: Seq<Node<T>>, start: i32, a: i32, b: i32)
    requires
        reachable(nodes, start, a),
        step_edge(nodes, a, b),
    ensures
        reachable(nodes, start, b),
{
    let n = choose|n: nat| reachable_within(nodes, start, a, n);
    assert(reachable_within(nodes, start, b, n + 1));
}

/// Every set that holds `start` and is closed under outbound edges holds
/// every identifier reachable from `start`.
pub proof fn lemma_closed_set_covers<T>(
    nodes: Seq<Node<T>>,
    start: i32,
    dom: Set<i32>,
    id: i32,
    n: nat,
)
    requires
        dom.contains(start),
        forall|a: i32, b: i32|
            dom.contains(a) && #[trigger] step_edge(nodes, a, b) ==> dom.contains(b),
        reachable_within(nodes, start, id, n),
    ensures
        dom.contains(id),
    decreases n,
{
    if id != start {
        let mid = choose|mid: i32|
            reachable_within(nodes, start, mid, (n - 1) as nat) && step_edge(nodes, mid, id);
        lemma_closed_set_covers(nodes, start, dom, mid, (n - 1) as nat);
    }
}

/// The set of identifiers the nodes carry.
pub open spec fn id_set<T>(nodes: Seq<Node<T>>) -> Set<i32> {
    nodes.map(|i: int, n: Node<T>| n.id).to_set()
}

proof fn lemma_id_set_bound<T>(nodes: Seq<Node<T>>)
    ensures
        id_set(nodes).finite(),
        id_set(nodes).len() <= nodes.len(),
        forall|id: i32| has_id(nodes, id) ==> #[trigger] id_set(nodes).contains(id),
{
    let ids = nodes.map(|i: int, n: Node<T>| n.id);
    vstd::seq_lib::seq_to_set_is_finite(ids);
    ids.lemma_cardinality_of_set();
    assert forall|id: i32| has_id(nodes, id) implies #[trigger] id_set(nodes).contains(id) by {
        let i = choose|i: int| 0 <= i < nodes.len() && nodes[i].id == id;
        assert(ids[i] == id);
        assert(ids.contains(id));
    }
}

impl<T> Graph<T> {
    fn index_of(&self, id: i32) -> (idx: usize)
        requires
            has_id(self.nodes@, id),
        ensures
            idx < self.nodes@.len(),
            self.nodes@[idx as int].id == id,
    {
        let n = self.nodes.len();
        let mut i: usize = 0;
        while i < n
            invariant
                i <= n,
                n == self.nodes@.len(),
                has_id(self.nodes@, id),
                forall|j: int| 0 <= j < i ==> (#[trigger] self.nodes@[j]).id != id,
            decreases n - i,
        {
            if self.nodes[i].id == id {
                return i;
            }
            i += 1;
        }
        proof {
            let w = choose|w: int| 0 <= w < self.nodes@.len() && self.nodes@[w].id == id;
            assert(false);
        }
        unreached()
    }

    /// Walks the graph from `start` with a first-in-first-out queue and
    /// returns, for every identifier reachable from `start`, that node's
    /// full outbound edge list, keyed by the literal identifier. A target
    /// may be enqueued more than once, but is recorded only on its first
    /// visit, so the walk terminates on cyclic graphs too.
    pub fn breadth_first_search(&self, start: i32) -> (visited: HashMap<i32, Vec<i32>>)
        requires
            nodes_valid(self.nodes@),
            has_id(self.nodes@, start),
        ensures
            forall|id: i32| #[trigger] visited@.contains_key(id) <==> reachable(
                self.nodes@,
                start,
                id,
            ),
            forall|id: i32| #[trigger] visited@.contains_key(id) ==> visited@[id]@ == edges_of(
                self.nodes@,
                id,
            ),
    {
        let ghost ns = self.nodes@;
        let mut visited: HashMap<i32, Vec<i32>> = HashMap::new();
        let mut queue: VecDeque<i32> = VecDeque::new();
        queue.push_back(start);
        proof {
            assert(reachable_within(ns, start, start, 0));
            assert(queue@[0] == start);
            assert(queue@.contains(start));
            lemma_id_set_bound(ns);
        }
        while queue.len() != 0
            invariant
                ns == self.nodes@,
                nodes_valid(ns),
                has_id(ns, start),
                forall|id: i32| #[trigger] visited@.contains_key(id) ==> reachable(ns, start, id)
                    && has_id(ns, id) && visited@[id]@ == edges_of(ns, id),
                forall|q: int| 0 <= q < queue@.len() ==> reachable(ns, start, #[trigger] queue@[q])
                    && has_id(ns, queue@[q]),
                visited@.contains_key(start) || queue@.contains(start),
                forall|id: i32, k: int|
                    #[trigger] visited@.contains_key(id) && 0 <= k < edges_of(ns, id).len()
                        ==> visited@.contains_key(#[trigger] edges_of(ns, id)[k])
                        || queue@.contains(edges_of(ns, id)[k]),
                visited@.dom().subset_of(id_set(ns)),
                visited@.dom().len() <= ns.len(),
            decreases ns.len() - visited@.dom().len(), queue@.len(),
        {
            let ghost q0 = queue@;
            let node = queue.pop_front().unwrap();
            proof {
                assert(node == q0[0]);
                assert(queue@ == q0.subrange(1, q0.len() as int));
                assert forall|x: i32| q0.contains(x) implies x == node || queue@.contains(x) by {
                    let qi = choose|qi: int| 0 <= qi < q0.len() && q0[qi] == x;
                    if qi != 0 {
                        assert(queue@[qi - 1] == x);
                    }
                }
            }
            if !visited.contains_key(&node) {
                let idx = self.index_of(node);
                proof {
                    let w = index_of_id(ns, node);
                    if w != idx as int {
                        assert(ns[w].id == ns[idx as int].id);
                        assert(false);
                    }
                }
                let edge_list = copy_edge_list(&self.nodes[idx].edges);
                visited.insert(node, edge_list);
                proof {
                    lemma_id_set_bound(ns);
                    vstd::set_lib::lemma_len_subset(visited@.dom(), id_set(ns));
                }
                let ghost dom_snapshot = visited@.dom();
                let m = self.nodes[idx].edges.len();
                let mut k: usize = 0;
                while k < m
                    invariant
                        ns == self.nodes@,
                        nodes_valid(ns),
                        idx < ns.len(),
                        ns[idx as int].id == node,
                        idx as int == index_of_id(ns, node),
                        m == ns[idx as int].edges@.len(),
                        k <= m,
                        visited@.dom() == dom_snapshot,
                        visited@.contains_key(node),
                        reachable(ns, start, node),
                        forall|id: i32| #[trigger] visited@.contains_key(id) ==> reachable(
                            ns,
                            start,
                            id,
                        ) && has_id(ns, id) && visited@[id]@ == edges_of(ns, id),
                        forall|q: int|
                            0 <= q < queue@.len() ==> reachable(ns, start, #[trigger] queue@[q])
                                && has_id(ns, queue@[q]),
                        visited@.contains_key(start) || queue@.contains(start),
                        forall|id: i32, kk: int|
                            #[trigger] visited@.contains_key(id) && 0 <= kk < edges_of(
                                ns,
                                id,
                            ).len() && (id != node || kk < k) ==> visited@.contains_key(
                                #[trigger] edges_of(ns, id)[kk],
                            ) || queue@.contains(edges_of(ns, id)[kk]),
                    decreases m - k,
                {
                    let target = self.nodes[idx].edges[k];
                    proof {
                        assert(ns[idx as int].edges@.contains(target));
                        assert(step_edge(ns, node, target));
                        lemma_reachable_step(ns, start, node, target);
                        assert(has_id(ns, target));
                    }
                    let ghost qsnap = queue@;
                    queue.push_back(target);
                    proof {
                        assert(queue@ == qsnap.push(target));
                        assert(forall|q: int| 0 <= q < qsnap.len() ==> queue@[q] == qsnap[q]);
                        assert(queue@[qsnap.len() as int] == target);
                        assert(forall|x: i32| qsnap.contains(x) ==> queue@.contains(x));
                        assert(queue@.contains(target));
                    }
                    k += 1;
                }
            }
        }
        proof {
            assert forall|id: i32| reachable(ns, start, id) implies #[trigger] visited@.contains_key(
                id,
            ) by {
                let dom = visited@.dom();
                assert forall|a: i32, b: i32|
                    dom.contains(a) && #[trigger] step_edge(ns, a, b) implies dom.contains(b) by {
                    let i = choose|i: int| 0 <= i < ns.len() && ns[i].id == a && ns[i].edges@.contains(
                        b,
                    );
                    let w = index_of_id(ns, a);
                    if w != i {
                        assert(ns[w].id == ns[i].id);
                        assert(false);
                    }
                    let kk = choose|kk: int| 0 <= kk < ns[i].edges@.len() && ns[i].edges@[kk] == b;
                    assert(edges_of(ns, a)[kk] == b);
                }
                let n = choose|n: nat| reachable_within(ns, start, id, n);
                lemma_closed_set_covers(ns, start, dom, id, n);
            }
        }
        visited
    }
}

fn copy_edge_list(edges: &Vec<i32>) -> (r: Vec<i32>)
    ensures
        r@ == edges@,
{
    let n = edges.len();
    let mut r: Vec<i32> = Vec::new();
    let mut i: usize = 0;
    while i < n
        invariant
            i <= n,
            n == edges@.len(),
            r@ == edges@.subrange(0, i as int),
        decreases n - i,
    {
        r.push(edges[i]);
        assert(r@ =~= edges@.subrange(0, (i + 1) as int));
        i += 1;
    }
    assert(r@ =~= edges@);
    r
}

} // verus!
