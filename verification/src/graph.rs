//! A generic directed graph: nodes carry data of type `T`, edges carry
//! weights of type `E`.
//!
//! Node identifiers are handed out densely (the `k`-th added node gets id
//! `k`), edges are simple (no self-loops, at most one edge per ordered
//! pair), and traversal order follows each node's adjacency row in
//! insertion order.

use vstd::prelude::*;
use vstd::set_lib::{lemma_len_subset, lemma_int_range, set_int_range};

verus! {

pub type NodeId = usize;

/// One node: its identifier plus the caller's payload.
pub struct Node<T> {
    pub id: NodeId,
    pub data: T,
}

#[derive(Debug, Clone, PartialEq)]
pub enum GraphError {
    NodeDoesNotExist(NodeId),
    EdgeAlreadyExists(NodeId, NodeId),
    SelfLoopNotAllowed,
    CycleDetected,
}

/// Some entry of an adjacency row points at `to`.
pub open spec fn row_has_target<E>(row: Seq<(NodeId, E)>, to: NodeId) -> bool {
    exists|j: int| 0 <= j < row.len() && (#[trigger] row[j]).0 == to
}

/// The position of the entry pointing at `to` (meaningful when one exists
/// and the row's targets are distinct).
pub open spec fn row_target_index<E>(row: Seq<(NodeId, E)>, to: NodeId) -> int {
    choose|j: int| 0 <= j < row.len() && (#[trigger] row[j]).0 == to
}

/// With distinct targets, the entry pointing at `row[j].0` is the entry
/// at `j`.
proof fn lemma_row_target_index<E>(row: Seq<(NodeId, E)>, j: int)
    requires
        forall|a: int, b: int| 0 <= a < b < row.len() ==> (#[trigger] row[a]).0 != (
        #[trigger] row[b]).0,
        0 <= j < row.len(),
    ensures
        row_target_index(row, row[j].0) == j,
        row_has_target(row, row[j].0),
{
    let to = row[j].0;
    assert(row_has_target(row, to));
    let j2 = row_target_index(row, to);
    assert(0 <= j2 < row.len() && row[j2].0 == to);
}

/// Well-formedness of an adjacency structure for `n` nodes: every target
/// an existing node, no self-loops, distinct targets per row.
pub open spec fn adj_wf<E>(n: nat, adj: Seq<Seq<(NodeId, E)>>) -> bool {
    &&& forall|i: int, j: int|
        0 <= i < adj.len() && 0 <= j < adj[i].len() ==> (#[trigger] adj[i][j]).0 < n
    &&& forall|i: int, j: int|
        0 <= i < adj.len() && 0 <= j < adj[i].len() ==> (#[trigger] adj[i][j]).0 != i
    &&& forall|i: int, a: int, b: int|
        0 <= i < adj.len() && 0 <= a < b < adj[i].len() ==> (#[trigger] adj[i][a]).0 != (
        #[trigger] adj[i][b]).0
}

/// Overwriting one edge's weight, keeping its target, preserves the
/// adjacency invariant.
proof fn lemma_adj_wf_update_weight<E>(n: nat, adj: Seq<Seq<(NodeId, E)>>, i: int, j: int, w: E)
    requires
        adj_wf(n, adj),
        0 <= i < adj.len(),
        0 <= j < adj[i].len(),
    ensures
        adj_wf(n, adj.update(i, adj[i].update(j, (adj[i][j].0, w)))),
{
    let adj2 = adj.update(i, adj[i].update(j, (adj[i][j].0, w)));
    assert forall|i2: int, j2: int|
        0 <= i2 < adj2.len() && 0 <= j2 < adj2[i2].len() implies (#[trigger] adj2[i2][j2]).0
        == adj[i2][j2].0 by {}
}

/// A sequence of distinct node identifiers below `n` has at most `n`
/// elements.
proof fn lemma_distinct_bounded(p: Seq<NodeId>, n: int)
    requires
        p.no_duplicates(),
        forall|k: int| 0 <= k < p.len() ==> (#[trigger] p[k]) < n,
        0 <= n,
    ensures
        p.len() <= n,
{
    let f = |x: NodeId| x as int;
    let q = p.map_values(f);
    p.lemma_no_duplicates_injective(f);
    q.unique_seq_to_set();
    assert(q.to_set().subset_of(set_int_range(0, n))) by {
        assert forall|y: int| q.to_set().contains(y) implies set_int_range(0, n).contains(y) by {
            let k = choose|k: int| 0 <= k < q.len() && q[k] == y;
            assert(p[k] < n);
        }
    }
    lemma_int_range(0, n);
    lemma_len_subset(q.to_set(), set_int_range(0, n));
}

/// A directed graph over dense node identifiers.
pub struct Graph<T, E> {
    nodes: Vec<Node<T>>,
    adjacency_list: Vec<Vec<(NodeId, E)>>,
}

impl<T, E> Graph<T, E> {
    /// The nodes, in identifier order.
    pub closed spec fn nodes_seq(&self) -> Seq<Node<T>> {
        self.nodes@
    }

    /// The number of nodes; identifiers `0..node_count()` are exactly the
    /// existing nodes.
    pub open spec fn node_count(&self) -> nat {
        self.nodes_seq().len()
    }

    /// The adjacency rows: for each node, its outgoing edges in insertion
    /// order.
    pub closed spec fn adjacency(&self) -> Seq<Seq<(NodeId, E)>> {
        Seq::new(self.adjacency_list@.len(), |i: int| self.adjacency_list@[i]@)
    }

    /// There is an edge from `a` to `b`.
    pub open spec fn spec_has_edge(&self, a: int, b: int) -> bool {
        &&& 0 <= a < self.node_count()
        &&& 0 <= b < self.node_count()
        &&& row_has_target(self.adjacency()[a], b as NodeId)
    }

    /// The weight of the edge from `a` to `b` (meaningful when it exists).
    pub open spec fn spec_edge_weight(&self, a: int, b: int) -> E {
        self.adjacency()[a][row_target_index(self.adjacency()[a], b as NodeId)].1
    }

    /// The graph's internal invariant: one adjacency row per node, node
    /// ids dense, every edge target an existing node, no self-loops, and
    /// at most one edge per ordered pair.
    pub closed spec fn wf(&self) -> bool {
        &&& self.adjacency().len() == self.node_count()
        &&& forall|i: int|
            0 <= i < self.node_count() ==> (#[trigger] self.nodes_seq()[i]).id == i
        &&& adj_wf(self.node_count(), self.adjacency())
    }

    pub fn new() -> (r: Self)
        ensures
            r.wf(),
            r.node_count() == 0,
            r.adjacency() == Seq::<Seq<(NodeId, E)>>::empty(),
    {
        let r = Graph { nodes: Vec::new(), adjacency_list: Vec::new() };
        proof {
            assert(r.adjacency() =~= Seq::<Seq<(NodeId, E)>>::empty());
        }
        r
    }

    /// Adds a node holding `data` and returns its identifier: the next
    /// dense id. The new node has no edges yet.
    pub fn add_node(&mut self, data: T) -> (r: NodeId)
        requires
            old(self).wf(),
        ensures
            final(self).wf(),
            r == old(self).node_count(),
            final(self).node_count() == old(self).node_count() + 1,
            final(self).nodes_seq() == old(self).nodes_seq().push(Node { id: r, data }),
            final(self).adjacency() == old(self).adjacency().push(Seq::<(NodeId, E)>::empty()),
    {
        let node_id = self.nodes.len();
        self.nodes.push(Node { id: node_id, data });
        self.adjacency_list.push(Vec::new());
        proof {
            assert(self.adjacency() =~= old(self).adjacency().push(Seq::<(NodeId, E)>::empty()));
        }
        node_id
    }

    /// The position in `node_id_1`'s row of the edge to `node_id_2`, if
    /// that edge exists.
    fn edge_position(&self, node_id_1: NodeId, node_id_2: NodeId) -> (r: Option<usize>)
        requires
            self.wf(),
            node_id_1 < self.node_count(),
        ensures
            match r {
                Some(j) => j < self.adjacency()[node_id_1 as int].len()
                    && self.adjacency()[node_id_1 as int][j as int].0 == node_id_2,
                None => !row_has_target(self.adjacency()[node_id_1 as int], node_id_2),
            },
    {
        let row = &self.adjacency_list[node_id_1];
        let mut j: usize = 0;
        while j < row.len()
            invariant
                row@ == self.adjacency()[node_id_1 as int],
                j <= row@.len(),
                forall|k: int| 0 <= k < j ==> (#[trigger] row@[k]).0 != node_id_2,
            decreases row@.len() - j,
        {
            if row[j].0 == node_id_2 {
                return Some(j);
            }
            j = j + 1;
        }
        None
    }

    /// Inserts a directed edge from `node_id_1` to `node_id_2`. Rejects a
    /// self-loop first, then a missing endpoint (reporting `node_id_1` in
    /// preference to `node_id_2`), then a duplicate edge.
    pub fn add_edge(&mut self, node_id_1: NodeId, node_id_2: NodeId, edge_weight: E) -> (r: Result<
        (),
        GraphError,
    >)
        requires
            old(self).wf(),
        ensures
            final(self).wf(),
            final(self).nodes_seq() == old(self).nodes_seq(),
            node_id_1 == node_id_2 ==> r == Err::<(), GraphError>(GraphError::SelfLoopNotAllowed)
                && final(self).adjacency() == old(self).adjacency(),
            node_id_1 != node_id_2 && node_id_1 >= old(self).node_count() ==> r == Err::<
                (),
                GraphError,
            >(GraphError::NodeDoesNotExist(node_id_1)) && final(self).adjacency() == old(self).adjacency(),
            node_id_1 != node_id_2 && node_id_1 < old(self).node_count() && node_id_2 >= old(self).node_count() ==> r == Err::<(), GraphError>(
                GraphError::NodeDoesNotExist(node_id_2),
            ) && final(self).adjacency() == old(self).adjacency(),
            node_id_1 != node_id_2 && node_id_1 < old(self).node_count() && node_id_2 < old(self).node_count() && old(self).spec_has_edge(node_id_1 as int, node_id_2 as int) ==> r
                == Err::<(), GraphError>(GraphError::EdgeAlreadyExists(node_id_1, node_id_2))
                && final(self).adjacency() == old(self).adjacency(),
            node_id_1 != node_id_2 && node_id_1 < old(self).node_count() && node_id_2 < old(self).node_count() && !old(self).spec_has_edge(node_id_1 as int, node_id_2 as int) ==> r
                == Ok::<(), GraphError>(()) && final(self).adjacency() == old(self).adjacency().update(
                node_id_1 as int,
                old(self).adjacency()[node_id_1 as int].push((node_id_2, edge_weight)),
            ),
    {
        if node_id_1 == node_id_2 {
            return Err(GraphError::SelfLoopNotAllowed);
        }
        if node_id_1 >= self.nodes.len() {
            return Err(GraphError::NodeDoesNotExist(node_id_1));
        }
        if node_id_2 >= self.nodes.len() {
            return Err(GraphError::NodeDoesNotExist(node_id_2));
        }
        match self.edge_position(node_id_1, node_id_2) {
            Some(_) => Err(GraphError::EdgeAlreadyExists(node_id_1, node_id_2)),
            None => {
                self.adjacency_list[node_id_1].push((node_id_2, edge_weight));
                proof {
                    assert(self.adjacency() =~= old(self).adjacency().update(
                        node_id_1 as int,
                        old(self).adjacency()[node_id_1 as int].push((node_id_2, edge_weight)),
                    ));
                }
                Ok(())
            },
        }
    }

    /// The node with identifier `node_id`, if it exists.
    pub fn get_node(&self, node_id: NodeId) -> (r: Option<&Node<T>>)
        ensures
            r.is_some() == (node_id < self.node_count()),
            r.is_some() ==> *r.unwrap() == self.nodes_seq()[node_id as int],
    {
        if node_id < self.nodes.len() {
            Some(&self.nodes[node_id])
        } else {
            None
        }
    }

    /// Mutable access to the node with identifier `node_id`. The graph's
    /// invariant survives as long as the caller leaves `id` alone.
    pub fn get_node_mut(&mut self, node_id: NodeId) -> (r: Option<&mut Node<T>>)
        requires
            old(self).wf(),
        ensures
            r.is_some() == (node_id < old(self).node_count()),
            r.is_none() ==> final(self).nodes_seq() == old(self).nodes_seq() && final(self).adjacency() == old(self).adjacency() && final(self).wf(),
            r.is_some() ==> *r.unwrap() == old(self).nodes_seq()[node_id as int] && final(self).nodes_seq() == old(self).nodes_seq().update(node_id as int, *final(r.unwrap()))
                && final(self).adjacency() == old(self).adjacency() && (final(r.unwrap()).id
                == node_id ==> final(self).wf()),
    {
        if node_id < self.nodes.len() {
            Some(&mut self.nodes[node_id])
        } else {
            None
        }
    }

    /// The weight of the edge from `node_id_1` to `node_id_2`, if that
    /// edge exists.
    pub fn get_edge_weight(&self, node_id_1: NodeId, node_id_2: NodeId) -> (r: Option<&E>)
        requires
            self.wf(),
        ensures
            r.is_some() == self.spec_has_edge(node_id_1 as int, node_id_2 as int),
            r.is_some() ==> *r.unwrap() == self.spec_edge_weight(node_id_1 as int, node_id_2 as int),
    {
        if node_id_1 >= self.nodes.len() {
            return None;
        }
        match self.edge_position(node_id_1, node_id_2) {
            Some(j) => {
                proof {
                    lemma_row_target_index(self.adjacency()[node_id_1 as int], j as int);
                }
                Some(&self.adjacency_list[node_id_1][j].1)
            },
            None => None,
        }
    }

    /// Mutable access to the weight of the edge from `node_id_1` to
    /// `node_id_2`, if that edge exists.
    pub fn get_edge_weight_mut(&mut self, node_id_1: NodeId, node_id_2: NodeId) -> (r: Option<
        &mut E,
    >)
        requires
            old(self).wf(),
        ensures
            final(self).wf(),
            final(self).nodes_seq() == old(self).nodes_seq(),
            r.is_some() == old(self).spec_has_edge(node_id_1 as int, node_id_2 as int),
            r.is_none() ==> final(self).adjacency() == old(self).adjacency(),
            r.is_some() ==> *r.unwrap() == old(self).spec_edge_weight(
                node_id_1 as int,
                node_id_2 as int,
            ) && final(self).adjacency() == old(self).adjacency().update(
                node_id_1 as int,
                old(self).adjacency()[node_id_1 as int].update(
                    row_target_index(old(self).adjacency()[node_id_1 as int], node_id_2),
                    (node_id_2, *final(r.unwrap())),
                ),
            ),
    {
        if node_id_1 >= self.nodes.len() {
            return None;
        }
        match self.edge_position(node_id_1, node_id_2) {
            Some(j) => {
                proof {
                    lemma_row_target_index(self.adjacency()[node_id_1 as int], j as int);
                    assert forall|w: E|
                        adj_wf(
                            self.node_count(),
                            self.adjacency().update(
                                node_id_1 as int,
                                self.adjacency()[node_id_1 as int].update(
                                    j as int,
                                    (node_id_2, w),
                                ),
                            ),
                        ) by {
                        lemma_adj_wf_update_weight(
                            self.node_count(),
                            self.adjacency(),
                            node_id_1 as int,
                            j as int,
                            w,
                        );
                    }
                }
                let row = &mut self.adjacency_list[node_id_1];
                let entry = &mut row[j];
                let res = &mut entry.1;
                proof {
                    assert(after_borrow(*self).adjacency() =~= old(self).adjacency().update(
                        node_id_1 as int,
                        old(self).adjacency()[node_id_1 as int].update(
                            j as int,
                            (node_id_2, *final(res)),
                        ),
                    ));
                    assert(adj_wf(after_borrow(*self).node_count(), after_borrow(*self).adjacency()));
                }
                Some(res)
            },
            None => None,
        }
    }

    /// `p` is a walk: nonempty, within bounds, and consecutive nodes are
    /// joined by edges.
    pub open spec fn is_walk(&self, p: Seq<NodeId>) -> bool {
        &&& p.len() > 0
        &&& forall|k: int| 0 <= k < p.len() ==> (#[trigger] p[k]) < self.node_count()
        &&& forall|k: int|
            0 <= k < p.len() - 1 ==> self.spec_has_edge(#[trigger] p[k] as int, p[k + 1] as int)
    }

    /// Some walk leads from `from` to `to` (in particular every existing
    /// node reaches itself).
    pub open spec fn reachable(&self, from: NodeId, to: NodeId) -> bool {
        exists|p: Seq<NodeId>| self.is_walk(p) && p.first() == from && p.last() == to
    }

    /// Every existing node reaches itself by the one-node walk.
    proof fn lemma_reachable_refl(&self, a: NodeId)
        requires
            a < self.node_count(),
        ensures
            self.reachable(a, a),
    {
        let p = seq![a];
        assert(self.is_walk(p) && p.first() == a && p.last() == a);
    }

    /// Reachability extends along an edge.
    proof fn lemma_reachable_step(&self, a: NodeId, b: NodeId, c: NodeId)
        requires
            self.reachable(a, b),
            self.spec_has_edge(b as int, c as int),
        ensures
            self.reachable(a, c),
    {
        let p = choose|p: Seq<NodeId>|
            self.is_walk(p) && p.first() == a && p.last() == b;
        let p2 = p.push(c);
        assert forall|k: int| 0 <= k < p2.len() - 1 implies self.spec_has_edge(
            #[trigger] p2[k] as int,
            p2[k + 1] as int,
        ) by {
            if k < p.len() - 1 {
                assert(p2[k] == p[k] && p2[k + 1] == p[k + 1]);
            } else {
                assert(p2[k] == b && p2[k + 1] == c);
            }
        }
        assert(self.is_walk(p2) && p2.first() == a && p2.last() == c);
    }

    /// A set that contains a walk's first node and is closed under edges
    /// contains the walk's last node.
    proof fn lemma_walk_closed(&self, w: Seq<NodeId>, s: Set<NodeId>)
        requires
            self.is_walk(w),
            s.contains(w.first()),
            forall|a: NodeId, b: NodeId|
                s.contains(a) && self.spec_has_edge(a as int, b as int) ==> s.contains(b),
        ensures
            s.contains(w.last()),
        decreases w.len(),
    {
        if w.len() > 1 {
            assert(self.spec_has_edge(w[0] as int, w[1] as int));
            let w2 = w.subrange(1, w.len() as int);
            assert(s.contains(w2.first()));
            assert forall|k: int| 0 <= k < w2.len() - 1 implies self.spec_has_edge(
                #[trigger] w2[k] as int,
                w2[k + 1] as int,
            ) by {
                assert(w2[k] == w[k + 1] && w2[k + 1] == w[k + 2]);
            }
            self.lemma_walk_closed(w2, s);
            assert(w2.last() == w.last());
        }
    }

    /// Breadth-first traversal from `start_id`: visits exactly the nodes
    /// reachable from `start_id`, each once, beginning with `start_id`
    /// itself, level by level through the adjacency rows.
    pub fn bfs(&self, start_id: NodeId) -> (r: Result<Vec<NodeId>, GraphError>)
        requires
            self.wf(),
        ensures
            r.is_ok() == (start_id < self.node_count()),
            !r.is_ok() ==> r == Err::<Vec<NodeId>, GraphError>(
                GraphError::NodeDoesNotExist(start_id),
            ),
            match r {
                Ok(order) => {
                    &&& order@.len() > 0 && order@[0] == start_id
                    &&& order@.no_duplicates()
                    &&& forall|k: int|
                        0 <= k < order@.len() ==> self.reachable(start_id, #[trigger] order@[k])
                    &&& forall|x: NodeId| self.reachable(start_id, x) ==> order@.contains(x)
                },
                Err(_) => true,
            },
    {
        if start_id >= self.nodes.len() {
            return Err(GraphError::NodeDoesNotExist(start_id));
        }
        let n = self.nodes.len();
        let mut visited: Vec<bool> = vec![false; n];
        let mut queue: std::collections::VecDeque<NodeId> = std::collections::VecDeque::new();
        let mut order: Vec<NodeId> = Vec::new();

        queue.push_back(start_id);
        visited[start_id] = true;
        proof {
            self.lemma_reachable_refl(start_id);
            assert(queue@ == seq![start_id]);
            assert forall|x: NodeId|
                (x as int) < n && visited@[x as int] implies (order@.contains(x)
                    || queue@.contains(x)) by {
                if x == start_id {
                    assert(queue@[0] == start_id);
                }
            }
        }

        while queue.len() > 0
            invariant
                self.wf(),
                n == self.node_count(),
                start_id < n,
                visited@.len() == n,
                visited@[start_id as int],
                forall|k: int|
                    0 <= k < queue@.len() ==> (#[trigger] queue@[k]) < n && visited@[queue@[k] as int]
                        && self.reachable(start_id, queue@[k]),
                forall|k: int|
                    0 <= k < order@.len() ==> (#[trigger] order@[k]) < n && visited@[order@[k] as int]
                        && self.reachable(start_id, order@[k]),
                forall|x: NodeId|
                    (x as int) < n && visited@[x as int] ==> (order@.contains(x)
                        || queue@.contains(x)),
                order@.no_duplicates(),
                queue@.no_duplicates(),
                forall|x: NodeId| !(order@.contains(x) && queue@.contains(x)),
                forall|k: int, e: int|
                    0 <= k < order@.len() && 0 <= e < self.adjacency()[order@[k] as int].len()
                        ==> visited@[(#[trigger] self.adjacency()[order@[k] as int][e]).0 as int],
                order@.len() == 0 ==> queue@ == seq![start_id],
                order@.len() > 0 ==> order@[0] == start_id,
            decreases n - order@.len(),
        {
            let ghost order_pre = order@;
            let ghost queue_pre = queue@;
            let node_id = queue.pop_front().unwrap();
            order.push(node_id);
            proof {
                assert forall|x: NodeId|
                    (x as int) < n && visited@[x as int] implies (order@.contains(x)
                        || queue@.contains(x)) by {
                    if queue_pre.contains(x) {
                        let k = choose|k: int| 0 <= k < queue_pre.len() && queue_pre[k] == x;
                        if k == 0 {
                            assert(order@[order@.len() - 1] == x);
                        } else {
                            assert(queue@[k - 1] == x);
                        }
                    } else {
                        assert(order_pre.contains(x));
                        let k = choose|k: int| 0 <= k < order_pre.len() && order_pre[k] == x;
                        assert(order@[k] == x);
                    }
                }
                assert forall|x: NodeId| !(order@.contains(x) && queue@.contains(x)) by {
                    if order@.contains(x) && queue@.contains(x) {
                        let k = choose|k: int| 0 <= k < queue@.len() && queue@[k] == x;
                        assert(queue_pre[k + 1] == x);
                        let k2 = choose|k2: int| 0 <= k2 < order@.len() && order@[k2] == x;
                        if k2 < order_pre.len() {
                            assert(order_pre[k2] == x);
                        } else {
                            assert(x == node_id);
                            assert(queue_pre[0] == x);
                        }
                    }
                }
                assert forall|j: int, k: int|
                    0 <= j < k < queue@.len() implies queue@[j] != queue@[k] by {
                    assert(queue_pre[j + 1] == queue@[j] && queue_pre[k + 1] == queue@[k]);
                }
            }
            let row_len = self.adjacency_list[node_id].len();
            let mut e: usize = 0;
            while e < row_len
                invariant
                    self.wf(),
                    n == self.node_count(),
                    start_id < n,
                    node_id < n,
                    self.reachable(start_id, node_id),
                    row_len == self.adjacency()[node_id as int].len(),
                    e <= row_len,
                    visited@.len() == n,
                    visited@[start_id as int],
                    visited@[node_id as int],
                    order@.len() > 0 && order@[order@.len() - 1] == node_id,
                    order@[0] == start_id,
                    forall|k: int|
                        0 <= k < queue@.len() ==> (#[trigger] queue@[k]) < n && visited@[queue@[k] as int]
                            && self.reachable(start_id, queue@[k]),
                    forall|k: int|
                        0 <= k < order@.len() ==> (#[trigger] order@[k]) < n && visited@[order@[k] as int]
                            && self.reachable(start_id, order@[k]),
                    forall|x: NodeId|
                        (x as int) < n && visited@[x as int] ==> (order@.contains(x)
                            || queue@.contains(x)),
                    order@.no_duplicates(),
                    queue@.no_duplicates(),
                    forall|x: NodeId| !(order@.contains(x) && queue@.contains(x)),
                    forall|k: int, e2: int|
                        0 <= k < order@.len() - 1 && 0 <= e2 < self.adjacency()[order@[k] as int].len()
                            ==> visited@[(#[trigger] self.adjacency()[order@[k] as int][e2]).0 as int],
                    forall|e2: int|
                        0 <= e2 < e ==> visited@[(#[trigger] self.adjacency()[node_id as int][e2]).0 as int],
                decreases row_len - e,
            {
                let nbr = self.adjacency_list[node_id][e].0;
                proof {
                    assert(self.adjacency()[node_id as int][e as int].0 == nbr);
                    assert(self.spec_has_edge(node_id as int, nbr as int)) by {
                        assert(row_has_target(self.adjacency()[node_id as int], nbr));
                    }
                    self.lemma_reachable_step(start_id, node_id, nbr);
                }
                if !visited[nbr] {
                    let ghost queue_pre2 = queue@;
                    visited[nbr] = true;
                    queue.push_back(nbr);
                    proof {
                        assert forall|x: NodeId|
                            (x as int) < n && visited@[x as int] implies (order@.contains(x)
                                || queue@.contains(x)) by {
                            if x == nbr {
                                assert(queue@[queue@.len() - 1] == x);
                            } else {
                                if queue_pre2.contains(x) {
                                    let k = choose|k: int|
                                        0 <= k < queue_pre2.len() && queue_pre2[k] == x;
                                    assert(queue@[k] == x);
                                }
                            }
                        }
                        assert forall|x: NodeId|
                            !(order@.contains(x) && queue@.contains(x)) by {
                            if order@.contains(x) && queue@.contains(x) {
                                let k = choose|k: int| 0 <= k < queue@.len() && queue@[k] == x;
                                if k < queue_pre2.len() {
                                    assert(queue_pre2[k] == x);
                                } else {
                                    assert(x == nbr);
                                }
                            }
                        }
                        assert forall|j: int, k: int|
                            0 <= j < k < queue@.len() implies queue@[j] != queue@[k] by {
                            if k < queue_pre2.len() {
                                assert(queue_pre2[j] == queue@[j] && queue_pre2[k] == queue@[k]);
                            } else {
                                assert(queue@[k] == nbr);
                                assert(queue_pre2[j] == queue@[j]);
                            }
                        }
                    }
                }
                e = e + 1;
            }
            proof {
                lemma_distinct_bounded(order@, n as int);
            }
        }
        proof {
            let s = Set::new(|y: NodeId| order@.contains(y));
            assert forall|a: NodeId, b: NodeId|
                s.contains(a) && self.spec_has_edge(a as int, b as int) implies s.contains(b) by {
                let k = choose|k: int| 0 <= k < order@.len() && order@[k] == a;
                let row = self.adjacency()[a as int];
                let e = row_target_index(row, b);
                assert(0 <= e < row.len() && row[e].0 == b);
                assert(visited@[b as int]);
            }
            assert(s.contains(start_id));
            assert forall|x: NodeId| self.reachable(start_id, x) implies order@.contains(x) by {
                let w = choose|w: Seq<NodeId>|
                    self.is_walk(w) && w.first() == start_id && w.last() == x;
                self.lemma_walk_closed(w, s);
            }
            assert(order@.contains(start_id));
        }
        Ok(order)
    }

    /// Depth-first traversal from `start_id`: visits exactly the nodes
    /// reachable from `start_id`, each once, beginning with `start_id`
    /// itself, following each adjacency row depth-first.
    pub fn dfs(&self, start_id: NodeId) -> (r: Result<Vec<NodeId>, GraphError>)
        requires
            self.wf(),
        ensures
            r.is_ok() == (start_id < self.node_count()),
            !r.is_ok() ==> r == Err::<Vec<NodeId>, GraphError>(
                GraphError::NodeDoesNotExist(start_id),
            ),
            match r {
                Ok(order) => {
                    &&& order@.len() > 0 && order@[0] == start_id
                    &&& order@.no_duplicates()
                    &&& forall|k: int|
                        0 <= k < order@.len() ==> self.reachable(start_id, #[trigger] order@[k])
                    &&& forall|x: NodeId| self.reachable(start_id, x) ==> order@.contains(x)
                },
                Err(_) => true,
            },
    {
        if start_id >= self.nodes.len() {
            return Err(GraphError::NodeDoesNotExist(start_id));
        }
        let n = self.nodes.len();
        let mut visited: Vec<bool> = vec![false; n];
        let mut stack: Vec<NodeId> = Vec::new();
        let mut order: Vec<NodeId> = Vec::new();

        stack.push(start_id);
        proof {
            self.lemma_reachable_refl(start_id);
            assert(stack@[0] == start_id);
        }

        while stack.len() > 0
            invariant
                self.wf(),
                n == self.node_count(),
                start_id < n,
                visited@.len() == n,
                forall|k: int|
                    0 <= k < stack@.len() ==> (#[trigger] stack@[k]) < n && self.reachable(
                        start_id,
                        stack@[k],
                    ),
                forall|x: NodeId|
                    (x as int) < n ==> visited@[x as int] == order@.contains(x),
                forall|k: int|
                    0 <= k < order@.len() ==> (#[trigger] order@[k]) < n && self.reachable(
                        start_id,
                        order@[k],
                    ),
                order@.no_duplicates(),
                forall|k: int, e: int|
                    0 <= k < order@.len() && 0 <= e < self.adjacency()[order@[k] as int].len()
                        ==> visited@[(#[trigger] self.adjacency()[order@[k] as int][e]).0 as int]
                        || stack@.contains(self.adjacency()[order@[k] as int][e].0),
                visited@[start_id as int] || stack@.contains(start_id),
                order@.len() == 0 ==> stack@ == seq![start_id],
                order@.len() > 0 ==> order@[0] == start_id,
            decreases n - order@.len(), stack@.len(),
        {
            let ghost stack_pre = stack@;
            let node_id = stack.pop().unwrap();
            if !visited[node_id] {
                let ghost order_pre = order@;
                visited[node_id] = true;
                order.push(node_id);
                proof {
                    lemma_distinct_bounded(order@, n as int);
                    assert forall|x: NodeId|
                        (x as int) < n implies visited@[x as int] == order@.contains(x) by {
                        if x == node_id {
                            assert(order@[order@.len() - 1] == x);
                        } else {
                            if order@.contains(x) {
                                let k = choose|k: int| 0 <= k < order@.len() && order@[k] == x;
                                assert(k < order@.len() - 1);
                                assert(order_pre[k] == x);
                            }
                            if order_pre.contains(x) {
                                let k = choose|k: int|
                                    0 <= k < order_pre.len() && order_pre[k] == x;
                                assert(order@[k] == x);
                            }
                        }
                    }
                    assert forall|k: int, e: int|
                        0 <= k < order@.len() - 1 && 0 <= e < self.adjacency()[order@[k] as int].len()
                            implies visited@[(#[trigger] self.adjacency()[order@[k] as int][e]).0 as int]
                            || stack@.contains(self.adjacency()[order@[k] as int][e].0) by {
                        let t = self.adjacency()[order@[k] as int][e].0;
                        if !visited@[t as int] {
                            assert(stack_pre.contains(t));
                            let j = choose|j: int| 0 <= j < stack_pre.len() && stack_pre[j] == t;
                            assert(j < stack_pre.len() - 1);
                            assert(stack@[j] == t);
                        }
                    }
                    assert(visited@[start_id as int] || stack@.contains(start_id)) by {
                        if !visited@[start_id as int] {
                            let j = choose|j: int|
                                0 <= j < stack_pre.len() && stack_pre[j] == start_id;
                            assert(j < stack_pre.len() - 1);
                            assert(stack@[j] == start_id);
                        }
                    }
                }
                let row_len = self.adjacency_list[node_id].len();
                let mut e: usize = 0;
                while e < row_len
                    invariant
                        self.wf(),
                        n == self.node_count(),
                        start_id < n,
                        node_id < n,
                        self.reachable(start_id, node_id),
                        row_len == self.adjacency()[node_id as int].len(),
                        e <= row_len,
                        visited@.len() == n,
                        visited@[node_id as int],
                        order@.len() > 0 && order@[order@.len() - 1] == node_id,
                        order@[0] == start_id,
                        forall|k: int|
                            0 <= k < stack@.len() ==> (#[trigger] stack@[k]) < n && self.reachable(
                                start_id,
                                stack@[k],
                            ),
                        forall|x: NodeId|
                            (x as int) < n ==> visited@[x as int] == order@.contains(x),
                        forall|k: int|
                            0 <= k < order@.len() ==> (#[trigger] order@[k]) < n && self.reachable(
                                start_id,
                                order@[k],
                            ),
                        order@.no_duplicates(),
                        forall|k: int, e2: int|
                            0 <= k < order@.len() - 1 && 0 <= e2 < self.adjacency()[order@[k] as int].len()
                                ==> visited@[(#[trigger] self.adjacency()[order@[k] as int][e2]).0 as int]
                                || stack@.contains(self.adjacency()[order@[k] as int][e2].0),
                        forall|e2: int|
                            0 <= e2 < e ==> visited@[(#[trigger] self.adjacency()[node_id as int][e2]).0 as int]
                                || stack@.contains(self.adjacency()[node_id as int][e2].0),
                        visited@[start_id as int] || stack@.contains(start_id),
                    decreases row_len - e,
                {
                    let nbr = self.adjacency_list[node_id][e].0;
                    proof {
                        assert(self.spec_has_edge(node_id as int, nbr as int)) by {
                            assert(row_has_target(self.adjacency()[node_id as int], nbr));
                        }
                        self.lemma_reachable_step(start_id, node_id, nbr);
                    }
                    if !visited[nbr] {
                        let ghost stack_pre2 = stack@;
                        stack.push(nbr);
                        proof {
                            assert forall|x: NodeId|
                                stack_pre2.contains(x) implies stack@.contains(x) by {
                                let j = choose|j: int|
                                    0 <= j < stack_pre2.len() && stack_pre2[j] == x;
                                assert(stack@[j] == x);
                            }
                            assert(stack@[stack@.len() - 1] == nbr);
                        }
                    }
                    e = e + 1;
                }
            } else {
                proof {
                    assert forall|k: int, e: int|
                        0 <= k < order@.len() && 0 <= e < self.adjacency()[order@[k] as int].len()
                            implies visited@[(#[trigger] self.adjacency()[order@[k] as int][e]).0 as int]
                            || stack@.contains(self.adjacency()[order@[k] as int][e].0) by {
                        let t = self.adjacency()[order@[k] as int][e].0;
                        if !visited@[t as int] {
                            assert(stack_pre.contains(t));
                            let j = choose|j: int| 0 <= j < stack_pre.len() && stack_pre[j] == t;
                            assert(j < stack_pre.len() - 1);
                            assert(stack@[j] == t);
                        }
                    }
                    assert(visited@[start_id as int] || stack@.contains(start_id)) by {
                        if !visited@[start_id as int] {
                            let j = choose|j: int|
                                0 <= j < stack_pre.len() && stack_pre[j] == start_id;
                            assert(j < stack_pre.len() - 1);
                            assert(stack@[j] == start_id);
                        }
                    }
                }
            }
        }
        proof {
            let s = Set::new(|y: NodeId| order@.contains(y));
            assert forall|a: NodeId, b: NodeId|
                s.contains(a) && self.spec_has_edge(a as int, b as int) implies s.contains(b) by {
                let k = choose|k: int| 0 <= k < order@.len() && order@[k] == a;
                let row = self.adjacency()[a as int];
                let j = row_target_index(row, b);
                assert(0 <= j < row.len() && row[j].0 == b);
                assert(visited@[b as int]);
            }
            assert(s.contains(start_id));
            assert forall|x: NodeId| self.reachable(start_id, x) implies order@.contains(x) by {
                let w = choose|w: Seq<NodeId>|
                    self.is_walk(w) && w.first() == start_id && w.last() == x;
                self.lemma_walk_closed(w, s);
            }
            assert(order@.contains(start_id));
        }
        Ok(order)
    }

    /// Searches depth-first for `end_id` starting at `start_id`. `Some`
    /// comes back exactly when `end_id` is reachable from `start_id`; the
    /// returned sequence is the visit order that led to the target (each
    /// node reachable from `start_id`, visited once, starting at
    /// `start_id` and ending at `end_id`), not necessarily an edge path.
    /// `None` means every reachable node was explored without meeting
    /// `end_id`.
    pub fn find_path(&self, start_id: NodeId, end_id: NodeId) -> (r: Result<
        Option<Vec<NodeId>>,
        GraphError,
    >)
        requires
            self.wf(),
        ensures
            start_id >= self.node_count() ==> r == Err::<Option<Vec<NodeId>>, GraphError>(
                GraphError::NodeDoesNotExist(start_id),
            ),
            start_id < self.node_count() && end_id >= self.node_count() ==> r == Err::<
                Option<Vec<NodeId>>,
                GraphError,
            >(GraphError::NodeDoesNotExist(end_id)),
            r.is_ok() == (start_id < self.node_count() && end_id < self.node_count()),
            match r {
                Ok(Some(path)) => {
                    &&& self.reachable(start_id, end_id)
                    &&& path@.len() > 0 && path@[0] == start_id && path@.last() == end_id
                    &&& path@.no_duplicates()
                    &&& forall|k: int|
                        0 <= k < path@.len() ==> self.reachable(start_id, #[trigger] path@[k])
                },
                Ok(None) => !self.reachable(start_id, end_id),
                Err(_) => true,
            },
    {
        if start_id >= self.nodes.len() {
            return Err(GraphError::NodeDoesNotExist(start_id));
        }
        if end_id >= self.nodes.len() {
            return Err(GraphError::NodeDoesNotExist(end_id));
        }
        let n = self.nodes.len();
        let mut visited: Vec<bool> = vec![false; n];
        let mut stack: Vec<NodeId> = Vec::new();
        let mut path: Vec<NodeId> = Vec::new();

        stack.push(start_id);
        proof {
            self.lemma_reachable_refl(start_id);
            assert(stack@[0] == start_id);
        }

        while stack.len() > 0
            invariant
                self.wf(),
                n == self.node_count(),
                start_id < n,
                end_id < n,
                visited@.len() == n,
                !visited@[end_id as int],
                forall|k: int|
                    0 <= k < stack@.len() ==> (#[trigger] stack@[k]) < n && self.reachable(
                        start_id,
                        stack@[k],
                    ),
                forall|x: NodeId|
                    (x as int) < n ==> visited@[x as int] == path@.contains(x),
                forall|k: int|
                    0 <= k < path@.len() ==> (#[trigger] path@[k]) < n && self.reachable(
                        start_id,
                        path@[k],
                    ),
                path@.no_duplicates(),
                forall|k: int, e: int|
                    0 <= k < path@.len() && 0 <= e < self.adjacency()[path@[k] as int].len()
                        ==> visited@[(#[trigger] self.adjacency()[path@[k] as int][e]).0 as int]
                        || stack@.contains(self.adjacency()[path@[k] as int][e].0),
                visited@[start_id as int] || stack@.contains(start_id),
                path@.len() == 0 ==> stack@ == seq![start_id],
                path@.len() > 0 ==> path@[0] == start_id,
            decreases n - path@.len(), stack@.len(),
        {
            let ghost stack_pre = stack@;
            let node_id = stack.pop().unwrap();
            if !visited[node_id] {
                let ghost path_pre = path@;
                visited[node_id] = true;
                path.push(node_id);
                proof {
                    lemma_distinct_bounded(path@, n as int);
                    assert forall|x: NodeId|
                        (x as int) < n implies visited@[x as int] == path@.contains(x) by {
                        if x == node_id {
                            assert(path@[path@.len() - 1] == x);
                        } else {
                            if path@.contains(x) {
                                let k = choose|k: int| 0 <= k < path@.len() && path@[k] == x;
                                assert(k < path@.len() - 1);
                                assert(path_pre[k] == x);
                            }
                            if path_pre.contains(x) {
                                let k = choose|k: int|
                                    0 <= k < path_pre.len() && path_pre[k] == x;
                                assert(path@[k] == x);
                            }
                        }
                    }
                    assert forall|k: int, e: int|
                        0 <= k < path@.len() - 1 && 0 <= e < self.adjacency()[path@[k] as int].len()
                            implies visited@[(#[trigger] self.adjacency()[path@[k] as int][e]).0 as int]
                            || stack@.contains(self.adjacency()[path@[k] as int][e].0) by {
                        let t = self.adjacency()[path@[k] as int][e].0;
                        if !visited@[t as int] {
                            assert(stack_pre.contains(t));
                            let j = choose|j: int| 0 <= j < stack_pre.len() && stack_pre[j] == t;
                            assert(j < stack_pre.len() - 1);
                            assert(stack@[j] == t);
                        }
                    }
                    assert(visited@[start_id as int] || stack@.contains(start_id)) by {
                        if !visited@[start_id as int] {
                            let j = choose|j: int|
                                0 <= j < stack_pre.len() && stack_pre[j] == start_id;
                            assert(j < stack_pre.len() - 1);
                            assert(stack@[j] == start_id);
                        }
                    }
                }
                if node_id == end_id {
                    return Ok(Some(path));
                }
                let row_len = self.adjacency_list[node_id].len();
                let mut e: usize = 0;
                while e < row_len
                    invariant
                        self.wf(),
                        n == self.node_count(),
                        start_id < n,
                        end_id < n,
                        node_id < n,
                        node_id != end_id,
                        self.reachable(start_id, node_id),
                        row_len == self.adjacency()[node_id as int].len(),
                        e <= row_len,
                        visited@.len() == n,
                        !visited@[end_id as int],
                        visited@[node_id as int],
                        path@.len() > 0 && path@[path@.len() - 1] == node_id,
                        path@[0] == start_id,
                        forall|k: int|
                            0 <= k < stack@.len() ==> (#[trigger] stack@[k]) < n && self.reachable(
                                start_id,
                                stack@[k],
                            ),
                        forall|x: NodeId|
                            (x as int) < n ==> visited@[x as int] == path@.contains(x),
                        forall|k: int|
                            0 <= k < path@.len() ==> (#[trigger] path@[k]) < n && self.reachable(
                                start_id,
                                path@[k],
                            ),
                        path@.no_duplicates(),
                        forall|k: int, e2: int|
                            0 <= k < path@.len() - 1 && 0 <= e2 < self.adjacency()[path@[k] as int].len()
                                ==> visited@[(#[trigger] self.adjacency()[path@[k] as int][e2]).0 as int]
                                || stack@.contains(self.adjacency()[path@[k] as int][e2].0),
                        forall|e2: int|
                            0 <= e2 < e ==> visited@[(#[trigger] self.adjacency()[node_id as int][e2]).0 as int]
                                || stack@.contains(self.adjacency()[node_id as int][e2].0),
                        visited@[start_id as int] || stack@.contains(start_id),
                    decreases row_len - e,
                {
                    let nbr = self.adjacency_list[node_id][e].0;
                    proof {
                        assert(self.spec_has_edge(node_id as int, nbr as int)) by {
                            assert(row_has_target(self.adjacency()[node_id as int], nbr));
                        }
                        self.lemma_reachable_step(start_id, node_id, nbr);
                    }
                    if !visited[nbr] {
                        let ghost stack_pre2 = stack@;
                        stack.push(nbr);
                        proof {
                            assert forall|x: NodeId|
                                stack_pre2.contains(x) implies stack@.contains(x) by {
                                let j = choose|j: int|
                                    0 <= j < stack_pre2.len() && stack_pre2[j] == x;
                                assert(stack@[j] == x);
                            }
                            assert(stack@[stack@.len() - 1] == nbr);
                        }
                    }
                    e = e + 1;
                }
            } else {
                proof {
                    assert forall|k: int, e: int|
                        0 <= k < path@.len() && 0 <= e < self.adjacency()[path@[k] as int].len()
                            implies visited@[(#[trigger] self.adjacency()[path@[k] as int][e]).0 as int]
                            || stack@.contains(self.adjacency()[path@[k] as int][e].0) by {
                        let t = self.adjacency()[path@[k] as int][e].0;
                        if !visited@[t as int] {
                            assert(stack_pre.contains(t));
                            let j = choose|j: int| 0 <= j < stack_pre.len() && stack_pre[j] == t;
                            assert(j < stack_pre.len() - 1);
                            assert(stack@[j] == t);
                        }
                    }
                    assert(visited@[start_id as int] || stack@.contains(start_id)) by {
                        if !visited@[start_id as int] {
                            let j = choose|j: int|
                                0 <= j < stack_pre.len() && stack_pre[j] == start_id;
                            assert(j < stack_pre.len() - 1);
                            assert(stack@[j] == start_id);
                        }
                    }
                }
            }
        }
        proof {
            let s = Set::new(|y: NodeId| path@.contains(y));
            assert forall|a: NodeId, b: NodeId|
                s.contains(a) && self.spec_has_edge(a as int, b as int) implies s.contains(b) by {
                let k = choose|k: int| 0 <= k < path@.len() && path@[k] == a;
                let row = self.adjacency()[a as int];
                let j = row_target_index(row, b);
                assert(0 <= j < row.len() && row[j].0 == b);
                assert(visited@[b as int]);
            }
            assert(s.contains(start_id));
            assert(!self.reachable(start_id, end_id)) by {
                if self.reachable(start_id, end_id) {
                    let w = choose|w: Seq<NodeId>|
                        self.is_walk(w) && w.first() == start_id && w.last() == end_id;
                    self.lemma_walk_closed(w, s);
                    assert(visited@[end_id as int]);
                }
            }
        }
        Ok(None)
    }

    /// The graph contains a directed cycle: some walk of at least one
    /// edge returns to its starting node.
    pub open spec fn has_cycle(&self) -> bool {
        exists|p: Seq<NodeId>| self.is_walk(p) && p.len() >= 2 && p.first() == p.last()
    }

    /// A probe from `from` against `vset`: a walk of at least one edge
    /// that ends in `vset` and whose interior stays outside it. The
    /// cycle search returns true exactly when a probe against the current
    /// path exists.
    spec fn is_probe(&self, w: Seq<NodeId>, from: NodeId, vset: Set<NodeId>) -> bool {
        &&& w.len() >= 2
        &&& self.is_walk(w)
        &&& w.first() == from
        &&& vset.contains(w.last())
        &&& forall|k: int| 1 <= k < w.len() - 1 ==> !vset.contains(#[trigger] w[k])
    }

    /// A nonempty piece of a walk is a walk.
    proof fn lemma_walk_subrange(&self, w: Seq<NodeId>, a: int, b: int)
        requires
            self.is_walk(w),
            0 <= a < b <= w.len(),
        ensures
            self.is_walk(w.subrange(a, b)),
    {
        let w2 = w.subrange(a, b);
        assert forall|k: int| 0 <= k < w2.len() - 1 implies self.spec_has_edge(
            #[trigger] w2[k] as int,
            w2[k + 1] as int,
        ) by {
            assert(w2[k] == w[a + k] && w2[k + 1] == w[a + k + 1]);
        }
    }

    /// Any walk that meets `vset` at or after position `lo` has a first
    /// meeting point from `lo` on.
    proof fn lemma_first_hit(w: Seq<NodeId>, vset: Set<NodeId>, lo: int)
        requires
            0 <= lo,
            exists|j: int| lo <= j < w.len() && vset.contains(#[trigger] w[j]),
        ensures
            exists|j: int|
                lo <= j < w.len() && vset.contains(#[trigger] w[j]) && (forall|k: int|
                    lo <= k < j ==> !vset.contains(#[trigger] w[k])),
        decreases w.len() - lo,
    {
        if vset.contains(w[lo]) {
            assert(lo <= lo < w.len() && vset.contains(w[lo]) && (forall|k: int|
                lo <= k < lo ==> !vset.contains(#[trigger] w[k])));
        } else {
            let j0 = choose|j: int| lo <= j < w.len() && vset.contains(#[trigger] w[j]);
            assert(lo + 1 <= j0 < w.len() && vset.contains(w[j0]));
            Self::lemma_first_hit(w, vset, lo + 1);
            let j = choose|j: int|
                lo + 1 <= j < w.len() && vset.contains(#[trigger] w[j]) && (forall|k: int|
                    lo + 1 <= k < j ==> !vset.contains(#[trigger] w[k]));
            assert(lo <= j < w.len() && vset.contains(w[j]) && (forall|k: int|
                lo <= k < j ==> !vset.contains(#[trigger] w[k])));
        }
    }

    /// A cycle yields a probe from its head against that head alone.
    proof fn lemma_cycle_probe(&self)
        requires
            self.has_cycle(),
        ensures
            exists|v: NodeId, w: Seq<NodeId>|
                (v as int) < self.node_count() && #[trigger] self.is_probe(
                    w,
                    v,
                    Set::empty().insert(v),
                ),
    {
        let c = choose|p: Seq<NodeId>| self.is_walk(p) && p.len() >= 2 && p.first() == p.last();
        let v = c.first();
        let s = Set::<NodeId>::empty().insert(v);
        assert(s.contains(c[c.len() - 1]));
        Self::lemma_first_hit(c, s, 1);
        let j = choose|j: int|
            1 <= j < c.len() && s.contains(#[trigger] c[j]) && (forall|k: int|
                1 <= k < j ==> !s.contains(#[trigger] c[k]));
        let w = c.subrange(0, j + 1);
        self.lemma_walk_subrange(c, 0, j + 1);
        assert forall|k: int| 1 <= k < w.len() - 1 implies !s.contains(#[trigger] w[k]) by {
            assert(w[k] == c[k]);
        }
        assert(self.is_probe(w, v, s));
    }

    /// A probe from `u` steps through one of `u`'s neighbors: either the
    /// neighbor already lies in `vset`, or the rest of the probe is a
    /// probe from the neighbor against `vset` grown by it.
    proof fn lemma_probe_step(&self, w: Seq<NodeId>, u: NodeId, vset: Set<NodeId>)
        requires
            self.wf(),
            self.is_probe(w, u, vset),
        ensures
            exists|jj: int|
                0 <= jj < self.adjacency()[u as int].len() && (vset.contains(
                    (#[trigger] self.adjacency()[u as int][jj]).0,
                ) || exists|w2: Seq<NodeId>|
                    self.is_probe(
                        w2,
                        self.adjacency()[u as int][jj].0,
                        vset.insert(self.adjacency()[u as int][jj].0),
                    )),
    {
        let y = w[1];
        assert(self.spec_has_edge(w[0] as int, w[1] as int));
        let row = self.adjacency()[u as int];
        let jj = row_target_index(row, y);
        assert(0 <= jj < row.len() && row[jj].0 == y);
        if vset.contains(y) {
            assert(vset.contains(row[jj].0));
        } else {
            assert(w.len() > 2) by {
                if w.len() == 2 {
                    assert(w.last() == y);
                }
            }
            let vset2 = vset.insert(y);
            let wr = w.subrange(1, w.len() as int);
            self.lemma_walk_subrange(w, 1, w.len() as int);
            assert(wr.last() == w.last());
            assert(vset2.contains(wr[wr.len() - 1]));
            Self::lemma_first_hit(wr, vset2, 1);
            let j = choose|j: int|
                1 <= j < wr.len() && vset2.contains(#[trigger] wr[j]) && (forall|k: int|
                    1 <= k < j ==> !vset2.contains(#[trigger] wr[k]));
            let w2 = wr.subrange(0, j + 1);
            self.lemma_walk_subrange(wr, 0, j + 1);
            assert forall|k: int| 1 <= k < w2.len() - 1 implies !vset2.contains(
                #[trigger] w2[k],
            ) by {
                assert(w2[k] == wr[k]);
            }
            assert(self.is_probe(w2, y, vset2));
            assert(self.is_probe(w2, row[jj].0, vset.insert(row[jj].0)));
        }
    }

    /// One step of the exhaustive cycle search: explores every simple
    /// extension of the current path (carried as a ghost walk whose node
    /// set matches `visited`) and reports whether it can close a cycle.
    fn detect_cycle_recursive(&self, start_node: NodeId, visited: &mut Vec<bool>, path: Ghost<
        Seq<NodeId>,
    >) -> (b: bool)
        requires
            self.wf(),
            old(visited)@.len() == self.node_count(),
            self.is_walk(path@),
            path@.no_duplicates(),
            path@.last() == start_node,
            forall|x: NodeId|
                (x as int) < self.node_count() ==> old(visited)@[x as int] == path@.contains(x),
        ensures
            b ==> self.has_cycle(),
            !b ==> final(visited)@ == old(visited)@,
            !b ==> forall|w: Seq<NodeId>| !self.is_probe(w, start_node, path@.to_set()),
        decreases self.node_count() - path@.len(),
    {
        let ghost v0 = old(visited)@;
        let row_len = self.adjacency_list[start_node].len();
        let mut e: usize = 0;
        while e < row_len
            invariant
                self.wf(),
                visited@.len() == self.node_count(),
                self.is_walk(path@),
                path@.no_duplicates(),
                path@.last() == start_node,
                (start_node as int) < self.node_count(),
                row_len == self.adjacency()[start_node as int].len(),
                e <= row_len,
                visited@ == v0,
                forall|x: NodeId|
                    (x as int) < self.node_count() ==> visited@[x as int] == path@.contains(x),
                forall|e2: int|
                    0 <= e2 < e ==> !path@.contains(
                        (#[trigger] self.adjacency()[start_node as int][e2]).0,
                    ) && (forall|w2: Seq<NodeId>|
                        !self.is_probe(
                            w2,
                            self.adjacency()[start_node as int][e2].0,
                            path@.to_set().insert(self.adjacency()[start_node as int][e2].0),
                        )),
            decreases row_len - e,
        {
            let nbr = self.adjacency_list[start_node][e].0;
            proof {
                assert(self.spec_has_edge(start_node as int, nbr as int)) by {
                    assert(row_has_target(self.adjacency()[start_node as int], nbr));
                }
            }
            if visited[nbr] {
                proof {
                    assert((nbr as int) < self.node_count());
                    assert(visited@[nbr as int]);
                    assert(path@.contains(nbr));
                    let m = choose|m: int| 0 <= m < path@.len() && path@[m] == nbr;
                    let cyc = path@.subrange(m, path@.len() as int).push(nbr);
                    self.lemma_walk_subrange(path@, m, path@.len() as int);
                    let tail = path@.subrange(m, path@.len() as int);
                    assert(tail.last() == start_node);
                    assert forall|k: int| 0 <= k < cyc.len() - 1 implies self.spec_has_edge(
                        #[trigger] cyc[k] as int,
                        cyc[k + 1] as int,
                    ) by {
                        if k < tail.len() - 1 {
                            assert(cyc[k] == tail[k] && cyc[k + 1] == tail[k + 1]);
                        } else {
                            assert(cyc[k] == start_node && cyc[k + 1] == nbr);
                        }
                    }
                    assert(self.is_walk(cyc));
                    assert(cyc.first() == nbr && cyc.last() == nbr && cyc.len() >= 2);
                }
                return true;
            }
            visited[nbr] = true;
            proof {
                assert(!path@.contains(nbr));
                assert forall|i: int, j: int|
                    0 <= i < path@.push(nbr).len() && 0 <= j < path@.push(nbr).len() && i != j
                        implies path@.push(nbr)[i] != path@.push(nbr)[j] by {
                    if i < path@.len() && j < path@.len() {
                        assert(path@.push(nbr)[i] == path@[i] && path@.push(nbr)[j] == path@[j]);
                    } else if j == path@.len() {
                        assert(path@.push(nbr)[i] == path@[i] && path@.push(nbr)[j] == nbr);
                        assert(path@[i] != nbr) by {
                            if path@[i] == nbr {
                                assert(path@.contains(nbr));
                            }
                        }
                    } else {
                        assert(path@.push(nbr)[j] == path@[j] && path@.push(nbr)[i] == nbr);
                        assert(path@[j] != nbr) by {
                            if path@[j] == nbr {
                                assert(path@.contains(nbr));
                            }
                        }
                    }
                }
                assert(path@.push(nbr).no_duplicates());
                assert forall|k: int|
                    0 <= k < path@.push(nbr).len() implies (#[trigger] path@.push(nbr)[k])
                        < self.node_count() by {
                    if k < path@.len() {
                        assert(path@.push(nbr)[k] == path@[k]);
                    } else {
                        assert(path@.push(nbr)[k] == nbr);
                    }
                }
                lemma_distinct_bounded(path@.push(nbr), self.node_count() as int);
                assert(path@.push(nbr).last() == nbr);
                assert forall|k: int| 0 <= k < path@.push(nbr).len() - 1 implies self.spec_has_edge(
                    #[trigger] path@.push(nbr)[k] as int,
                    path@.push(nbr)[k + 1] as int,
                ) by {
                    if k < path@.len() - 1 {
                        assert(path@.push(nbr)[k] == path@[k] && path@.push(nbr)[k + 1] == path@[k
                            + 1]);
                    } else {
                        assert(path@.push(nbr)[k] == start_node && path@.push(nbr)[k + 1] == nbr);
                    }
                }
                assert(self.is_walk(path@.push(nbr)));
                assert forall|x: NodeId|
                    (x as int) < self.node_count() implies visited@[x as int] == path@.push(
                    nbr,
                ).contains(x) by {
                    if x == nbr {
                        assert(path@.push(nbr)[path@.len() as int] == x);
                    } else {
                        if path@.push(nbr).contains(x) {
                            let k = choose|k: int|
                                0 <= k < path@.push(nbr).len() && path@.push(nbr)[k] == x;
                            assert(path@[k] == x);
                        }
                        if path@.contains(x) {
                            let k = choose|k: int| 0 <= k < path@.len() && path@[k] == x;
                            assert(path@.push(nbr)[k] == x);
                        }
                    }
                }
            }
            let ghost extended: Seq<NodeId> = path@.push(nbr);
            let rec = self.detect_cycle_recursive(nbr, visited, Ghost(extended));
            if rec {
                return true;
            }
            visited[nbr] = false;
            proof {
                assert(visited@ =~= v0);
                assert(path@.push(nbr).to_set() =~= path@.to_set().insert(nbr));
            }
            e = e + 1;
        }
        proof {
            assert forall|w: Seq<NodeId>| !self.is_probe(w, start_node, path@.to_set()) by {
                if self.is_probe(w, start_node, path@.to_set()) {
                    self.lemma_probe_step(w, start_node, path@.to_set());
                    let jj = choose|jj: int|
                        0 <= jj < self.adjacency()[start_node as int].len() && (path@.to_set().contains(
                            (#[trigger] self.adjacency()[start_node as int][jj]).0,
                        ) || exists|w2: Seq<NodeId>|
                            self.is_probe(
                                w2,
                                self.adjacency()[start_node as int][jj].0,
                                path@.to_set().insert(self.adjacency()[start_node as int][jj].0),
                            ));
                    assert(false);
                }
            }
        }
        false
    }

    /// Reports whether the graph contains a directed cycle: `Err` with
    /// [`GraphError::CycleDetected`] exactly when one exists, `Ok`
    /// exactly when the graph is acyclic.
    pub fn detect_cycle(&self) -> (r: Result<(), GraphError>)
        requires
            self.wf(),
        ensures
            r.is_ok() == !self.has_cycle(),
            !r.is_ok() ==> r == Err::<(), GraphError>(GraphError::CycleDetected),
    {
        let n = self.nodes.len();
        let mut u: usize = 0;
        while u < n
            invariant
                self.wf(),
                n == self.node_count(),
                u <= n,
                forall|v: NodeId, w: Seq<NodeId>|
                    (v as int) < u ==> !(#[trigger] self.is_probe(w, v, Set::empty().insert(v))),
            decreases n - u,
        {
            let mut visited: Vec<bool> = vec![false; n];
            visited[u] = true;
            proof {
                assert(self.is_walk(seq![u]));
                assert forall|x: NodeId|
                    (x as int) < self.node_count() implies visited@[x as int] == seq![u].contains(
                    x,
                ) by {
                    if x == u {
                        assert(seq![u][0] == x);
                    } else {
                        if seq![u].contains(x) {
                            let k = choose|k: int| 0 <= k < seq![u].len() && seq![u][k] == x;
                        }
                    }
                }
            }
            let ghost p0: Seq<NodeId> = seq![u];
            let found = self.detect_cycle_recursive(u, &mut visited, Ghost(p0));
            if found {
                return Err(GraphError::CycleDetected);
            }
            proof {
                assert(seq![u].to_set() =~= Set::empty().insert(u));
            }
            u = u + 1;
        }
        proof {
            assert(!self.has_cycle()) by {
                if self.has_cycle() {
                    self.lemma_cycle_probe();
                }
            }
        }
        Ok(())
    }

    /// The outgoing edges of `id`, in insertion order; an error names the
    /// missing node otherwise.
    pub fn neighbors(&self, id: NodeId) -> (r: Result<&Vec<(NodeId, E)>, GraphError>)
        requires
            self.wf(),
        ensures
            r.is_ok() == (id < self.node_count()),
            r.is_ok() ==> r.unwrap()@ == self.adjacency()[id as int],
            !r.is_ok() ==> r == Err::<&Vec<(NodeId, E)>, GraphError>(
                GraphError::NodeDoesNotExist(id),
            ),
    {
        if id < self.adjacency_list.len() {
            Ok(&self.adjacency_list[id])
        } else {
            Err(GraphError::NodeDoesNotExist(id))
        }
    }
}

} // verus!
