//! A graph as a map from each node to the nodes next to it and the cost of
//! getting there.

use crate::error::{AgcError, AgcErrorKind, AgcResult};
use crate::traits::AgcHashable;
use std::cmp::Ordering;
use std::collections::HashMap;
use std::hash::Hash;
use vstd::prelude::*;
use vstd::std_specs::cmp::{PartialEqSpec, PartialOrdSpec};
use vstd::std_specs::hash::obeys_key_model;
use vstd::string::StringExecFns;

verus! {

/// The type of edge: it can go from left to right, from right to left, or
/// both ways.
#[derive(Debug, Clone, Copy, PartialEq, Eq, Structural)]
pub enum EdgeKind {
    ToRight,
    ToLeft,
    Bidirectional,
}

impl EdgeKind {
    /// The name of the kind, as it is written in the source.
    pub open spec fn name(self) -> Seq<char> {
        match self {
            EdgeKind::ToRight => "ToRight"@,
            EdgeKind::ToLeft => "ToLeft"@,
            EdgeKind::Bidirectional => "Bidirectional"@,
        }
    }

    /// The name of the kind as a string.
    pub fn to_string(&self) -> (text: String)
        ensures
            text@ == self.name(),
    {
        match self {
            EdgeKind::ToRight => String::from_str("ToRight"),
            EdgeKind::ToLeft => String::from_str("ToLeft"),
            EdgeKind::Bidirectional => String::from_str("Bidirectional"),
        }
    }
}

/// An edge in a graph, with a `left` node, a `right` node and the cost to
/// get from one to the other in the direction or directions that
/// `edge_kind` tells.
#[derive(Clone, PartialEq, Eq)]
pub struct Edge<N, C> where N: AgcHashable + Clone, C: Ord + Copy {
    pub left: N,
    pub right: N,
    pub cost: C,
    pub edge_kind: EdgeKind,
}

impl<N, C> Edge<N, C> where N: AgcHashable + Clone, C: Ord + Copy {
    /// Create a new `Edge`. The two nodes must differ: an edge that starts
    /// and ends in the same node does not exist.
    pub fn new(left: N, right: N, cost: C, edge_kind: EdgeKind) -> (edge: Self)
        requires
            N::obeys_eq_spec(),
            !left.eq_spec(&right),
        ensures
            edge == (Edge { left, right, cost, edge_kind }),
    {
        Self::try_new(left, right, cost, edge_kind).unwrap()
    }

    /// Attempt to create a new `Edge`.
    ///
    /// # Errors
    ///
    /// `SameNode` if `left == right`.
    pub fn try_new(left: N, right: N, cost: C, edge_kind: EdgeKind) -> (result: AgcResult<Self>)
        ensures
            N::obeys_eq_spec() ==> match result {
                Ok(edge) => {
                    &&& !left.eq_spec(&right)
                    &&& edge == (Edge { left, right, cost, edge_kind })
                },
                Err(error) => {
                    &&& left.eq_spec(&right)
                    &&& error@ == (AgcErrorKind::SameNode, "left cannot be the same as right."@)
                },
            },
    {
        if left == right {
            Err(AgcError::new(AgcErrorKind::SameNode, "left cannot be the same as right."))
        } else {
            Ok(Self { left, right, cost, edge_kind })
        }
    }
}

/// A type is fit for the nodes of a graph: it can be the key of a hash
/// table, two of its values are equal to `==` if and only if they are the
/// same, and a clone of a value is the same value.
pub open spec fn is_node_type<K: Hash + Eq + Clone>() -> bool {
    &&& obeys_key_model::<K>()
    &&& vstd::laws_eq::obeys_concrete_eq::<K>()
    &&& forall|node: K, copy: K| cloned(node, copy) ==> node == copy
}

/// The cost `a` is less than the cost `b`.
pub open spec fn costs_less<V: Ord>(a: V, b: V) -> bool {
    a.partial_cmp_spec(&b) == Some(Ordering::Less)
}

/// The graph with an edge from `from` to `to` at the given cost pushed in:
/// an edge that is there already keeps the lesser of the two costs.
pub open spec fn with_edge<K, V: Ord>(
    graph: Map<K, Map<K, V>>,
    from: K,
    to: K,
    cost: V,
) -> Map<K, Map<K, V>> {
    let adjacent = if graph.contains_key(from) {
        graph[from]
    } else {
        Map::<K, V>::empty()
    };
    if adjacent.contains_key(to) && !costs_less(cost, adjacent[to]) {
        graph
    } else {
        graph.insert(from, adjacent.insert(to, cost))
    }
}

/// An `AdjacencyMatrix` maps each node to the nodes that an edge leads to
/// from it, each with the cost of getting there.
#[derive(Clone)]
pub struct AdjacencyMatrix<K, V> where K: AgcHashable + Clone, V: Ord + Copy {
    matrix: HashMap<K, HashMap<K, V>>,
}

impl<K, V> View for AdjacencyMatrix<K, V> where K: AgcHashable + Clone, V: Ord + Copy {
    type V = Map<K, Map<K, V>>;

    closed spec fn view(&self) -> Map<K, Map<K, V>> {
        views(self.matrix@)
    }
}

/// `HashMap::get_mut` returns a mutable reference to the value that the map
/// holds for the key, or `None` if it holds none. What is written through
/// the reference becomes the value of that key; nothing else in the map
/// changes.
#[verifier::external_body]
fn value_mut<'a, Key: Hash + Eq, Value>(
    map: &'a mut HashMap<Key, Value>,
    key: &Key,
) -> (value: Option<&'a mut Value>)
    ensures
        obeys_key_model::<Key>() ==> match value {
            Some(value) => {
                &&& old(map)@.contains_key(*key)
                &&& *value == old(map)@[*key]
                &&& final(map)@ == old(map)@.insert(*key, *final(value))
            },
            None => !old(map)@.contains_key(*key) && final(map)@ == old(map)@,
        },
{
    map.get_mut(key)
}

/// The views of the values of a map.
pub open spec fn views<K, V>(matrix: Map<K, HashMap<K, V>>) -> Map<K, Map<K, V>> {
    matrix.map_values(|adjacent: HashMap<K, V>| adjacent@)
}

/// A value put where it was leaves the views of the map as they were.
pub proof fn lemma_views_same<K, V>(matrix: Map<K, HashMap<K, V>>, node: K)
    ensures
        matrix.contains_key(node) ==> views(matrix).insert(node, matrix[node]@) == views(matrix),
{
    if matrix.contains_key(node) {
        assert(views(matrix).insert(node, matrix[node]@) =~= views(matrix));
    }
}

/// A value put into a map puts its view into the views of the map.
pub proof fn lemma_views_insert<K, V>(matrix: Map<K, HashMap<K, V>>, node: K)
    ensures
        forall|adjacent: HashMap<K, V>| #[trigger]
            views(matrix.insert(node, adjacent)) == views(matrix).insert(node, adjacent@),
{
    assert forall|adjacent: HashMap<K, V>| #[trigger]
        views(matrix.insert(node, adjacent)) == views(matrix).insert(node, adjacent@) by {
        assert(views(matrix.insert(node, adjacent)) =~= views(matrix).insert(node, adjacent@));
    }
}

impl<K, V> AdjacencyMatrix<K, V> where K: AgcHashable + Clone, V: Ord + Copy {
    /// Create a new `AdjacencyMatrix`.
    pub fn new() -> (matrix: Self)
        ensures
            matrix@ == Map::<K, Map<K, V>>::empty(),
    {
        let matrix = Self { matrix: HashMap::new() };
        assert(matrix@ =~= Map::<K, Map<K, V>>::empty());
        matrix
    }

    /// Create a new `AdjacencyMatrix` with nodes registered.
    pub fn with_nodes(nodes: &[K]) -> (matrix: Self)
        requires
            is_node_type::<K>(),
        ensures
            forall|node: K| #[trigger] matrix@.contains_key(node) <==> nodes@.contains(node),
            forall|node: K| #[trigger]
                matrix@.contains_key(node) ==> matrix@[node] == Map::<K, V>::empty(),
    {
        let mut matrix = Self::new();
        for index in 0..nodes.len()
            invariant
                is_node_type::<K>(),
                forall|node: K| #[trigger]
                    matrix@.contains_key(node) <==> nodes@.subrange(0, index as int).contains(node),
                forall|node: K| #[trigger]
                    matrix@.contains_key(node) ==> matrix@[node] == Map::<K, V>::empty(),
        {
            let ghost before = matrix@;
            matrix.register_node(&nodes[index]);
            proof {
                let seen = nodes@.subrange(0, index as int);
                let more = nodes@.subrange(0, index + 1);
                let added = nodes@[index as int];
                assert(index < nodes@.len());
                assert(seen.len() == index);
                assert(more.len() == index + 1);
                assert(matrix@.dom() =~= before.dom().insert(added));
                assert forall|node: K| #[trigger]
                    matrix@.contains_key(node) <==> more.contains(node) by {
                    assert(before.contains_key(node) <==> seen.contains(node));
                    assert(matrix@.contains_key(node) <==> before.contains_key(node) || node
                        == added);
                    if more.contains(node) {
                        let i = choose|i: int| 0 <= i < more.len() && more[i] == node;
                        if i < index {
                            assert(seen[i] == node);
                        }
                    }
                    if seen.contains(node) {
                        let i = choose|i: int| 0 <= i < seen.len() && seen[i] == node;
                        assert(more[i] == node);
                    }
                    assert(more[index as int] == added);
                }
            }
        }
        proof {
            assert(nodes@.subrange(0, nodes@.len() as int) =~= nodes@);
        }
        matrix
    }

    /// Get the nodes next to `node` with their costs.
    pub fn get_adjacent(&self, node: &K) -> (adjacent: Option<&HashMap<K, V>>)
        ensures
            obeys_key_model::<K>() ==> match adjacent {
                Some(nodes) => self@.contains_key(*node) && nodes@ == self@[*node],
                None => !self@.contains_key(*node),
            },
    {
        broadcast use vstd::std_specs::hash::group_hash_axioms;
        self.matrix.get(node)
    }

    /// Get a mutable reference to the nodes next to `node` with their costs.
    pub fn get_mut_adjacent(&mut self, node: &K) -> (adjacent: Option<&mut HashMap<K, V>>)
        ensures
            obeys_key_model::<K>() ==> match adjacent {
                Some(nodes) => {
                    &&& old(self)@.contains_key(*node)
                    &&& nodes@ == old(self)@[*node]
                    &&& final(self)@ == old(self)@.insert(*node, final(nodes)@)
                },
                None => !old(self)@.contains_key(*node) && final(self)@ == old(self)@,
            },
    {
        proof {
            lemma_views_insert(self.matrix@, *node);
        }
        value_mut(&mut self.matrix, node)
    }

    /// Get the cost to go from node `from` to node `to`.
    pub fn get_edge(&self, from: &K, to: &K) -> (cost: Option<&V>)
        ensures
            obeys_key_model::<K>() ==> match cost {
                Some(cost) => self@.contains_key(*from) && self@[*from].contains_key(*to)
                    && *cost == self@[*from][*to],
                None => !(self@.contains_key(*from) && self@[*from].contains_key(*to)),
            },
    {
        broadcast use vstd::std_specs::hash::group_hash_axioms;
        self.matrix.get(from)?.get(to)
    }

    /// Get a mutable reference to the cost to go from node `from` to node
    /// `to`.
    pub fn get_mut_edge(&mut self, from: &K, to: &K) -> (cost: Option<&mut V>)
        ensures
            obeys_key_model::<K>() ==> match cost {
                Some(cost) => {
                    &&& old(self)@.contains_key(*from)
                    &&& old(self)@[*from].contains_key(*to)
                    &&& *cost == old(self)@[*from][*to]
                    &&& final(self)@
                        == old(self)@.insert(*from, old(self)@[*from].insert(*to, *final(cost)))
                },
                None => {
                    &&& !(old(self)@.contains_key(*from) && old(self)@[*from].contains_key(*to))
                    &&& final(self)@ == old(self)@
                },
            },
    {
        proof {
            lemma_views_insert(self.matrix@, *from);
            lemma_views_same(self.matrix@, *from);
        }
        value_mut(value_mut(&mut self.matrix, from)?, to)
    }

    /// Check if a node is registered.
    pub fn registered(&self, node: &K) -> (registered: bool)
        ensures
            obeys_key_model::<K>() ==> registered == self@.contains_key(*node),
    {
        broadcast use vstd::std_specs::hash::group_hash_axioms;
        self.matrix.contains_key(node)
    }

    /// Add a node to the graph if it is not there already, with no node
    /// next to it, and get a mutable reference to the nodes next to it.
    pub fn register_node(&mut self, node: &K) -> (adjacent: &mut HashMap<K, V>)
        requires
            is_node_type::<K>(),
        ensures
            adjacent@ == if old(self)@.contains_key(*node) {
                old(self)@[*node]
            } else {
                Map::<K, V>::empty()
            },
            final(self)@ == old(self)@.insert(*node, final(adjacent)@),
    {
        broadcast use vstd::std_specs::hash::group_hash_axioms;
        if !self.registered(node) {
            let copy = node.clone();
            proof {
                assert(cloned(*node, copy));
                lemma_views_insert(self.matrix@, *node);
            }
            self.matrix.insert(copy, HashMap::new());
        }
        proof {
            lemma_views_insert(self.matrix@, *node);
            assert(self@.contains_key(*node));
            assert(old(self)@.insert(*node, self@[*node]) =~= self@);
            assert forall|adjacent: Map<K, V>| #[trigger]
                self@.insert(*node, adjacent) == old(self)@.insert(*node, adjacent) by {
                assert(self@.insert(*node, adjacent) =~= old(self)@.insert(*node, adjacent));
            }
        }
        value_mut(&mut self.matrix, node).unwrap()
    }

    /// Push an edge from `from` to `to` into the graph; an edge that is
    /// there already keeps the lesser of the two costs.
    fn push_raw(&mut self, from: &K, to: &K, cost: V) -> (result: AgcResult<()>)
        requires
            is_node_type::<K>(),
            V::obeys_partial_cmp_spec(),
        ensures
            match result {
                Ok(_) => *from != *to && final(self)@ == with_edge(old(self)@, *from, *to, cost),
                Err(error) => {
                    &&& *from == *to
                    &&& final(self)@ == old(self)@
                    &&& error@ == (AgcErrorKind::SameNode, "from cannot be the same as to"@)
                },
            },
    {
        proof {
            reveal(vstd::laws_eq::obeys_concrete_eq);
        }
        if from == to {
            return Err(AgcError::new(AgcErrorKind::SameNode, "from cannot be the same as to"));
        }
        if let Some(edge) = self.get_mut_edge(from, to) {
            if cost < *edge {
                *edge = cost;
            }
        } else {
            broadcast use vstd::std_specs::hash::group_hash_axioms;
            let node = to.clone();
            assert(cloned(*to, node));
            self.register_node(from).insert(node, cost);
        }
        proof {
            let graph = old(self)@;
            if graph.contains_key(*from) && graph[*from].contains_key(*to) {
                if !costs_less(cost, graph[*from][*to]) {
                    assert(graph[*from].insert(*to, graph[*from][*to]) =~= graph[*from]);
                    assert(graph.insert(*from, graph[*from]) =~= graph);
                }
            }
            assert(self@ == with_edge(graph, *from, *to, cost));
        }
        Ok(())
    }

    /// Push an edge into the `AdjacencyMatrix`, in the direction or
    /// directions of its kind; an edge that is there already keeps the
    /// lesser of the two costs.
    ///
    /// # Errors
    ///
    /// `SameNode` if `edge.left == edge.right`.
    pub fn push(&mut self, edge: Edge<K, V>) -> (result: AgcResult<()>)
        requires
            is_node_type::<K>(),
            V::obeys_partial_cmp_spec(),
        ensures
            match result {
                Ok(_) => edge.left != edge.right && final(self)@ == match edge.edge_kind {
                    EdgeKind::ToRight => with_edge(old(self)@, edge.left, edge.right, edge.cost),
                    EdgeKind::ToLeft => with_edge(old(self)@, edge.right, edge.left, edge.cost),
                    EdgeKind::Bidirectional => with_edge(
                        with_edge(old(self)@, edge.left, edge.right, edge.cost),
                        edge.right,
                        edge.left,
                        edge.cost,
                    ),
                },
                Err(error) => {
                    &&& edge.left == edge.right
                    &&& final(self)@ == old(self)@
                    &&& error@ == (AgcErrorKind::SameNode, "from cannot be the same as to"@)
                },
            },
    {
        match edge.edge_kind {
            EdgeKind::ToRight => self.push_raw(&edge.left, &edge.right, edge.cost),
            EdgeKind::ToLeft => self.push_raw(&edge.right, &edge.left, edge.cost),
            EdgeKind::Bidirectional => {
                self.push_raw(&edge.left, &edge.right, edge.cost)?;
                self.push_raw(&edge.right, &edge.left, edge.cost)
            },
        }
    }
}

} // verus!
