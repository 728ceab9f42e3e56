//! The tree node: a named list with ordered children, or one of three
//! kinds of leaf (number, string, pointer).

use vstd::prelude::*;

use crate::lexer::is_number_tok;
use crate::lexer::is_string_tok;

verus! {

/// The kind of a node, fixed at construction.
#[derive(Clone, Copy, PartialEq, Eq, Structural, Debug)]
pub enum NodeKind {
    /// A named list with children.
    List,
    /// A bare identifier leaf.
    ListString,
    /// A decimal integer leaf.
    Number,
    /// A reference to a list name, stored without its `@` marker.
    Pointer,
}

/// One node of the parsed tree.
pub struct Node {
    /// The list's name for a List, the literal for Number and ListString,
    /// the stripped identifier for Pointer.
    pub value: String,
    /// Which kind of node this is.
    pub kind: NodeKind,
    /// Ordered children; empty for every kind but List.
    pub children: Vec<Node>,
}

/// Mathematical model of a node: the value as a character sequence, the
/// children as a sequence of models.
#[verifier::ext_equal]
pub struct NodeV {
    pub value: Seq<char>,
    pub kind: NodeKind,
    pub children: Seq<NodeV>,
}

/// Model of a single node.
pub open spec fn node_view(n: Node) -> NodeV
    decreases n,
{
    NodeV { value: n.value@, kind: n.kind, children: forest_view(n.children@) }
}

/// Model of a sequence of nodes, element by element.
pub open spec fn forest_view(s: Seq<Node>) -> Seq<NodeV>
    decreases s,
{
    if s.len() == 0 {
        Seq::empty()
    } else {
        forest_view(s.drop_last()).push(node_view(s.last()))
    }
}

impl View for Node {
    type V = NodeV;

    open spec fn view(&self) -> NodeV {
        node_view(*self)
    }
}

/// The model of each element, by index.
pub proof fn lemma_forest_view_index(s: Seq<Node>)
    ensures
        forest_view(s).len() == s.len(),
        forall|i: int| 0 <= i < s.len() ==> forest_view(s)[i] == node_view(s[i]),
    decreases s,
{
    if s.len() > 0 {
        lemma_forest_view_index(s.drop_last());
    }
}

/// Pushing a node onto a forest pushes its model onto the model.
pub proof fn lemma_forest_view_push(s: Seq<Node>, n: Node)
    ensures
        forest_view(s.push(n)) == forest_view(s).push(node_view(n)),
{
    assert(s.push(n).drop_last() =~= s);
    assert(s.push(n).last() == n);
}

/// The model of a concatenation is the concatenation of the models.
pub proof fn lemma_forest_view_concat(a: Seq<Node>, b: Seq<Node>)
    ensures
        forest_view(a + b) == forest_view(a) + forest_view(b),
    decreases b.len(),
{
    if b.len() == 0 {
        assert(a + b =~= a);
        assert(forest_view(a) + forest_view(b) =~= forest_view(a));
    } else {
        assert((a + b).drop_last() =~= a + b.drop_last());
        assert((a + b).last() == b.last());
        lemma_forest_view_concat(a, b.drop_last());
        assert(forest_view(a) + forest_view(b) =~= (forest_view(a) + forest_view(
            b.drop_last(),
        )).push(node_view(b.last())));
    }
}

/// A well-formed node: a List has a String-token name and one or more
/// well-formed children; a leaf has no children and a value of its
/// kind's shape.
pub open spec fn wf_node(n: NodeV) -> bool
    decreases n,
{
    match n.kind {
        NodeKind::List => is_string_tok(n.value) && n.children.len() > 0 && wf_forest(n.children),
        NodeKind::ListString => is_string_tok(n.value) && n.children.len() == 0,
        NodeKind::Number => is_number_tok(n.value) && n.children.len() == 0,
        NodeKind::Pointer => is_string_tok(n.value) && n.children.len() == 0,
    }
}

/// Every node of the forest is well-formed.
pub open spec fn wf_forest(s: Seq<NodeV>) -> bool
    decreases s,
{
    if s.len() == 0 {
        true
    } else {
        wf_node(s.last()) && wf_forest(s.drop_last())
    }
}

/// Well-formedness of a forest is well-formedness of each node.
pub proof fn lemma_wf_forest_index(s: Seq<NodeV>)
    ensures
        wf_forest(s) <==> (forall|i: int| 0 <= i < s.len() ==> wf_node(#[trigger] s[i])),
    decreases s,
{
    if s.len() > 0 {
        lemma_wf_forest_index(s.drop_last());
        if wf_forest(s) {
            assert(forall|i: int|
                0 <= i < s.len() - 1 ==> s[i] == s.drop_last()[i] && wf_node(#[trigger] s[i]));
        } else {
            if forall|i: int| 0 <= i < s.len() ==> wf_node(#[trigger] s[i]) {
                assert(forall|i: int|
                    0 <= i < s.drop_last().len() ==> wf_node(#[trigger] s.drop_last()[i]));
            }
        }
    }
}

} // verus!
