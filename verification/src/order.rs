//! The selection and display order between nodes: larger size sorts
//! first; on equal sizes the shallower path (fewer separators) sorts
//! first; on equal depth the lexicographically smaller path sorts first.

use vstd::prelude::*;

use crate::path::{
    count_slashes, lemma_lex_lt_total, lemma_lex_lt_trans, lex_lt, slash_count, str_lex_lt,
};
use crate::tree::Node;

verus! {

/// The strict "sorts first" relation between nodes.
pub open spec fn node_before(a: Node, b: Node) -> bool {
    if a.size != b.size {
        a.size > b.size
    } else if slash_count(a.name@) != slash_count(b.name@) {
        slash_count(a.name@) < slash_count(b.name@)
    } else {
        lex_lt(a.name@, b.name@)
    }
}

/// The non-strict companion: `a` sorts no later than `b`.
pub open spec fn node_le(a: Node, b: Node) -> bool {
    !node_before(b, a)
}

/// The order is total: two nodes that sort before each other in neither
/// direction agree on size, depth and path, and never sort before each
/// other both ways.
pub proof fn lemma_node_order_total(a: Node, b: Node)
    ensures
        node_le(a, b) || node_le(b, a),
        !node_before(a, b) && !node_before(b, a) ==> a.size == b.size && a.name@ == b.name@,
{
    lemma_lex_lt_total(a.name@, b.name@);
}

/// The strict order is transitive.
pub proof fn lemma_node_before_trans(a: Node, b: Node, c: Node)
    requires
        node_before(a, b),
        node_before(b, c),
    ensures
        node_before(a, c),
{
    if a.size == b.size && b.size == c.size && slash_count(a.name@) == slash_count(b.name@)
        && slash_count(b.name@) == slash_count(c.name@) {
        lemma_lex_lt_trans(a.name@, b.name@, c.name@);
    }
}

/// The non-strict order is transitive.
pub proof fn lemma_node_le_trans(a: Node, b: Node, c: Node)
    requires
        node_le(a, b),
        node_le(b, c),
    ensures
        node_le(a, c),
{
    if node_before(c, a) {
        if node_before(a, b) {
            lemma_node_before_trans(c, a, b);
        } else {
            lemma_node_order_total(a, b);
            assert(a.size == b.size && a.name@ == b.name@);
            assert(node_before(c, b));
        }
    }
}

/// The tie-break rule, stated on its own: size decides first; then fewer
/// separators win; then the lexicographically smaller path.
pub proof fn lemma_order_tiebreak(a: Node, b: Node)
    ensures
        a.size > b.size ==> node_before(a, b),
        a.size == b.size && slash_count(a.name@) < slash_count(b.name@) ==> node_before(a, b),
        a.size == b.size && slash_count(a.name@) == slash_count(b.name@) && lex_lt(
            a.name@,
            b.name@,
        ) ==> node_before(a, b),
{
}

/// Decides whether `a` sorts strictly before `b`.
pub fn node_before_exec(a: &Node, b: &Node) -> (r: bool)
    ensures
        r == node_before(*a, *b),
{
    if a.size != b.size {
        a.size > b.size
    } else {
        let sa = count_slashes(a.name.as_str());
        let sb = count_slashes(b.name.as_str());
        if sa != sb {
            sa < sb
        } else {
            str_lex_lt(a.name.as_str(), b.name.as_str())
        }
    }
}

} // verus!
