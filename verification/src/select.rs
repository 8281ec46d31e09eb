//! Greedy frontier expansion: starting from the root nodes, repeatedly
//! reveal the children of the node at the current rank and re-rank, so
//! that the globally largest nodes are found without materializing the
//! whole tree in one flat list.

use vstd::prelude::*;

use crate::order::{
    lemma_node_le_trans, lemma_node_order_total, node_before, node_before_exec, node_le,
};
use crate::tree::{wf_nodes, Node, Tree};

verus! {

/// `id` placed into the ordered list `l`: after every entry that does not
/// sort strictly after it, so earlier entries win ties.
pub open spec fn insert_sorted_spec(nodes: Seq<Node>, l: Seq<usize>, id: usize) -> Seq<usize>
    decreases l.len(),
{
    if l.len() == 0 {
        seq![id]
    } else if node_before(nodes[id as int], nodes[l[0] as int]) {
        seq![id] + l
    } else {
        seq![l[0]] + insert_sorted_spec(nodes, l.drop_first(), id)
    }
}

/// Every id of `xs` placed into `l` in turn.
pub open spec fn insert_all_spec(nodes: Seq<Node>, l: Seq<usize>, xs: Seq<usize>) -> Seq<usize>
    decreases xs.len(),
{
    if xs.len() == 0 {
        l
    } else {
        insert_all_spec(nodes, insert_sorted_spec(nodes, l, xs[0]), xs.drop_first())
    }
}

/// The expansion rounds: while rounds remain and the rank is within the
/// working list, reveal the children of the node at the current rank into
/// the ordered list and move to the next rank.
pub open spec fn expand_spec(nodes: Seq<Node>, l: Seq<usize>, pp: int, rounds: int) -> Seq<usize>
    decreases rounds,
{
    if rounds <= 0 || pp >= l.len() {
        l
    } else {
        expand_spec(nodes, insert_all_spec(nodes, l, nodes[l[pp] as int].children@), pp + 1, rounds - 1)
    }
}

/// What `find_big_ones` returns: the roots ranked, expanded for `count`
/// rounds, and cut to at most `count + 1` entries (the one extra entry is
/// kept deliberately when more are available).
pub open spec fn select_spec(nodes: Seq<Node>, roots: Seq<usize>, count: int) -> Seq<usize> {
    let expanded = expand_spec(nodes, insert_all_spec(nodes, Seq::empty(), roots), 0, count);
    if expanded.len() > count {
        expanded.take(count + 1)
    } else {
        expanded
    }
}

/// Ids that point into the arena.
pub open spec fn ids_valid(nodes: Seq<Node>, l: Seq<usize>) -> bool {
    forall|k: int| 0 <= k < l.len() ==> (#[trigger] l[k]) < nodes.len()
}

/// Ranked: no entry sorts strictly before an earlier one.
pub open spec fn sorted_ids(nodes: Seq<Node>, l: Seq<usize>) -> bool {
    forall|i: int, j: int|
        0 <= i < j < l.len() ==> node_le(nodes[#[trigger] l[i] as int], nodes[#[trigger] l[j] as int])
}

proof fn lemma_insert_all_snoc(nodes: Seq<Node>, l: Seq<usize>, xs: Seq<usize>, x: usize)
    ensures
        insert_all_spec(nodes, l, xs.push(x)) == insert_sorted_spec(
            nodes,
            insert_all_spec(nodes, l, xs),
            x,
        ),
    decreases xs.len(),
{
    reveal_with_fuel(insert_all_spec, 3);
    if xs.len() == 0 {
        assert(xs.push(x)[0] == x);
        assert(xs.push(x).drop_first() =~= Seq::<usize>::empty());
    } else {
        assert(xs.push(x)[0] == xs[0]);
        assert(xs.push(x).drop_first() =~= xs.drop_first().push(x));
        lemma_insert_all_snoc(nodes, insert_sorted_spec(nodes, l, xs[0]), xs.drop_first(), x);
    }
}

proof fn lemma_insert_sorted_at(nodes: Seq<Node>, l: Seq<usize>, id: usize, i: int)
    requires
        0 <= i <= l.len(),
        forall|j: int| 0 <= j < i ==> !node_before(nodes[id as int], nodes[#[trigger] l[j] as int]),
        i < l.len() ==> node_before(nodes[id as int], nodes[l[i] as int]),
    ensures
        insert_sorted_spec(nodes, l, id) == l.insert(i, id),
    decreases l.len(),
{
    if l.len() == 0 {
        assert(insert_sorted_spec(nodes, l, id) =~= l.insert(0, id));
    } else if i == 0 {
        assert(seq![id] + l =~= l.insert(0, id));
    } else {
        assert(!node_before(nodes[id as int], nodes[l[0] as int]));
        assert(forall|j: int|
            0 <= j < i - 1 ==> l.drop_first()[j] == l[j + 1] && !node_before(
                nodes[id as int],
                nodes[#[trigger] l.drop_first()[j] as int],
            ));
        lemma_insert_sorted_at(nodes, l.drop_first(), id, i - 1);
        assert(seq![l[0]] + l.drop_first().insert(i - 1, id) =~= l.insert(i, id));
    }
}

/// Membership after an insertion: the new list holds exactly the old
/// entries and the inserted one.
pub proof fn lemma_insert_sorted_elems(nodes: Seq<Node>, l: Seq<usize>, id: usize)
    ensures
        insert_sorted_spec(nodes, l, id).len() == l.len() + 1,
        forall|y: usize|
            #![trigger insert_sorted_spec(nodes, l, id).contains(y)]
            insert_sorted_spec(nodes, l, id).contains(y) <==> (l.contains(y) || y == id),
    decreases l.len(),
{
    let r = insert_sorted_spec(nodes, l, id);
    if l.len() == 0 {
        assert forall|y: usize| r.contains(y) <==> (l.contains(y) || y == id) by {
            if y == id {
                assert(r[0] == id);
            }
            if r.contains(y) {
                let j = choose|j: int| 0 <= j < r.len() && r[j] == y;
                assert(j == 0);
            }
            if l.contains(y) {
                let j = choose|j: int| 0 <= j < l.len() && l[j] == y;
            }
        }
    } else if node_before(nodes[id as int], nodes[l[0] as int]) {
        assert forall|y: usize| r.contains(y) <==> (l.contains(y) || y == id) by {
            if r.contains(y) {
                let j = choose|j: int| 0 <= j < r.len() && r[j] == y;
                if j == 0 {
                } else {
                    assert(l[j - 1] == y);
                    assert(l.contains(y));
                }
            }
            if y == id {
                assert(r[0] == id);
            }
            if l.contains(y) {
                let j = choose|j: int| 0 <= j < l.len() && l[j] == y;
                assert(r[j + 1] == y);
            }
        }
    } else {
        lemma_insert_sorted_elems(nodes, l.drop_first(), id);
        let rr = insert_sorted_spec(nodes, l.drop_first(), id);
        assert forall|y: usize| r.contains(y) <==> (l.contains(y) || y == id) by {
            if r.contains(y) {
                let j = choose|j: int| 0 <= j < r.len() && r[j] == y;
                if j == 0 {
                    assert(l[0] == y);
                    assert(l.contains(y));
                } else {
                    assert(rr[j - 1] == y);
                    assert(rr.contains(y));
                    if l.drop_first().contains(y) {
                        let j2 = choose|j2: int|
                            0 <= j2 < l.drop_first().len() && l.drop_first()[j2] == y;
                        assert(l[j2 + 1] == y);
                        assert(l.contains(y));
                    }
                }
            }
            if y == id {
                assert(insert_sorted_spec(nodes, l.drop_first(), id).contains(id));
                assert(rr.contains(id));
                let j = choose|j: int| 0 <= j < rr.len() && rr[j] == y;
                assert(r[j + 1] == y);
            }
            if l.contains(y) {
                let j = choose|j: int| 0 <= j < l.len() && l[j] == y;
                if j == 0 {
                    assert(r[0] == y);
                } else {
                    assert(l.drop_first()[j - 1] == y);
                    assert(l.drop_first().contains(y));
                    assert(insert_sorted_spec(nodes, l.drop_first(), id).contains(y));
                    assert(rr.contains(y));
                    let j2 = choose|j2: int| 0 <= j2 < rr.len() && rr[j2] == y;
                    assert(r[j2 + 1] == y);
                }
            }
        }
    }
}

/// An insertion into a ranked list of valid ids keeps it ranked and valid.
pub proof fn lemma_insert_sorted_sorted(nodes: Seq<Node>, l: Seq<usize>, id: usize)
    requires
        sorted_ids(nodes, l),
        ids_valid(nodes, l),
        id < nodes.len(),
    ensures
        sorted_ids(nodes, insert_sorted_spec(nodes, l, id)),
        ids_valid(nodes, insert_sorted_spec(nodes, l, id)),
    decreases l.len(),
{
    let r = insert_sorted_spec(nodes, l, id);
    lemma_insert_sorted_elems(nodes, l, id);
    if l.len() == 0 {
    } else if node_before(nodes[id as int], nodes[l[0] as int]) {
        assert forall|i: int, j: int| 0 <= i < j < r.len() implies node_le(
            nodes[#[trigger] r[i] as int],
            nodes[#[trigger] r[j] as int],
        ) by {
            if i == 0 {
                assert(r[0] == id);
                if j == 1 {
                    lemma_node_order_total(nodes[id as int], nodes[l[0] as int]);
                } else {
                    assert(r[j] == l[j - 1]);
                    assert(node_le(nodes[l[0] as int], nodes[l[j - 1] as int]));
                    lemma_node_order_total(nodes[id as int], nodes[l[0] as int]);
                    lemma_node_le_trans(
                        nodes[id as int],
                        nodes[l[0] as int],
                        nodes[l[j - 1] as int],
                    );
                }
            } else {
                assert(r[i] == l[i - 1] && r[j] == l[j - 1]);
            }
        }
        assert(ids_valid(nodes, r));
    } else {
        assert(forall|j: int|
            0 <= j < l.drop_first().len() ==> (#[trigger] l.drop_first()[j]) == l[j + 1]);
        lemma_insert_sorted_sorted(nodes, l.drop_first(), id);
        let rr = insert_sorted_spec(nodes, l.drop_first(), id);
        lemma_insert_sorted_elems(nodes, l.drop_first(), id);
        assert forall|i: int, j: int| 0 <= i < j < r.len() implies node_le(
            nodes[#[trigger] r[i] as int],
            nodes[#[trigger] r[j] as int],
        ) by {
            if i == 0 {
                assert(r[0] == l[0]);
                assert(r[j] == rr[j - 1]);
                assert(rr.contains(rr[j - 1]));
                if rr[j - 1] == id {
                    lemma_node_order_total(nodes[id as int], nodes[l[0] as int]);
                } else {
                    assert(l.drop_first().contains(rr[j - 1]));
                    let j2 = choose|j2: int|
                        0 <= j2 < l.drop_first().len() && l.drop_first()[j2] == rr[j - 1];
                    assert(l[j2 + 1] == rr[j - 1]);
                    assert(node_le(nodes[l[0] as int], nodes[l[j2 + 1] as int]));
                }
            } else {
                assert(r[i] == rr[i - 1] && r[j] == rr[j - 1]);
            }
        }
        assert(ids_valid(nodes, r));
    }
}

proof fn lemma_insert_all_elems(nodes: Seq<Node>, l: Seq<usize>, xs: Seq<usize>)
    ensures
        insert_all_spec(nodes, l, xs).len() == l.len() + xs.len(),
        forall|y: usize|
            #![trigger insert_all_spec(nodes, l, xs).contains(y)]
            insert_all_spec(nodes, l, xs).contains(y) <==> (l.contains(y) || xs.contains(y)),
    decreases xs.len(),
{
    if xs.len() == 0 {
        assert(forall|y: usize| !xs.contains(y));
    } else {
        let l1 = insert_sorted_spec(nodes, l, xs[0]);
        lemma_insert_sorted_elems(nodes, l, xs[0]);
        lemma_insert_all_elems(nodes, l1, xs.drop_first());
        assert forall|y: usize| insert_all_spec(nodes, l, xs).contains(y) <==> (l.contains(y)
            || xs.contains(y)) by {
            assert(insert_all_spec(nodes, l1, xs.drop_first()).contains(y) <==> (l1.contains(y)
                || xs.drop_first().contains(y)));
            assert(l1.contains(y) <==> (l.contains(y) || y == xs[0]));
            if xs.drop_first().contains(y) {
                let j = choose|j: int| 0 <= j < xs.drop_first().len() && xs.drop_first()[j] == y;
                assert(xs[j + 1] == y);
                assert(xs.contains(y));
            }
            if xs.contains(y) {
                let j = choose|j: int| 0 <= j < xs.len() && xs[j] == y;
                if j > 0 {
                    assert(xs.drop_first()[j - 1] == y);
                    assert(xs.drop_first().contains(y));
                }
            }
        }
    }
}

proof fn lemma_insert_all_sorted(nodes: Seq<Node>, l: Seq<usize>, xs: Seq<usize>)
    requires
        sorted_ids(nodes, l),
        ids_valid(nodes, l),
        ids_valid(nodes, xs),
    ensures
        sorted_ids(nodes, insert_all_spec(nodes, l, xs)),
        ids_valid(nodes, insert_all_spec(nodes, l, xs)),
    decreases xs.len(),
{
    if xs.len() > 0 {
        lemma_insert_sorted_sorted(nodes, l, xs[0]);
        assert(forall|k: int|
            0 <= k < xs.drop_first().len() ==> (#[trigger] xs.drop_first()[k]) == xs[k + 1]);
        lemma_insert_all_sorted(nodes, insert_sorted_spec(nodes, l, xs[0]), xs.drop_first());
    }
}

proof fn lemma_expand_props(nodes: Seq<Node>, l: Seq<usize>, pp: int, rounds: int)
    requires
        0 <= pp,
        wf_nodes(nodes),
        sorted_ids(nodes, l),
        ids_valid(nodes, l),
    ensures
        sorted_ids(nodes, expand_spec(nodes, l, pp, rounds)),
        ids_valid(nodes, expand_spec(nodes, l, pp, rounds)),
        expand_spec(nodes, l, pp, rounds).len() >= l.len(),
        forall|y: usize|
            l.contains(y) ==> #[trigger] expand_spec(nodes, l, pp, rounds).contains(y),
    decreases rounds,
{
    if rounds <= 0 || pp >= l.len() {
    } else {
        let cs = nodes[l[pp] as int].children@;
        assert(l[pp] < nodes.len());
        assert forall|k: int| 0 <= k < cs.len() implies (#[trigger] cs[k]) < nodes.len() by {
            assert((nodes[l[pp] as int].children@[k] as int) < l[pp] as int);
        }
        assert(ids_valid(nodes, cs));
        let l2 = insert_all_spec(nodes, l, cs);
        lemma_insert_all_sorted(nodes, l, cs);
        lemma_insert_all_elems(nodes, l, cs);
        lemma_expand_props(nodes, l2, pp + 1, rounds - 1);
    }
}

/// The frontier selection returns at most `count + 1` entries; when any
/// root is given it returns at least one, its first entry sorts no later
/// than any node of the whole result, and no later than any root — for
/// `count` zero it is the single root, or the largest of several.
pub proof fn lemma_select_props(nodes: Seq<Node>, roots: Seq<usize>, count: int)
    requires
        wf_nodes(nodes),
        ids_valid(nodes, roots),
        count >= 0,
    ensures
        select_spec(nodes, roots, count).len() <= count + 1,
        sorted_ids(nodes, select_spec(nodes, roots, count)),
        roots.len() > 0 ==> select_spec(nodes, roots, count).len() >= 1,
        roots.len() > 0 ==> forall|k: int|
            0 <= k < roots.len() ==> node_le(
                nodes[select_spec(nodes, roots, count)[0] as int],
                nodes[#[trigger] roots[k] as int],
            ),
{
    let sorted0 = insert_all_spec(nodes, Seq::empty(), roots);
    let expanded = expand_spec(nodes, sorted0, 0, count);
    let r = select_spec(nodes, roots, count);
    assert(sorted_ids(nodes, Seq::<usize>::empty()));
    assert(ids_valid(nodes, Seq::<usize>::empty()));
    lemma_insert_all_sorted(nodes, Seq::empty(), roots);
    lemma_insert_all_elems(nodes, Seq::empty(), roots);
    lemma_expand_props(nodes, sorted0, 0, count);
    if expanded.len() > count {
        assert(r =~= expanded.take(count + 1));
        assert(forall|k: int| 0 <= k < r.len() ==> r[k] == expanded[k]);
    }
    assert(sorted_ids(nodes, r)) by {
        assert forall|i: int, j: int| 0 <= i < j < r.len() implies node_le(
            nodes[#[trigger] r[i] as int],
            nodes[#[trigger] r[j] as int],
        ) by {
            assert(r[i] == expanded[i] && r[j] == expanded[j]);
        }
    }
    if roots.len() > 0 {
        assert forall|k: int| 0 <= k < roots.len() implies node_le(
            nodes[r[0] as int],
            nodes[#[trigger] roots[k] as int],
        ) by {
            assert(roots.contains(roots[k]));
            assert(sorted0.contains(roots[k]));
            assert(expanded.contains(roots[k]));
            let j = choose|j: int| 0 <= j < expanded.len() && expanded[j] == roots[k];
            assert(r[0] == expanded[0]);
            if j == 0 {
                lemma_node_order_total(nodes[r[0] as int], nodes[r[0] as int]);
            } else {
                assert(node_le(nodes[expanded[0] as int], nodes[expanded[j] as int]));
            }
        }
    }
}

/// Finds the rank at which `id` belongs in the ordered list `l`.
fn find_insert_pos(t: &Tree, l: &Vec<usize>, id: usize) -> (pos: usize)
    requires
        id < t.nodes@.len(),
        ids_valid(t.nodes@, l@),
    ensures
        pos <= l@.len(),
        forall|j: int|
            0 <= j < pos ==> !node_before(t.nodes@[id as int], t.nodes@[#[trigger] l@[j] as int]),
        pos < l@.len() ==> node_before(t.nodes@[id as int], t.nodes@[l@[pos as int] as int]),
{
    let mut i: usize = 0;
    while i < l.len()
        invariant
            0 <= i <= l@.len(),
            id < t.nodes@.len(),
            ids_valid(t.nodes@, l@),
            forall|j: int|
                0 <= j < i ==> !node_before(t.nodes@[id as int], t.nodes@[#[trigger] l@[j] as int]),
        decreases l@.len() - i,
    {
        let other = l[i];
        if node_before_exec(&t.nodes[id], &t.nodes[other]) {
            return i;
        }
        i = i + 1;
    }
    i
}

/// Places `id` into the ordered list, after every entry that does not
/// sort strictly after it.
fn insert_sorted(t: &Tree, l: &mut Vec<usize>, id: usize)
    requires
        id < t.nodes@.len(),
        ids_valid(t.nodes@, old(l)@),
    ensures
        final(l)@ == insert_sorted_spec(t.nodes@, old(l)@, id),
        ids_valid(t.nodes@, final(l)@),
{
    let pos = find_insert_pos(t, l, id);
    l.insert(pos, id);
    proof {
        lemma_insert_sorted_at(t.nodes@, old(l)@, id, pos as int);
        assert forall|k: int| 0 <= k < l@.len() implies (#[trigger] l@[k]) < t.nodes@.len() by {
            if k < pos {
                assert(l@[k] == old(l)@[k]);
            } else if k == pos {
            } else {
                assert(l@[k] == old(l)@[k - 1]);
            }
        }
    }
}

/// The greedy frontier selection. Starting from the given root ids ranked
/// by the node order, each of `max_to_show` rounds reveals the children of
/// the node at the round's rank into the working list; the result is cut
/// to `max_to_show + 1` entries when more are available.
#[verifier::loop_isolation(false)]
pub fn find_big_ones(t: &Tree, l: &Vec<usize>, max_to_show: usize) -> (r: Vec<usize>)
    requires
        wf_nodes(t.nodes@),
        ids_valid(t.nodes@, l@),
    ensures
        r@ == select_spec(t.nodes@, l@, max_to_show as int),
        ids_valid(t.nodes@, r@),
        sorted_ids(t.nodes@, r@),
        r@.len() <= max_to_show + 1,
        l@.len() > 0 ==> r@.len() >= 1,
{
    proof {
        lemma_select_props(t.nodes@, l@, max_to_show as int);
    }
    let mut new_l: Vec<usize> = Vec::new();
    let mut i: usize = 0;
    proof {
        assert(l@.take(0) =~= Seq::<usize>::empty());
    }
    while i < l.len()
        invariant
            0 <= i <= l@.len(),
            new_l@ == insert_all_spec(t.nodes@, Seq::empty(), l@.take(i as int)),
            ids_valid(t.nodes@, new_l@),
        decreases l@.len() - i,
    {
        proof {
            lemma_insert_all_snoc(t.nodes@, Seq::empty(), l@.take(i as int), l@[i as int]);
            assert(l@.take(i + 1) =~= l@.take(i as int).push(l@[i as int]));
        }
        let root = l[i];
        insert_sorted(t, &mut new_l, root);
        i = i + 1;
    }
    proof {
        assert(l@.take(l@.len() as int) =~= l@);
    }
    let ghost sorted0 = new_l@;
    let mut pp: usize = 0;
    while pp < max_to_show && pp < new_l.len()
        invariant
            0 <= pp <= max_to_show,
            ids_valid(t.nodes@, new_l@),
            expand_spec(t.nodes@, new_l@, pp as int, max_to_show - pp) == expand_spec(
                t.nodes@,
                sorted0,
                0,
                max_to_show as int,
            ),
        decreases max_to_show - pp,
    {
        let parent = new_l[pp];
        let ghost at_round = new_l@;
        let mut c: usize = 0;
        proof {
            assert(t.nodes@[parent as int].children@.take(0) =~= Seq::<usize>::empty());
        }
        while c < t.nodes[parent].children.len()
            invariant
                0 <= c <= t.nodes@[parent as int].children@.len(),
                parent < t.nodes@.len(),
                new_l@ == insert_all_spec(
                    t.nodes@,
                    at_round,
                    t.nodes@[parent as int].children@.take(c as int),
                ),
                ids_valid(t.nodes@, new_l@),
            decreases t.nodes@[parent as int].children@.len() - c,
        {
            proof {
                lemma_insert_all_snoc(
                    t.nodes@,
                    at_round,
                    t.nodes@[parent as int].children@.take(c as int),
                    t.nodes@[parent as int].children@[c as int],
                );
                assert(t.nodes@[parent as int].children@.take(c + 1)
                    =~= t.nodes@[parent as int].children@.take(c as int).push(
                    t.nodes@[parent as int].children@[c as int],
                ));
            }
            let child = t.nodes[parent].children[c];
            insert_sorted(t, &mut new_l, child);
            c = c + 1;
        }
        proof {
            let cs = t.nodes@[parent as int].children@;
            assert(cs.take(cs.len() as int) =~= cs);
        }
        pp = pp + 1;
    }
    proof {
        assert(new_l@ == expand_spec(t.nodes@, new_l@, pp as int, max_to_show - pp));
    }
    let ghost expanded = expand_spec(t.nodes@, sorted0, 0, max_to_show as int);
    if new_l.len() > max_to_show {
        new_l.truncate(max_to_show + 1);
        proof {
            assert(new_l@ =~= expanded.take(max_to_show + 1));
        }
    }
    new_l
}

} // verus!
