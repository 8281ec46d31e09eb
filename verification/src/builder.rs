//! The tree builder: walks raw listings, deduplicates hard-link
//! identities, aggregates sizes bottom-up into the arena, and accumulates
//! the permissions flag. Verified against the traversal model in
//! `crate::tree`.

use vstd::prelude::*;

use crate::path::normalize_root;
use crate::tree::{
    children_match, entry_total, lemma_children_match_extend, lemma_children_match_index,
    lemma_children_match_parent_mono, lemma_children_match_push, lemma_list_total_parts,
    lemma_node_matches_extend, lemma_sum_sizes_take_le, lemma_sum_sizes_take_succ,
    lemma_walk_list_snoc, lemma_walk_listing_bounds, listing_total, node_matches, root_total,
    sum_sizes, walk_entry, walk_list, walk_listing, walk_root, wf_nodes, Node, RawEntry,
    RawListing, RawMeta, RawRoot, Tree,
};

verus! {

/// The hard-link identities seen so far in one root's traversal.
pub struct InodeSet {
    pub seen: Vec<u64>,
}

impl View for InodeSet {
    type V = Set<u64>;

    open spec fn view(&self) -> Set<u64> {
        Set::new(|x: u64| self.seen@.contains(x))
    }
}

impl InodeSet {
    /// An empty identity set, fresh for each root.
    pub fn new() -> (r: InodeSet)
        ensures
            r@ == Set::<u64>::empty(),
    {
        let r = InodeSet { seen: Vec::new() };
        proof {
            assert(r@ =~= Set::<u64>::empty());
        }
        r
    }

    /// Whether this identity was already counted.
    pub fn contains(&self, x: u64) -> (r: bool)
        ensures
            r == self@.contains(x),
    {
        let mut i: usize = 0;
        while i < self.seen.len()
            invariant
                0 <= i <= self.seen@.len(),
                forall|j: int| 0 <= j < i ==> self.seen@[j] != x,
            decreases self.seen@.len() - i,
        {
            if self.seen[i] == x {
                return true;
            }
            i = i + 1;
        }
        false
    }

    /// Records one identity.
    pub fn insert(&mut self, x: u64)
        ensures
            final(self)@ == old(self)@.insert(x),
    {
        self.seen.push(x);
        proof {
            assert forall|y: u64| self@.contains(y) == old(self)@.insert(x).contains(y) by {
                if y == x {
                    assert(self.seen@[self.seen@.len() - 1] == x);
                    assert(self.seen@.contains(x));
                } else {
                    if self.seen@.contains(y) {
                        let j = choose|j: int| 0 <= j < self.seen@.len() && self.seen@[j] == y;
                        assert(old(self).seen@[j] == y);
                        assert(old(self).seen@.contains(y));
                    }
                    if old(self).seen@.contains(y) {
                        let j = choose|j: int|
                            0 <= j < old(self).seen@.len() && old(self).seen@[j] == y;
                        assert(self.seen@[j] == y);
                        assert(self.seen@.contains(y));
                    }
                }
            }
            assert(self@ =~= old(self)@.insert(x));
        }
    }
}

proof fn lemma_prefix_trans(a: Seq<Node>, b: Seq<Node>, c: Seq<Node>)
    requires
        a.is_prefix_of(b),
        b.is_prefix_of(c),
    ensures
        a.is_prefix_of(c),
{
    assert(a =~= c.subrange(0, a.len() as int));
}

/// Builds the node for one directory entry, unless it is skipped: an
/// unreadable entry clears the flag and yields nothing; an already-seen
/// hard-link identity yields nothing; otherwise a node whose size is the
/// entry's own reported size plus the sum of its retained children's.
#[verifier::loop_isolation(false)]
fn examine_entry(e: &RawEntry, inodes: &mut InodeSet, t: &mut Tree) -> (r: (bool, Option<usize>))
    requires
        wf_nodes(old(t).nodes@),
        entry_total(*e) <= u64::MAX,
    ensures
        wf_nodes(final(t).nodes@),
        old(t).nodes@.is_prefix_of(final(t).nodes@),
        r.0 == walk_entry(*e, old(inodes)@).ok,
        final(inodes)@ == walk_entry(*e, old(inodes)@).seen,
        r.1 is Some <==> walk_entry(*e, old(inodes)@).node is Some,
        r.1 is Some ==> r.1->0 < final(t).nodes@.len() && node_matches(
            final(t).nodes@,
            r.1->0 as int,
            walk_entry(*e, old(inodes)@).node->0,
        ),
    decreases *e,
{
    match &e.meta {
        RawMeta::Unreadable => (false, None),
        RawMeta::Known { size, inode } => {
            let own: u64 = *size;
            let ino: u64 = *inode;
            if inodes.contains(ino) {
                (true, None)
            } else {
                inodes.insert(ino);
                let ghost seen1 = old(inodes)@.insert(ino);
                let (ok, ids) = examine_dir(&e.listing, inodes, t);
                let ghost w = walk_listing(e.listing, seen1);
                proof {
                    lemma_walk_listing_bounds(e.listing, seen1);
                    assert(0 <= sum_sizes(w.nodes) <= listing_total(e.listing));
                }
                let mut total: u64 = own;
                let mut j: usize = 0;
                while j < ids.len()
                    invariant
                        0 <= j <= ids@.len(),
                        ids@.len() == w.nodes.len(),
                        w == walk_listing(e.listing, seen1),
                        own + sum_sizes(w.nodes) <= u64::MAX,
                        forall|k: int|
                            0 <= k < w.nodes.len() ==> (#[trigger] w.nodes[k].size) >= 0,
                        children_match(t.nodes@, t.nodes@.len() as int, ids@, w.nodes),
                        total == own + sum_sizes(w.nodes.take(j as int)),
                    decreases ids@.len() - j,
                {
                    proof {
                        lemma_children_match_index(
                            t.nodes@,
                            t.nodes@.len() as int,
                            ids@,
                            w.nodes,
                            j as int,
                        );
                        lemma_sum_sizes_take_succ(w.nodes, j as int);
                        lemma_sum_sizes_take_le(w.nodes, j + 1);
                    }
                    let child = ids[j];
                    total = total + t.nodes[child].size;
                    j = j + 1;
                }
                proof {
                    assert(w.nodes.take(ids@.len() as int) =~= w.nodes);
                }
                let id = t.nodes.len();
                let ghost pre = t.nodes@;
                let name = e.name.clone();
                let ghost ids_view = ids@;
                t.nodes.push(Node { name, size: total, children: ids });
                proof {
                    assert(pre.is_prefix_of(t.nodes@));
                    assert forall|i2: int, k: int|
                        0 <= i2 < t.nodes@.len() && 0 <= k
                            < t.nodes@[i2].children@.len() implies (
                    #[trigger] t.nodes@[i2].children@[k] as int) < i2 by {
                        if i2 < pre.len() {
                            assert(t.nodes@[i2] == pre[i2]);
                            assert(wf_nodes(pre));
                        } else {
                            assert(t.nodes@[i2].children@ == ids_view);
                            lemma_children_match_index(pre, id as int, ids_view, w.nodes, k);
                        }
                    }
                    lemma_children_match_extend(pre, t.nodes@, id as int, ids_view, w.nodes);
                    assert(node_matches(t.nodes@, id as int, walk_entry(*e, old(inodes)@).node->0));
                }
                (ok, Some(id))
            }
        },
    }
}

/// Builds the nodes under one listing: nothing under a leaf, nothing (and
/// a cleared flag) under an unopenable directory, one node per retained
/// entry of an opened one, in listing order.
#[verifier::loop_isolation(false)]
pub fn examine_dir(listing: &RawListing, inodes: &mut InodeSet, t: &mut Tree) -> (r: (
    bool,
    Vec<usize>,
))
    requires
        wf_nodes(old(t).nodes@),
        listing_total(*listing) <= u64::MAX,
    ensures
        wf_nodes(final(t).nodes@),
        old(t).nodes@.is_prefix_of(final(t).nodes@),
        r.0 == walk_listing(*listing, old(inodes)@).ok,
        final(inodes)@ == walk_listing(*listing, old(inodes)@).seen,
        r.1@.len() == walk_listing(*listing, old(inodes)@).nodes.len(),
        children_match(
            final(t).nodes@,
            final(t).nodes@.len() as int,
            r.1@,
            walk_listing(*listing, old(inodes)@).nodes,
        ),
    decreases *listing,
{
    match listing {
        RawListing::Leaf => {
            proof {
                assert(children_match(
                    t.nodes@,
                    t.nodes@.len() as int,
                    Seq::<usize>::empty(),
                    Seq::<crate::tree::SpecNode>::empty(),
                ));
            }
            (true, Vec::new())
        },
        RawListing::Failed => {
            proof {
                assert(children_match(
                    t.nodes@,
                    t.nodes@.len() as int,
                    Seq::<usize>::empty(),
                    Seq::<crate::tree::SpecNode>::empty(),
                ));
            }
            (false, Vec::new())
        },
        RawListing::Opened { entries } => {
            let mut ok = true;
            let mut ids: Vec<usize> = Vec::new();
            let mut i: usize = 0;
            proof {
                assert(entries@.take(0) =~= Seq::<RawEntry>::empty());
            }
            while i < entries.len()
                invariant
                    0 <= i <= entries@.len(),
                    wf_nodes(t.nodes@),
                    old(t).nodes@.is_prefix_of(t.nodes@),
                    listing_total(RawListing::Opened { entries: *entries }) <= u64::MAX,
                    walk_listing(*listing, old(inodes)@) == walk_list(entries@, old(inodes)@),
                    listing_total(*listing) == crate::tree::list_total(entries@),
                    ok == walk_list(entries@.take(i as int), old(inodes)@).ok,
                    inodes@ == walk_list(entries@.take(i as int), old(inodes)@).seen,
                    ids@.len() == walk_list(entries@.take(i as int), old(inodes)@).nodes.len(),
                    children_match(
                        t.nodes@,
                        t.nodes@.len() as int,
                        ids@,
                        walk_list(entries@.take(i as int), old(inodes)@).nodes,
                    ),
                decreases entries@.len() - i,
            {
                let ghost prefix = entries@.take(i as int);
                let ghost pre_t = t.nodes@;
                let ghost pre_nodes = walk_list(prefix, old(inodes)@).nodes;
                proof {
                    lemma_list_total_parts(entries@, i as int);
                }
                let (eok, oid) = examine_entry(&entries[i], inodes, t);
                proof {
                    lemma_walk_list_snoc(prefix, entries@[i as int], old(inodes)@);
                    assert(entries@.take(i + 1) =~= prefix.push(entries@[i as int]));
                    lemma_prefix_trans(old(t).nodes@, pre_t, t.nodes@);
                    lemma_children_match_extend(pre_t, t.nodes@, pre_t.len() as int, ids@, pre_nodes);
                    lemma_children_match_parent_mono(
                        t.nodes@,
                        pre_t.len() as int,
                        t.nodes@.len() as int,
                        ids@,
                        pre_nodes,
                    );
                }
                ok = ok && eok;
                let ghost went = walk_entry(entries@[i as int], walk_list(prefix, old(inodes)@).seen);
                match oid {
                    Some(id) => {
                        proof {
                            lemma_children_match_push(
                                t.nodes@,
                                t.nodes@.len() as int,
                                ids@,
                                pre_nodes,
                                id,
                                went.node->0,
                            );
                            assert(walk_list(entries@.take(i + 1), old(inodes)@).nodes =~= pre_nodes.push(
                                went.node->0,
                            ));
                        }
                        ids.push(id);
                    },
                    None => {
                        proof {
                            assert(walk_list(entries@.take(i + 1), old(inodes)@).nodes =~= pre_nodes);
                        }
                    },
                }
                i = i + 1;
            }
            proof {
                assert(entries@.take(entries@.len() as int) =~= entries@);
            }
            (ok, ids)
        },
    }
}

/// Builds the tree for one root: a fresh identity set, the listed entries,
/// and a root node named by the normalized root path whose size is the sum
/// of its children's sizes.
#[verifier::loop_isolation(false)]
pub fn examine_dir_str(root: &RawRoot, t: &mut Tree) -> (r: (bool, usize))
    requires
        wf_nodes(old(t).nodes@),
        root_total(*root) <= u64::MAX,
    ensures
        wf_nodes(final(t).nodes@),
        old(t).nodes@.is_prefix_of(final(t).nodes@),
        r.0 == walk_root(*root).ok,
        r.1 < final(t).nodes@.len(),
        node_matches(final(t).nodes@, r.1 as int, walk_root(*root).node),
{
    let mut inodes = InodeSet::new();
    let (hp, ids) = examine_dir(&root.listing, &mut inodes, t);
    let ghost w = walk_listing(root.listing, Set::empty());
    proof {
        lemma_walk_listing_bounds(root.listing, Set::empty());
        assert(0 <= sum_sizes(w.nodes) <= listing_total(root.listing));
    }
    let mut total: u64 = 0;
    let mut j: usize = 0;
    proof {
        assert(w.nodes.take(0) =~= Seq::<crate::tree::SpecNode>::empty());
    }
    while j < ids.len()
        invariant
            0 <= j <= ids@.len(),
            ids@.len() == w.nodes.len(),
            w == walk_listing(root.listing, Set::<u64>::empty()),
            sum_sizes(w.nodes) <= u64::MAX,
            forall|k: int| 0 <= k < w.nodes.len() ==> (#[trigger] w.nodes[k].size) >= 0,
            children_match(t.nodes@, t.nodes@.len() as int, ids@, w.nodes),
            total == sum_sizes(w.nodes.take(j as int)),
        decreases ids@.len() - j,
    {
        proof {
            lemma_children_match_index(t.nodes@, t.nodes@.len() as int, ids@, w.nodes, j as int);
            lemma_sum_sizes_take_succ(w.nodes, j as int);
            lemma_sum_sizes_take_le(w.nodes, j + 1);
        }
        let child = ids[j];
        total = total + t.nodes[child].size;
        j = j + 1;
    }
    proof {
        assert(w.nodes.take(ids@.len() as int) =~= w.nodes);
    }
    let id = t.nodes.len();
    let ghost pre = t.nodes@;
    let ghost ids_view = ids@;
    let name = normalize_root(root.name.as_str());
    t.nodes.push(Node { name, size: total, children: ids });
    proof {
        assert(pre.is_prefix_of(t.nodes@));
        assert forall|i2: int, k: int|
            0 <= i2 < t.nodes@.len() && 0 <= k < t.nodes@[i2].children@.len() implies (
        #[trigger] t.nodes@[i2].children@[k] as int) < i2 by {
            if i2 < pre.len() {
                assert(t.nodes@[i2] == pre[i2]);
                assert(wf_nodes(pre));
            } else {
                assert(t.nodes@[i2].children@ == ids_view);
                lemma_children_match_index(pre, id as int, ids_view, w.nodes, k);
            }
        }
        lemma_children_match_extend(pre, t.nodes@, id as int, ids_view, w.nodes);
        assert(node_matches(t.nodes@, id as int, walk_root(*root).node));
    }
    (hp, id)
}

/// Builds every root's tree into one arena, each root with its own
/// identity set; the returned flag is the conjunction of every root's.
#[verifier::loop_isolation(false)]
pub fn get_dir_tree(filenames: &Vec<RawRoot>) -> (r: (bool, Tree, Vec<usize>))
    requires
        forall|k: int|
            0 <= k < filenames@.len() ==> root_total(#[trigger] filenames@[k]) <= u64::MAX,
    ensures
        wf_nodes(r.1.nodes@),
        r.0 == (forall|k: int|
            0 <= k < filenames@.len() ==> (#[trigger] walk_root(filenames@[k]).ok)),
        r.2@.len() == filenames@.len(),
        forall|k: int|
            0 <= k < filenames@.len() ==> node_matches(
                r.1.nodes@,
                r.2@[k] as int,
                walk_root(#[trigger] filenames@[k]).node,
            ),
{
    let mut t = Tree { nodes: Vec::new() };
    let mut permissions = true;
    let mut results: Vec<usize> = Vec::new();
    let mut i: usize = 0;
    while i < filenames.len()
        invariant
            0 <= i <= filenames@.len(),
            wf_nodes(t.nodes@),
            forall|k: int|
                0 <= k < filenames@.len() ==> root_total(#[trigger] filenames@[k]) <= u64::MAX,
            permissions == (forall|k: int|
                0 <= k < i ==> (#[trigger] walk_root(filenames@[k]).ok)),
            results@.len() == i,
            forall|k: int|
                0 <= k < i ==> node_matches(
                    t.nodes@,
                    results@[k] as int,
                    walk_root(#[trigger] filenames@[k]).node,
                ),
        decreases filenames@.len() - i,
    {
        let ghost pre_t = t.nodes@;
        let ghost pre_results = results@;
        let ghost pre_i = i as int;
        let (hp, id) = examine_dir_str(&filenames[i], &mut t);
        permissions = permissions && hp;
        results.push(id);
        i = i + 1;
        proof {
            assert forall|k: int|
                0 <= k < i implies node_matches(
                t.nodes@,
                results@[k] as int,
                walk_root(#[trigger] filenames@[k]).node,
            ) by {
                if k < pre_i {
                    assert(results@[k] == pre_results[k]);
                    assert(node_matches(pre_t, pre_results[k] as int, walk_root(filenames@[k]).node));
                    lemma_node_matches_extend(
                        pre_t,
                        t.nodes@,
                        pre_results[k] as int,
                        walk_root(filenames@[k]).node,
                    );
                    assert(pre_t.len() <= t.nodes@.len());
                    assert(pre_results[k] < pre_t.len());
                } else {
                    assert(results@[k] == id);
                    assert(id < t.nodes@.len());
                }
            }
        }
    }
    (permissions, t, results)
}

} // verus!
