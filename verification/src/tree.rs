//! The data model: raw directory listings as the probing layer reports
//! them, the aggregated-size node arena, and the mathematical model of one
//! traversal (hard-link dedup, size aggregation, permission accumulation).

use vstd::prelude::*;

use crate::path::normalize;

verus! {

/// What the size prober reported for one directory entry. There are only
/// two outcomes: a value, or a failure treated as a missing-permission
/// signal — any read failure on an entry (metadata, file type, or the
/// directory item itself) is an `Unreadable`.
pub enum RawMeta {
    /// Byte size and hard-link identity token were both read.
    Known { size: u64, inode: u64 },
    /// The entry could not be fully read: it counts for nothing and the
    /// permissions flag goes false.
    Unreadable,
}

/// What listing an entry as a directory yielded.
pub enum RawListing {
    /// Not a directory (a file, or a symbolic link that is not followed).
    Leaf,
    /// A directory whose entries were listed.
    Opened { entries: Vec<RawEntry> },
    /// A directory that could not be opened: an empty subtree, and the
    /// permissions flag goes false.
    Failed,
}

/// One directory entry as probed: its path, its metadata, and (for an
/// opened directory) its own entries.
pub struct RawEntry {
    pub name: String,
    pub meta: RawMeta,
    pub listing: RawListing,
}

/// One root path to report on: the name given on the command line and the
/// result of listing it — `Opened` when the directory could be read, else
/// `Failed` (a root is always listed, never probed as a single entry).
pub struct RawRoot {
    pub name: String,
    pub listing: RawListing,
}

/// A filesystem entry with its aggregated size. Children are indices into
/// the arena that holds the whole forest; every child index is below the
/// node's own index.
pub struct Node {
    pub name: String,
    pub size: u64,
    pub children: Vec<usize>,
}

/// The arena holding every built node.
pub struct Tree {
    pub nodes: Vec<Node>,
}

/// Arena well-formedness: children point strictly downwards, so every walk
/// along child indices terminates.
pub open spec fn wf_nodes(nodes: Seq<Node>) -> bool {
    forall|i: int, k: int|
        0 <= i < nodes.len() && 0 <= k < nodes[i].children@.len() ==> (
        #[trigger] nodes[i].children@[k] as int) < i
}

/// The model of one built node: its path, its aggregated size, the size
/// the prober reported for the entry itself, and its children.
pub struct SpecNode {
    pub name: Seq<char>,
    pub size: int,
    pub own: int,
    pub children: Seq<SpecNode>,
}

/// What walking one entry yields: the accumulated permissions flag, the
/// node built for it (none when it was skipped), and the identities seen.
pub struct WalkEntryOut {
    pub ok: bool,
    pub node: Option<SpecNode>,
    pub seen: Set<u64>,
}

/// What walking a listing yields.
pub struct WalkListOut {
    pub ok: bool,
    pub nodes: Seq<SpecNode>,
    pub seen: Set<u64>,
}

/// What walking one root yields.
pub struct WalkRootOut {
    pub ok: bool,
    pub node: SpecNode,
}

pub open spec fn opt_node_seq(n: Option<SpecNode>) -> Seq<SpecNode> {
    match n {
        Some(sn) => seq![sn],
        None => Seq::empty(),
    }
}

/// The sum of the aggregated sizes of a node sequence.
pub open spec fn sum_sizes(nodes: Seq<SpecNode>) -> int
    decreases nodes.len(),
{
    if nodes.len() == 0 {
        0
    } else {
        nodes[0].size + sum_sizes(nodes.drop_first())
    }
}

/// The model of one traversal step over a single entry: an unreadable
/// entry contributes nothing and clears the flag; an already-seen
/// hard-link identity is skipped entirely; otherwise the identity is
/// recorded and a node is built whose size is the entry's own reported
/// size plus the sum of its retained children's sizes.
pub open spec fn walk_entry(e: RawEntry, seen: Set<u64>) -> WalkEntryOut
    decreases e,
{
    match e.meta {
        RawMeta::Unreadable => WalkEntryOut { ok: false, node: None, seen },
        RawMeta::Known { size, inode } => {
            if seen.contains(inode) {
                WalkEntryOut { ok: true, node: None, seen }
            } else {
                let w = walk_listing(e.listing, seen.insert(inode));
                WalkEntryOut {
                    ok: w.ok,
                    node: Some(
                        SpecNode {
                            name: e.name@,
                            size: size + sum_sizes(w.nodes),
                            own: size as int,
                            children: w.nodes,
                        },
                    ),
                    seen: w.seen,
                }
            }
        },
    }
}

/// The model of walking what lies under one entry: nothing under a leaf,
/// nothing (and a cleared flag) under an unopenable directory, the
/// entries of an opened one.
pub open spec fn walk_listing(l: RawListing, seen: Set<u64>) -> WalkListOut
    decreases l,
{
    match l {
        RawListing::Leaf => WalkListOut { ok: true, nodes: Seq::empty(), seen },
        RawListing::Failed => WalkListOut { ok: false, nodes: Seq::empty(), seen },
        RawListing::Opened { entries } => walk_list(entries@, seen),
    }
}

/// The model of walking a directory's entries in order, threading the set
/// of seen hard-link identities through.
pub open spec fn walk_list(es: Seq<RawEntry>, seen: Set<u64>) -> WalkListOut
    decreases es,
{
    if es.len() == 0 {
        WalkListOut { ok: true, nodes: Seq::empty(), seen }
    } else {
        let w0 = walk_entry(es[0], seen);
        let rest = walk_list(es.drop_first(), w0.seen);
        WalkListOut {
            ok: w0.ok && rest.ok,
            nodes: opt_node_seq(w0.node) + rest.nodes,
            seen: rest.seen,
        }
    }
}

/// The model of walking one root: its own fresh identity set, a node named
/// by the normalized root path whose size is the sum of its children's
/// (the root's own entry is not probed).
pub open spec fn walk_root(root: RawRoot) -> WalkRootOut {
    let w = walk_listing(root.listing, Set::empty());
    WalkRootOut {
        ok: w.ok,
        node: SpecNode {
            name: normalize(root.name@),
            size: sum_sizes(w.nodes),
            own: 0,
            children: w.nodes,
        },
    }
}

/// The arena node at `id` is the tree that `sn` describes.
pub open spec fn node_matches(nodes: Seq<Node>, id: int, sn: SpecNode) -> bool
    decreases sn, 1int,
{
    &&& 0 <= id < nodes.len()
    &&& nodes[id].name@ == sn.name
    &&& nodes[id].size as int == sn.size
    &&& children_match(nodes, id, nodes[id].children@, sn.children)
}

/// Each listed child index points below the parent and matches the
/// corresponding child tree of the model.
pub open spec fn children_match(nodes: Seq<Node>, parent: int, ids: Seq<usize>, sns: Seq<SpecNode>) -> bool
    decreases sns, 0int,
{
    &&& ids.len() == sns.len()
    &&& sns.len() > 0 ==> {
        &&& (ids[0] as int) < parent
        &&& node_matches(nodes, ids[0] as int, sns[0])
        &&& children_match(nodes, parent, ids.drop_first(), sns.drop_first())
    }
}

/// What `children_match` says of each position.
pub proof fn lemma_children_match_index(
    nodes: Seq<Node>,
    parent: int,
    ids: Seq<usize>,
    sns: Seq<SpecNode>,
    k: int,
)
    requires
        children_match(nodes, parent, ids, sns),
        0 <= k < sns.len(),
    ensures
        (ids[k] as int) < parent,
        node_matches(nodes, ids[k] as int, sns[k]),
    decreases k,
{
    if k > 0 {
        lemma_children_match_index(nodes, parent, ids.drop_first(), sns.drop_first(), k - 1);
    }
}

/// `children_match` grows by one matched child at the end.
pub proof fn lemma_children_match_push(
    nodes: Seq<Node>,
    parent: int,
    ids: Seq<usize>,
    sns: Seq<SpecNode>,
    i: usize,
    s: SpecNode,
)
    requires
        children_match(nodes, parent, ids, sns),
        (i as int) < parent,
        node_matches(nodes, i as int, s),
    ensures
        children_match(nodes, parent, ids.push(i), sns.push(s)),
    decreases sns.len(),
{
    if sns.len() == 0 {
        assert(ids.push(i)[0] == i);
        assert(sns.push(s)[0] == s);
        assert(ids.push(i).drop_first() =~= Seq::<usize>::empty());
        assert(sns.push(s).drop_first() =~= Seq::<SpecNode>::empty());
        assert(children_match(nodes, parent, Seq::<usize>::empty(), Seq::<SpecNode>::empty()));
    } else {
        assert(ids.push(i)[0] == ids[0]);
        assert(sns.push(s)[0] == sns[0]);
        assert(ids.push(i).drop_first() =~= ids.drop_first().push(i));
        assert(sns.push(s).drop_first() =~= sns.drop_first().push(s));
        lemma_children_match_push(nodes, parent, ids.drop_first(), sns.drop_first(), i, s);
    }
}

/// A child bound below one parent index is bound below any later one.
pub proof fn lemma_children_match_parent_mono(
    nodes: Seq<Node>,
    p1: int,
    p2: int,
    ids: Seq<usize>,
    sns: Seq<SpecNode>,
)
    requires
        children_match(nodes, p1, ids, sns),
        p1 <= p2,
    ensures
        children_match(nodes, p2, ids, sns),
    decreases sns.len(),
{
    if sns.len() > 0 {
        lemma_children_match_parent_mono(nodes, p1, p2, ids.drop_first(), sns.drop_first());
    }
}

/// A matched node stays matched when the arena grows at the end.
pub proof fn lemma_node_matches_extend(nodes1: Seq<Node>, nodes2: Seq<Node>, id: int, sn: SpecNode)
    requires
        node_matches(nodes1, id, sn),
        nodes1.is_prefix_of(nodes2),
    ensures
        node_matches(nodes2, id, sn),
    decreases sn, 1int,
{
    assert(nodes2[id] == nodes1[id]);
    lemma_children_match_extend(nodes1, nodes2, id, nodes1[id].children@, sn.children);
}

pub proof fn lemma_children_match_extend(
    nodes1: Seq<Node>,
    nodes2: Seq<Node>,
    parent: int,
    ids: Seq<usize>,
    sns: Seq<SpecNode>,
)
    requires
        children_match(nodes1, parent, ids, sns),
        nodes1.is_prefix_of(nodes2),
    ensures
        children_match(nodes2, parent, ids, sns),
    decreases sns, 0int,
{
    if sns.len() > 0 {
        lemma_node_matches_extend(nodes1, nodes2, ids[0] as int, sns[0]);
        lemma_children_match_extend(nodes1, nodes2, parent, ids.drop_first(), sns.drop_first());
    }
}

/// The raw byte total under one entry, dedup ignored: an upper bound on
/// any size the walk computes.
pub open spec fn entry_total(e: RawEntry) -> int
    decreases e,
{
    (match e.meta {
        RawMeta::Known { size, .. } => size as int,
        _ => 0,
    }) + listing_total(e.listing)
}

pub open spec fn listing_total(l: RawListing) -> int
    decreases l,
{
    match l {
        RawListing::Opened { entries } => list_total(entries@),
        _ => 0,
    }
}

pub open spec fn list_total(es: Seq<RawEntry>) -> int
    decreases es,
{
    if es.len() == 0 {
        0
    } else {
        entry_total(es[0]) + list_total(es.drop_first())
    }
}

/// The raw byte total under one root.
pub open spec fn root_total(root: RawRoot) -> int {
    listing_total(root.listing)
}

pub proof fn lemma_sum_sizes_take_succ(s: Seq<SpecNode>, j: int)
    requires
        0 <= j < s.len(),
    ensures
        sum_sizes(s.take(j + 1)) == sum_sizes(s.take(j)) + s[j].size,
    decreases j,
{
    if j == 0 {
        assert(s.take(1) =~= seq![s[0]]);
        assert(s.take(0) =~= Seq::empty());
        assert(s.take(1).drop_first() =~= Seq::empty());
    } else {
        lemma_sum_sizes_take_succ(s.drop_first(), j - 1);
        assert(s.take(j + 1).drop_first() =~= s.drop_first().take(j));
        assert(s.take(j).drop_first() =~= s.drop_first().take(j - 1));
        assert(s.take(j + 1)[0] == s[0]);
        assert(s.take(j)[0] == s[0]);
        assert(s.drop_first()[j - 1] == s[j]);
    }
}

pub proof fn lemma_sum_sizes_take_le(s: Seq<SpecNode>, j: int)
    requires
        0 <= j <= s.len(),
        forall|k: int| 0 <= k < s.len() ==> (#[trigger] s[k].size) >= 0,
    ensures
        0 <= sum_sizes(s.take(j)) <= sum_sizes(s),
    decreases s.len() - j,
{
    assert(forall|k: int| 0 <= k < s.take(j).len() ==> (#[trigger] s.take(j)[k].size) == s[k].size);
    lemma_sum_sizes_nonneg(s.take(j));
    if j == s.len() {
        assert(s.take(j) =~= s);
    } else {
        lemma_sum_sizes_take_succ(s, j);
        assert(s[j].size >= 0);
        lemma_sum_sizes_take_le(s, j + 1);
    }
}

pub proof fn lemma_sum_sizes_nonneg(s: Seq<SpecNode>)
    requires
        forall|k: int| 0 <= k < s.len() ==> (#[trigger] s[k].size) >= 0,
    ensures
        sum_sizes(s) >= 0,
    decreases s.len(),
{
    if s.len() > 0 {
        assert(forall|k: int|
            0 <= k < s.drop_first().len() ==> (#[trigger] s.drop_first()[k].size) == s[k + 1].size);
        lemma_sum_sizes_nonneg(s.drop_first());
    }
}

/// Every size the walk of one entry computes is bounded by the raw total
/// under that entry, and nothing is negative.
pub proof fn lemma_walk_entry_bounds(e: RawEntry, seen: Set<u64>)
    ensures
        entry_total(e) >= 0,
        walk_entry(e, seen).node is Some ==> 0 <= walk_entry(e, seen).node->0.size
            <= entry_total(e),
    decreases e,
{
    lemma_walk_listing_bounds(e.listing, match e.meta {
        RawMeta::Known { inode, .. } => seen.insert(inode),
        _ => seen,
    });
}

pub proof fn lemma_walk_listing_bounds(l: RawListing, seen: Set<u64>)
    ensures
        listing_total(l) >= 0,
        0 <= sum_sizes(walk_listing(l, seen).nodes) <= listing_total(l),
        forall|k: int|
            0 <= k < walk_listing(l, seen).nodes.len() ==> (#[trigger] walk_listing(
                l,
                seen,
            ).nodes[k].size) >= 0,
    decreases l,
{
    match l {
        RawListing::Opened { entries } => {
            lemma_walk_list_bounds(entries@, seen);
        },
        _ => {},
    }
}

pub proof fn lemma_walk_list_bounds(es: Seq<RawEntry>, seen: Set<u64>)
    ensures
        list_total(es) >= 0,
        0 <= sum_sizes(walk_list(es, seen).nodes) <= list_total(es),
        forall|k: int|
            0 <= k < walk_list(es, seen).nodes.len() ==> (#[trigger] walk_list(
                es,
                seen,
            ).nodes[k].size) >= 0,
    decreases es,
{
    if es.len() > 0 {
        let w0 = walk_entry(es[0], seen);
        lemma_walk_entry_bounds(es[0], seen);
        lemma_walk_list_bounds(es.drop_first(), w0.seen);
        let rest = walk_list(es.drop_first(), w0.seen);
        match w0.node {
            Some(sn) => {
                assert(walk_list(es, seen).nodes =~= seq![sn] + rest.nodes);
                assert(walk_list(es, seen).nodes.drop_first() =~= rest.nodes);
            },
            None => {
                assert(walk_list(es, seen).nodes =~= rest.nodes);
            },
        }
    }
}

/// Each entry's raw total is bounded by its whole listing's raw total.
pub proof fn lemma_list_total_parts(es: Seq<RawEntry>, i: int)
    requires
        0 <= i < es.len(),
    ensures
        entry_total(es[i]) <= list_total(es),
    decreases es.len(),
{
    lemma_walk_entry_bounds(es[0], Set::empty());
    if i == 0 {
        lemma_list_total_nonneg(es.drop_first());
    } else {
        lemma_list_total_parts(es.drop_first(), i - 1);
    }
}

pub proof fn lemma_list_total_nonneg(es: Seq<RawEntry>)
    ensures
        list_total(es) >= 0,
    decreases es.len(),
{
    if es.len() > 0 {
        lemma_walk_entry_bounds(es[0], Set::empty());
        lemma_list_total_nonneg(es.drop_first());
    }
}

/// A node tree whose every node aggregates exactly: its size is the
/// entry's own reported size plus the sum of its children's sizes.
pub open spec fn well_aggregated(sn: SpecNode) -> bool
    decreases sn, 1int,
{
    &&& sn.size == sn.own + sum_sizes(sn.children)
    &&& all_well_aggregated(sn.children)
}

pub open spec fn all_well_aggregated(sns: Seq<SpecNode>) -> bool
    decreases sns, 0int,
{
    sns.len() > 0 ==> well_aggregated(sns[0]) && all_well_aggregated(sns.drop_first())
}

/// What `all_well_aggregated` says of each position.
pub proof fn lemma_all_well_aggregated_index(sns: Seq<SpecNode>, k: int)
    requires
        all_well_aggregated(sns),
        0 <= k < sns.len(),
    ensures
        well_aggregated(sns[k]),
    decreases k,
{
    if k > 0 {
        lemma_all_well_aggregated_index(sns.drop_first(), k - 1);
    }
}

/// Every node the walk of one entry builds aggregates exactly, at every
/// depth: a directory's size is the sum of its retained children's sizes
/// plus its own reported size.
pub proof fn lemma_walk_entry_aggregated(e: RawEntry, seen: Set<u64>)
    ensures
        walk_entry(e, seen).node is Some ==> well_aggregated(walk_entry(e, seen).node->0),
    decreases e,
{
    match e.meta {
        RawMeta::Known { size, inode } => {
            if !seen.contains(inode) {
                lemma_walk_listing_aggregated(e.listing, seen.insert(inode));
            }
        },
        _ => {},
    }
}

pub proof fn lemma_walk_listing_aggregated(l: RawListing, seen: Set<u64>)
    ensures
        all_well_aggregated(walk_listing(l, seen).nodes),
    decreases l,
{
    match l {
        RawListing::Opened { entries } => {
            lemma_walk_list_aggregated(entries@, seen);
        },
        _ => {},
    }
}

pub proof fn lemma_walk_list_aggregated(es: Seq<RawEntry>, seen: Set<u64>)
    ensures
        all_well_aggregated(walk_list(es, seen).nodes),
    decreases es,
{
    if es.len() > 0 {
        let w0 = walk_entry(es[0], seen);
        lemma_walk_entry_aggregated(es[0], seen);
        lemma_walk_list_aggregated(es.drop_first(), w0.seen);
        let rest = walk_list(es.drop_first(), w0.seen);
        match w0.node {
            Some(sn) => {
                assert(walk_list(es, seen).nodes =~= seq![sn] + rest.nodes);
                assert((seq![sn] + rest.nodes).drop_first() =~= rest.nodes);
            },
            None => {
                assert(walk_list(es, seen).nodes =~= rest.nodes);
            },
        }
    }
}

/// The tree of one root aggregates exactly; the root node itself carries
/// no own reported size, only the sum of its children's.
pub proof fn lemma_walk_root_aggregated(root: RawRoot)
    ensures
        well_aggregated(walk_root(root).node),
{
    lemma_walk_listing_aggregated(root.listing, Set::empty());
}

/// One unreadable entry anywhere in a walked listing clears the flag for
/// the whole walk, however many readable entries stand around it.
pub proof fn lemma_unreadable_clears_flag(es: Seq<RawEntry>, seen: Set<u64>, i: int)
    requires
        0 <= i < es.len(),
        es[i].meta is Unreadable,
    ensures
        !walk_list(es, seen).ok,
    decreases es.len(),
{
    if i > 0 {
        lemma_unreadable_clears_flag(es.drop_first(), walk_entry(es[0], seen).seen, i - 1);
    }
}

/// The cleared flag climbs: a retained directory whose own listing walks
/// an unreadable entry clears the flag of the walk that retained it.
pub proof fn lemma_unreadable_below_clears_flag(e: RawEntry, seen: Set<u64>, i: int)
    requires
        e.meta is Known,
        !seen.contains(e.meta->Known_inode),
        e.listing is Opened,
        0 <= i < e.listing->Opened_entries@.len(),
        e.listing->Opened_entries@[i].meta is Unreadable,
    ensures
        !walk_entry(e, seen).ok,
{
    lemma_unreadable_clears_flag(
        e.listing->Opened_entries@,
        seen.insert(e.meta->Known_inode),
        i,
    );
}

/// Every part under an entry was read cleanly: its own probe succeeded,
/// and every listing below it could be opened and probed.
pub open spec fn entry_readable(e: RawEntry) -> bool
    decreases e,
{
    e.meta is Known && listing_readable(e.listing)
}

pub open spec fn listing_readable(l: RawListing) -> bool
    decreases l,
{
    match l {
        RawListing::Leaf => true,
        RawListing::Failed => false,
        RawListing::Opened { entries } => list_readable(entries@),
    }
}

pub open spec fn list_readable(es: Seq<RawEntry>) -> bool
    decreases es,
{
    es.len() == 0 || (entry_readable(es[0]) && list_readable(es.drop_first()))
}

/// When everything under an entry read cleanly, its walk keeps the flag
/// true — so a cleared flag always marks a real read failure. (The
/// converse does not hold in general: a subtree behind an already-seen
/// hard-link identity is never visited, so a failure inside it is not
/// signaled.)
pub proof fn lemma_readable_entry_flag(e: RawEntry, seen: Set<u64>)
    ensures
        entry_readable(e) ==> walk_entry(e, seen).ok,
    decreases e,
{
    match e.meta {
        RawMeta::Known { size, inode } => {
            if !seen.contains(inode) {
                lemma_readable_listing_flag(e.listing, seen.insert(inode));
            }
        },
        _ => {},
    }
}

pub proof fn lemma_readable_listing_flag(l: RawListing, seen: Set<u64>)
    ensures
        listing_readable(l) ==> walk_listing(l, seen).ok,
    decreases l,
{
    match l {
        RawListing::Opened { entries } => {
            lemma_readable_list_flag(entries@, seen);
        },
        _ => {},
    }
}

pub proof fn lemma_readable_list_flag(es: Seq<RawEntry>, seen: Set<u64>)
    ensures
        list_readable(es) ==> walk_list(es, seen).ok,
    decreases es,
{
    if es.len() > 0 {
        lemma_readable_entry_flag(es[0], seen);
        lemma_readable_list_flag(es.drop_first(), walk_entry(es[0], seen).seen);
    }
}

/// One root's flag is true when its whole listing read cleanly.
pub proof fn lemma_readable_root_flag(root: RawRoot)
    ensures
        listing_readable(root.listing) ==> walk_root(root).ok,
{
    lemma_readable_listing_flag(root.listing, Set::empty());
}

/// The identity set only grows along a walk.
pub proof fn lemma_walk_entry_seen_monotone(e: RawEntry, seen: Set<u64>)
    ensures
        seen.subset_of(walk_entry(e, seen).seen),
        e.meta matches RawMeta::Known { inode, .. } ==> walk_entry(e, seen).seen.contains(inode),
    decreases e,
{
    match e.meta {
        RawMeta::Known { size, inode } => {
            if !seen.contains(inode) {
                lemma_walk_listing_seen_monotone(e.listing, seen.insert(inode));
                assert(seen.insert(inode).contains(inode));
            }
        },
        _ => {},
    }
}

pub proof fn lemma_walk_listing_seen_monotone(l: RawListing, seen: Set<u64>)
    ensures
        seen.subset_of(walk_listing(l, seen).seen),
    decreases l,
{
    match l {
        RawListing::Opened { entries } => {
            lemma_walk_list_seen_monotone(entries@, seen);
        },
        _ => {},
    }
}

pub proof fn lemma_walk_list_seen_monotone(es: Seq<RawEntry>, seen: Set<u64>)
    ensures
        seen.subset_of(walk_list(es, seen).seen),
    decreases es,
{
    if es.len() > 0 {
        lemma_walk_entry_seen_monotone(es[0], seen);
        lemma_walk_list_seen_monotone(es.drop_first(), walk_entry(es[0], seen).seen);
    }
}

/// An entry whose hard-link identity was already seen is passed over
/// whole: dropping it from the listing changes nothing in the walk.
pub proof fn lemma_skip_seen_entry(es: Seq<RawEntry>, seen: Set<u64>, j: int)
    requires
        0 <= j < es.len(),
        es[j].meta is Known,
        seen.contains(es[j].meta->Known_inode),
    ensures
        walk_list(es, seen) == walk_list(es.remove(j), seen),
    decreases es.len(),
{
    if j == 0 {
        assert(walk_entry(es[0], seen).node is None);
        assert(es.remove(0) =~= es.drop_first());
        assert(walk_list(es, seen).nodes =~= walk_list(es.drop_first(), seen).nodes);
    } else {
        let w0 = walk_entry(es[0], seen);
        lemma_walk_entry_seen_monotone(es[0], seen);
        assert(w0.seen.contains(es[j].meta->Known_inode));
        assert(es.drop_first()[j - 1] == es[j]);
        lemma_skip_seen_entry(es.drop_first(), w0.seen, j - 1);
        assert(es.remove(j)[0] == es[0]);
        assert(es.remove(j).drop_first() =~= es.drop_first().remove(j - 1));
    }
}

/// Hard-link dedup: of two entries of one listing that share a hard-link
/// identity, only the first counts — the walk of the listing equals the
/// walk of the listing with the later entry dropped, so the shared
/// identity contributes its size exactly once to every ancestor's total.
pub proof fn lemma_hard_link_dedup(es: Seq<RawEntry>, seen: Set<u64>, i: int, j: int)
    requires
        0 <= i < j < es.len(),
        es[i].meta is Known,
        es[j].meta is Known,
        es[i].meta->Known_inode == es[j].meta->Known_inode,
    ensures
        walk_list(es, seen) == walk_list(es.remove(j), seen),
    decreases es.len(),
{
    let w0 = walk_entry(es[0], seen);
    if i == 0 {
        lemma_walk_entry_seen_monotone(es[0], seen);
        assert(w0.seen.contains(es[j].meta->Known_inode));
        assert(es.drop_first()[j - 1] == es[j]);
        lemma_skip_seen_entry(es.drop_first(), w0.seen, j - 1);
    } else {
        assert(es.drop_first()[i - 1] == es[i]);
        assert(es.drop_first()[j - 1] == es[j]);
        lemma_hard_link_dedup(es.drop_first(), w0.seen, i - 1, j - 1);
    }
    assert(es.remove(j)[0] == es[0]);
    assert(es.remove(j).drop_first() =~= es.drop_first().remove(j - 1));
}

/// Walking a listing with one more entry at its end: the extra entry is
/// walked last, from the identity set the prefix left behind.
pub proof fn lemma_walk_list_snoc(es: Seq<RawEntry>, e: RawEntry, seen: Set<u64>)
    ensures
        walk_list(es.push(e), seen).ok == (walk_list(es, seen).ok && walk_entry(
            e,
            walk_list(es, seen).seen,
        ).ok),
        walk_list(es.push(e), seen).nodes == walk_list(es, seen).nodes + opt_node_seq(
            walk_entry(e, walk_list(es, seen).seen).node,
        ),
        walk_list(es.push(e), seen).seen == walk_entry(e, walk_list(es, seen).seen).seen,
    decreases es.len(),
{
    reveal_with_fuel(walk_list, 3);
    if es.len() == 0 {
        assert(es.push(e)[0] == e);
        assert(es.push(e).drop_first() =~= Seq::<RawEntry>::empty());
        assert(walk_list(es.push(e), seen).nodes =~= walk_list(es, seen).nodes + opt_node_seq(
            walk_entry(e, walk_list(es, seen).seen).node,
        ));
    } else {
        assert(es.push(e)[0] == es[0]);
        assert(es.push(e).drop_first() =~= es.drop_first().push(e));
        let w0 = walk_entry(es[0], seen);
        lemma_walk_list_snoc(es.drop_first(), e, w0.seen);
        assert(walk_list(es.push(e), seen).nodes =~= walk_list(es, seen).nodes + opt_node_seq(
            walk_entry(e, walk_list(es, seen).seen).node,
        ));
    }
}

} // verus!
