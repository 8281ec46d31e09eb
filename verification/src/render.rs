//! The tree renderer: reconstructs the parent/child layout from the flat
//! selected-node list (a node is displayed under another when the parent's
//! child list holds it and its depth is exactly one greater), in selection
//! order, with tree-branch prefixes and human-readable sizes.

use vstd::prelude::*;

use crate::path::slash_count;
use crate::tree::{wf_nodes, Node, Tree};
use crate::select::ids_valid;
use crate::units::{human_readable, human_readable_number};

verus! {

/// One line of output: the padded human-readable size, the tree-branch
/// prefix, the node's path, whether the line is painted as the largest of
/// its display group, and its display depth.
pub struct RenderLine {
    pub size_str: String,
    pub indent: String,
    pub name: String,
    pub is_biggest: bool,
    pub depth: u8,
}

/// The model of one output line.
pub struct SpecLine {
    pub size_str: Seq<char>,
    pub indent: Seq<char>,
    pub name: Seq<char>,
    pub is_biggest: bool,
    pub depth: u8,
}

impl View for RenderLine {
    type V = SpecLine;

    open spec fn view(&self) -> SpecLine {
        SpecLine {
            size_str: self.size_str@,
            indent: self.indent@,
            name: self.name@,
            is_biggest: self.is_biggest,
            depth: self.depth,
        }
    }
}

pub open spec fn lines_view(s: Seq<RenderLine>) -> Seq<SpecLine> {
    s.map_values(|l: RenderLine| l@)
}

/// `n` space characters.
pub open spec fn spaces(n: nat) -> Seq<char>
    decreases n,
{
    if n == 0 {
        Seq::empty()
    } else {
        spaces((n - 1) as nat).push(' ')
    }
}

/// A size string right-aligned to a width of five characters.
pub open spec fn pad5(s: Seq<char>) -> Seq<char> {
    if s.len() >= 5 {
        s
    } else {
        spaces((5 - s.len()) as nat) + s
    }
}

/// The display depth one level down; it tops out rather than wrap.
pub open spec fn bump(depth: u8) -> u8 {
    if depth == 255 {
        255u8
    } else {
        (depth + 1) as u8
    }
}

/// `c` is displayed under `parent`: the parent's child list holds it and
/// its path lies exactly one separator deeper.
pub open spec fn is_display_child(nodes: Seq<Node>, parent: int, c: usize) -> bool {
    nodes[parent].children@.contains(c) && slash_count(nodes[c as int].name@) == slash_count(
        nodes[parent].name@,
    ) + 1
}

/// How many entries of `sel` from position `k` on are displayed under
/// `parent`.
pub open spec fn count_display_children(nodes: Seq<Node>, sel: Seq<usize>, parent: int, k: int) -> int
    decreases sel.len() - k,
{
    if k < 0 || k >= sel.len() {
        0
    } else {
        (if is_display_child(nodes, parent, sel[k]) {
            1int
        } else {
            0int
        }) + count_display_children(nodes, sel, parent, k + 1)
    }
}

/// The lines for one node: its own line, then the lines of each entry of
/// `sel` displayed under it, in selection order, the first of them painted
/// as the largest of the group and the last given the closing branch.
pub open spec fn render_node(
    nodes: Seq<Node>,
    sel: Seq<usize>,
    id: int,
    is_biggest: bool,
    depth: u8,
    ind_print: Seq<char>,
    ind_cont: Seq<char>,
) -> Seq<SpecLine>
    decreases id, sel.len() + 1,
{
    let line = SpecLine {
        size_str: pad5(human_readable(nodes[id].size)),
        indent: ind_print,
        name: nodes[id].name@,
        is_biggest,
        depth,
    };
    seq![line] + render_children(
        nodes,
        sel,
        id,
        0,
        count_display_children(nodes, sel, id, 0),
        true,
        depth,
        ind_cont,
    )
}

/// The lines of the displayed children of `parent`, walking `sel` from
/// position `k` with `remaining` of them still to come.
pub open spec fn render_children(
    nodes: Seq<Node>,
    sel: Seq<usize>,
    parent: int,
    k: int,
    remaining: int,
    first: bool,
    depth: u8,
    ind_cont: Seq<char>,
) -> Seq<SpecLine>
    decreases parent, sel.len() - k,
{
    if k < 0 || k >= sel.len() {
        Seq::empty()
    } else if is_display_child(nodes, parent, sel[k]) && 0 <= sel[k] < parent {
        let rem = remaining - 1;
        let chars: Seq<char> = if rem == 0 {
            "└──"@
        } else {
            "├──"@
        };
        let cont: Seq<char> = if rem == 0 {
            "   "@
        } else {
            "│  "@
        };
        render_node(nodes, sel, sel[k] as int, first, bump(depth), ind_cont + chars, ind_cont + cont)
            + render_children(nodes, sel, parent, k + 1, rem, false, depth, ind_cont)
    } else {
        render_children(nodes, sel, parent, k + 1, remaining, first, depth, ind_cont)
    }
}

/// What rendering a selection prints: nothing for an empty selection, else
/// the tree unfolded from its first (largest) entry.
pub open spec fn render_spec(nodes: Seq<Node>, sel: Seq<usize>) -> Seq<SpecLine> {
    if sel.len() == 0 {
        Seq::empty()
    } else {
        render_node(nodes, sel, sel[0] as int, true, 1, Seq::empty(), Seq::empty())
    }
}

proof fn lemma_count_nonneg(nodes: Seq<Node>, sel: Seq<usize>, parent: int, k: int)
    ensures
        count_display_children(nodes, sel, parent, k) >= 0,
    decreases sel.len() - k,
{
    if 0 <= k < sel.len() {
        lemma_count_nonneg(nodes, sel, parent, k + 1);
    }
}

proof fn lemma_lines_view_push(s: Seq<RenderLine>, x: RenderLine)
    ensures
        lines_view(s.push(x)) == lines_view(s).push(x@),
{
    assert(lines_view(s.push(x)) =~= lines_view(s).push(x@));
}

proof fn lemma_lines_view_add(a: Seq<RenderLine>, b: Seq<RenderLine>)
    ensures
        lines_view(a + b) == lines_view(a) + lines_view(b),
{
    assert(lines_view(a + b) =~= lines_view(a) + lines_view(b));
}

fn bump_exec(depth: u8) -> (r: u8)
    ensures
        r == bump(depth),
{
    if depth == 255 {
        255
    } else {
        depth + 1
    }
}

fn pad_size(s: String) -> (r: String)
    ensures
        r@ == pad5(s@),
{
    let n = s.unicode_len();
    if n >= 5 {
        s
    } else {
        let mut p = String::new();
        let mut i: usize = 0;
        proof {
            reveal_strlit(" ");
        }
        while i < 5 - n
            invariant
                0 <= i <= 5 - n,
                n == s@.len() < 5,
                p@ == spaces(i as nat),
            decreases 5 - n - i,
        {
            proof {
                reveal_strlit(" ");
            }
            p.append(" ");
            proof {
                assert(p@ =~= spaces((i + 1) as nat));
            }
            i = i + 1;
        }
        p.append(s.as_str());
        p
    }
}

/// Whether `c` is displayed under `parent`.
fn is_display_child_exec(t: &Tree, parent: usize, c: usize) -> (r: bool)
    requires
        parent < t.nodes@.len(),
        c < t.nodes@.len(),
    ensures
        r == is_display_child(t.nodes@, parent as int, c),
{
    let children = &t.nodes[parent].children;
    let mut found = false;
    let mut i: usize = 0;
    while i < children.len()
        invariant
            0 <= i <= children@.len(),
            children@ == t.nodes@[parent as int].children@,
            found == exists|j: int| 0 <= j < i && children@[j] == c,
        decreases children@.len() - i,
    {
        if children[i] == c {
            found = true;
        }
        i = i + 1;
    }
    if !found {
        proof {
            assert(!t.nodes@[parent as int].children@.contains(c));
        }
        return false;
    }
    proof {
        assert(t.nodes@[parent as int].children@.contains(c));
    }
    let sp = crate::path::count_slashes(t.nodes[parent].name.as_str());
    let sc = crate::path::count_slashes(t.nodes[c].name.as_str());
    sc > 0 && sc - 1 == sp
}

/// Emits the lines for one node of the selection: its own line, then,
/// in selection order, the subtree of each selected node displayed under
/// it, the first painted as the largest of its group and the last given
/// the closing branch characters.
#[verifier::loop_isolation(false)]
pub fn display_node(
    t: &Tree,
    node_to_print: usize,
    to_display: &Vec<usize>,
    is_biggest: bool,
    depth: u8,
    indentation_str: &str,
    indent_cont: &str,
) -> (lines: Vec<RenderLine>)
    requires
        wf_nodes(t.nodes@),
        node_to_print < t.nodes@.len(),
        ids_valid(t.nodes@, to_display@),
    ensures
        lines_view(lines@) == render_node(
            t.nodes@,
            to_display@,
            node_to_print as int,
            is_biggest,
            depth,
            indentation_str@,
            indent_cont@,
        ),
    decreases node_to_print,
{
    let ghost nodes = t.nodes@;
    let ghost sel = to_display@;
    let ghost target = render_node(
        nodes,
        sel,
        node_to_print as int,
        is_biggest,
        depth,
        indentation_str@,
        indent_cont@,
    );
    let mut lines: Vec<RenderLine> = Vec::new();
    let size_str = pad_size(human_readable_number(t.nodes[node_to_print].size));
    let own = RenderLine {
        size_str,
        indent: String::from_str(indentation_str),
        name: t.nodes[node_to_print].name.clone(),
        is_biggest,
        depth,
    };
    proof {
        lemma_lines_view_push(lines@, own);
    }
    lines.push(own);

    let mut num_siblings: usize = 0;
    let mut k: usize = 0;
    while k < to_display.len()
        invariant
            0 <= k <= sel.len(),
            num_siblings <= k,
            num_siblings + count_display_children(nodes, sel, node_to_print as int, k as int)
                == count_display_children(nodes, sel, node_to_print as int, 0),
        decreases sel.len() - k,
    {
        let s = to_display[k];
        if is_display_child_exec(t, node_to_print, s) {
            num_siblings = num_siblings + 1;
        }
        k = k + 1;
    }
    proof {
        lemma_count_nonneg(nodes, sel, node_to_print as int, 0);
    }

    let mut remaining: usize = num_siblings;
    let mut first: bool = true;
    let mut k: usize = 0;
    while k < to_display.len()
        invariant
            0 <= k <= sel.len(),
            remaining == count_display_children(nodes, sel, node_to_print as int, k as int),
            lines_view(lines@) + render_children(
                nodes,
                sel,
                node_to_print as int,
                k as int,
                remaining as int,
                first,
                depth,
                indent_cont@,
            ) == target,
        decreases sel.len() - k,
    {
        let s = to_display[k];
        if is_display_child_exec(t, node_to_print, s) {
            proof {
                lemma_count_nonneg(nodes, sel, node_to_print as int, k + 1);
                let j = choose|j: int|
                    0 <= j < nodes[node_to_print as int].children@.len()
                        && nodes[node_to_print as int].children@[j] == s;
                assert((nodes[node_to_print as int].children@[j] as int) < node_to_print as int);
            }
            remaining = remaining - 1;
            let tree_chars: &str = if remaining == 0 {
                "└──"
            } else {
                "├──"
            };
            let cont_chars: &str = if remaining == 0 {
                "   "
            } else {
                "│  "
            };
            let mut child_print = String::from_str(indent_cont);
            child_print.append(tree_chars);
            let mut child_cont = String::from_str(indent_cont);
            child_cont.append(cont_chars);
            let mut sub = display_node(
                t,
                s,
                to_display,
                first,
                bump_exec(depth),
                child_print.as_str(),
                child_cont.as_str(),
            );
            proof {
                lemma_lines_view_add(lines@, sub@);
            }
            lines.append(&mut sub);
            first = false;
        }
        k = k + 1;
    }
    lines
}

/// Lays out the whole selection: the warning flag says whether any part of
/// the walk was unreadable (the caller reports it once, on the error
/// stream), and an empty selection yields no lines at all.
pub fn display(t: &Tree, permissions: bool, to_display: &Vec<usize>) -> (r: (bool, Vec<RenderLine>))
    requires
        wf_nodes(t.nodes@),
        ids_valid(t.nodes@, to_display@),
    ensures
        r.0 == !permissions,
        lines_view(r.1@) == render_spec(t.nodes@, to_display@),
{
    if to_display.len() == 0 {
        proof {
            assert(lines_view(Seq::<RenderLine>::empty()) =~= Seq::<SpecLine>::empty());
        }
        (!permissions, Vec::new())
    } else {
        proof {
            reveal_strlit("");
            assert(""@ =~= Seq::<char>::empty());
        }
        let first_id = to_display[0];
        let lines = display_node(t, first_id, to_display, true, 1, "", "");
        (!permissions, lines)
    }
}

} // verus!
