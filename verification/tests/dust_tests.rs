use dust::builder::get_dir_tree;
use dust::order::node_before_exec;
use dust::path::normalize_root;
use dust::render::display;
use dust::select::find_big_ones;
use dust::tree::{Node, RawEntry, RawListing, RawMeta, RawRoot, Tree};
use dust::units::human_readable_number;

fn file(name: &str, size: u64, inode: u64) -> RawEntry {
    RawEntry {
        name: String::from(name),
        meta: RawMeta::Known { size, inode },
        listing: RawListing::Leaf,
    }
}

fn dir(name: &str, own: u64, inode: u64, entries: Vec<RawEntry>) -> RawEntry {
    RawEntry {
        name: String::from(name),
        meta: RawMeta::Known { size: own, inode },
        listing: RawListing::Opened { entries },
    }
}

fn root(name: &str, entries: Vec<RawEntry>) -> RawRoot {
    RawRoot {
        name: String::from(name),
        listing: RawListing::Opened { entries },
    }
}

fn node(t: &Tree, id: usize) -> &Node {
    &t.nodes[id]
}

#[test]
fn test_human_readable_number() {
    assert_eq!(human_readable_number(1), "1B");
    assert_eq!(human_readable_number(956), "956B");
    assert_eq!(human_readable_number(1004), "1004B");
    assert_eq!(human_readable_number(1024), "1.0K");
    assert_eq!(human_readable_number(1536), "1.5K");
    assert_eq!(human_readable_number(1024 * 512), "512K");
    assert_eq!(human_readable_number(1024 * 1024), "1.0M");
    assert_eq!(human_readable_number(1024 * 1024 * 1024 - 1), "1023M");
    assert_eq!(human_readable_number(1024 * 1024 * 1024 * 20), "20G");
    assert_eq!(human_readable_number(1024 * 1024 * 1024 * 1024), "1.0T");
}

#[test]
fn human_readable_unit_edges() {
    assert_eq!(human_readable_number(0), "0B");
    assert_eq!(human_readable_number(1023), "1023B");
    assert_eq!(human_readable_number(1024 * 1024 - 1), "1023K");
    assert_eq!(human_readable_number(10 * 1024), "10K");
}

#[test]
fn normalize_root_strips_trailing_separators() {
    assert_eq!(normalize_root("a/b///"), "a/b");
    assert_eq!(normalize_root("/"), "/");
    assert_eq!(normalize_root(""), "");
    assert_eq!(normalize_root("dir"), "dir");
}

#[test]
fn ordering_depth_and_path_tiebreaks() {
    let shallow = Node {
        name: String::from("a"),
        size: 100,
        children: Vec::new(),
    };
    let deep = Node {
        name: String::from("a/b"),
        size: 100,
        children: Vec::new(),
    };
    // same size: the shallower node sorts first
    assert!(node_before_exec(&shallow, &deep));
    assert!(!node_before_exec(&deep, &shallow));
    // same size and depth: the lexicographically smaller path sorts first
    let x = Node {
        name: String::from("x/a"),
        size: 100,
        children: Vec::new(),
    };
    let y = Node {
        name: String::from("x/b"),
        size: 100,
        children: Vec::new(),
    };
    assert!(node_before_exec(&x, &y));
    assert!(!node_before_exec(&y, &x));
    // larger size sorts first whatever the depth
    let big_deep = Node {
        name: String::from("q/r/s"),
        size: 101,
        children: Vec::new(),
    };
    assert!(node_before_exec(&big_deep, &shallow));
}

#[test]
fn directory_size_is_own_plus_children() {
    let roots = vec![root(
        "r",
        vec![dir("r/d", 100, 1, vec![file("r/d/a", 10, 2), file("r/d/b", 20, 3)])],
    )];
    let (ok, t, ids) = get_dir_tree(&roots);
    assert!(ok);
    let root_node = node(&t, ids[0]);
    assert_eq!(root_node.size, 130);
    assert_eq!(root_node.children.len(), 1);
    let d = node(&t, root_node.children[0]);
    assert_eq!(d.name, "r/d");
    assert_eq!(d.size, 130);
    assert_eq!(d.children.len(), 2);
}

#[test]
fn hard_link_counted_once() {
    let roots = vec![root(
        "r",
        vec![file("r/a", 300, 7), file("r/b", 300, 7)],
    )];
    let (ok, t, ids) = get_dir_tree(&roots);
    assert!(ok);
    let root_node = node(&t, ids[0]);
    assert_eq!(root_node.size, 300);
    assert_eq!(root_node.children.len(), 1);
    assert_eq!(node(&t, root_node.children[0]).name, "r/a");

    // distinct identities count twice
    let roots2 = vec![root(
        "r",
        vec![file("r/a", 300, 7), file("r/b", 300, 8)],
    )];
    let (_, t2, ids2) = get_dir_tree(&roots2);
    assert_eq!(node(&t2, ids2[0]).size, 600);
}

#[test]
fn hard_link_dedup_is_per_root() {
    let roots = vec![
        root("r1", vec![file("r1/a", 50, 9)]),
        root("r2", vec![file("r2/a", 50, 9)]),
    ];
    let (ok, t, ids) = get_dir_tree(&roots);
    assert!(ok);
    assert_eq!(node(&t, ids[0]).size, 50);
    assert_eq!(node(&t, ids[1]).size, 50);
}

#[test]
fn frontier_count_zero_returns_largest_root() {
    let t = Tree {
        nodes: vec![
            Node { name: String::from("a"), size: 10, children: Vec::new() },
            Node { name: String::from("b"), size: 25, children: Vec::new() },
            Node { name: String::from("c"), size: 5, children: Vec::new() },
        ],
    };
    let roots = vec![0usize, 1, 2];
    let picked = find_big_ones(&t, &roots, 0);
    assert_eq!(picked.len(), 1);
    assert_eq!(picked[0], 1);
}

#[test]
fn frontier_rediscovers_large_nested_child() {
    // root a of size 10; root b of size 8 whose child holds 50: after b is
    // expanded, the child must outrank a.
    let t = Tree {
        nodes: vec![
            Node { name: String::from("b/c"), size: 50, children: Vec::new() },
            Node { name: String::from("b"), size: 8, children: vec![0] },
            Node { name: String::from("a"), size: 10, children: Vec::new() },
        ],
    };
    let roots = vec![2usize, 1];
    let picked = find_big_ones(&t, &roots, 2);
    assert_eq!(picked[0], 0, "the nested node of size 50 must rank first");
    assert_eq!(picked, vec![0, 2, 1]);
}

#[test]
fn end_to_end_subdirectory_outranks_smaller_files() {
    let roots = vec![root(
        "r",
        vec![
            file("r/f1", 1024, 1),
            file("r/f2", 2048, 2),
            dir("r/s", 0, 3, vec![file("r/s/big", 4096, 4)]),
        ],
    )];
    let (ok, t, ids) = get_dir_tree(&roots);
    assert!(ok);
    let picked = find_big_ones(&t, &ids, 3);
    assert_eq!(picked.len(), 4);
    let names: Vec<&str> = picked.iter().map(|&i| t.nodes[i].name.as_str()).collect();
    assert_eq!(names[0], "r");
    let pos_s = names.iter().position(|n| *n == "r/s").unwrap();
    let pos_f2 = names.iter().position(|n| *n == "r/f2").unwrap();
    assert!(pos_s < pos_f2, "the aggregated subdirectory precedes the 2048 file");
    assert_eq!(t.nodes[picked[pos_s]].size, 4096);

    // with one more line requested, the 1024 file appears last
    let picked5 = find_big_ones(&t, &ids, 4);
    let names5: Vec<&str> = picked5.iter().map(|&i| t.nodes[i].name.as_str()).collect();
    assert_eq!(names5, vec!["r", "r/s", "r/s/big", "r/f2", "r/f1"]);
}

#[test]
fn unreadable_entries_clear_flag_once() {
    let unreadable = RawEntry {
        name: String::from("r/secret"),
        meta: RawMeta::Unreadable,
        listing: RawListing::Leaf,
    };
    let unreadable2 = RawEntry {
        name: String::from("r/d/secret2"),
        meta: RawMeta::Unreadable,
        listing: RawListing::Leaf,
    };
    let roots = vec![root(
        "r",
        vec![file("r/a", 10, 1), unreadable, dir("r/d", 0, 2, vec![unreadable2])],
    )];
    let (ok, t, ids) = get_dir_tree(&roots);
    assert!(!ok, "an unreadable entry anywhere clears the flag");
    // unreadable entries contribute nothing
    assert_eq!(node(&t, ids[0]).size, 10);
    // the warning flag is handed out exactly once, however many entries failed
    let picked = find_big_ones(&t, &ids, 5);
    let (warn, lines) = display(&t, ok, &picked);
    assert!(warn);
    assert!(!lines.is_empty());

    let (warn_ok, _) = display(&t, true, &picked);
    assert!(!warn_ok);
}

#[test]
fn unopenable_directory_clears_flag() {
    let bad_dir = RawEntry {
        name: String::from("r/locked"),
        meta: RawMeta::Known { size: 77, inode: 5 },
        listing: RawListing::Failed,
    };
    let roots = vec![root("r", vec![bad_dir])];
    let (ok, t, ids) = get_dir_tree(&roots);
    assert!(!ok);
    // the directory's own reported size still counts; it has no children
    assert_eq!(node(&t, ids[0]).size, 77);

    let bad_root = vec![RawRoot { name: String::from("missing"), listing: RawListing::Failed }];
    let (ok2, t2, ids2) = get_dir_tree(&bad_root);
    assert!(!ok2);
    assert_eq!(node(&t2, ids2[0]).size, 0);
}

#[test]
fn display_lays_out_tree_lines() {
    let roots = vec![root(
        "r",
        vec![file("r/f1", 1024, 1), file("r/f2", 2048, 2)],
    )];
    let (ok, t, ids) = get_dir_tree(&roots);
    assert!(ok);
    let picked = find_big_ones(&t, &ids, 5);
    let (warn, lines) = display(&t, ok, &picked);
    assert!(!warn);
    assert_eq!(lines.len(), 3);
    assert_eq!(lines[0].name, "r");
    assert_eq!(lines[0].size_str, " 3.0K");
    assert_eq!(lines[0].indent, "");
    assert!(lines[0].is_biggest);
    assert_eq!(lines[0].depth, 1);
    assert_eq!(lines[1].name, "r/f2");
    assert_eq!(lines[1].indent, "├──");
    assert_eq!(lines[1].size_str, " 2.0K");
    assert!(lines[1].is_biggest);
    assert_eq!(lines[1].depth, 2);
    assert_eq!(lines[2].name, "r/f1");
    assert_eq!(lines[2].indent, "└──");
    assert_eq!(lines[2].size_str, " 1.0K");
    assert!(!lines[2].is_biggest);
}

#[test]
fn display_nested_indentation() {
    let roots = vec![root(
        "r",
        vec![dir("r/d", 0, 1, vec![file("r/d/x", 100, 2), file("r/d/y", 50, 3)])],
    )];
    let (ok, t, ids) = get_dir_tree(&roots);
    assert!(ok);
    let picked = find_big_ones(&t, &ids, 5);
    let (_, lines) = display(&t, ok, &picked);
    assert_eq!(lines.len(), 4);
    assert_eq!(lines[0].name, "r");
    assert_eq!(lines[1].name, "r/d");
    assert_eq!(lines[1].indent, "└──");
    assert_eq!(lines[2].name, "r/d/x");
    assert_eq!(lines[2].indent, "   ├──");
    assert_eq!(lines[3].name, "r/d/y");
    assert_eq!(lines[3].indent, "   └──");
}

#[test]
fn display_empty_selection_is_no_output() {
    let t = Tree { nodes: Vec::new() };
    let picked: Vec<usize> = Vec::new();
    let (warn, lines) = display(&t, false, &picked);
    assert!(warn);
    assert!(lines.is_empty());
}

#[test]
fn partly_read_entries_are_signaled() {
    // an entry whose probe failed in any way is never passed over
    // silently: it contributes nothing and the flag goes false
    let ghost_entry = RawEntry {
        name: String::from("r/ghost"),
        meta: RawMeta::Unreadable,
        listing: RawListing::Leaf,
    };
    let roots = vec![root("r", vec![file("r/a", 5, 1), ghost_entry])];
    let (ok, t, ids) = get_dir_tree(&roots);
    assert!(!ok, "every read failure is signaled on the permissions flag");
    assert_eq!(node(&t, ids[0]).size, 5);
    assert_eq!(node(&t, ids[0]).children.len(), 1);
}
