use system_usage_analyzer::application::process::build_tree;
use system_usage_analyzer::domain::process::{ProcessId, ProcessInfo, ProcessSort, ProcessStatus, ProcessTree};
use system_usage_analyzer::infrastructure::tree_layout::tree_lines;

fn process(pid: u32, parent: Option<u32>, name: &str) -> ProcessInfo {
    ProcessInfo {
        pid: ProcessId(pid),
        parent_pid: parent.map(ProcessId),
        name: name.to_string(),
        executable: None,
        command: None,
        cpu_usage_bits: 0.0f32.to_bits(),
        memory_bytes: 0,
        status: ProcessStatus::Running,
    }
}

fn labels(tree: &ProcessTree) -> Vec<String> {
    tree_lines(tree)
        .into_iter()
        .map(|line| format!("{}{}", line.prefix, tree.nodes[line.node].process.name))
        .collect()
}

#[test]
fn readme_tree_is_drawn_with_guides_and_connectors() {
    let tree = build_tree(
        vec![
            process(90311, Some(89597), "git"),
            process(90231, Some(90071), "node"),
            process(89597, None, "Code"),
            process(90210, Some(90071), "rust-analyzer"),
            process(90071, Some(89597), "Code Helper"),
        ],
        None,
        ProcessSort::Pid,
    )
    .unwrap();
    assert_eq!(
        labels(&tree),
        [
            "Code",
            "├── Code Helper",
            "│   ├── rust-analyzer",
            "│   └── node",
            "└── git",
        ]
    );
}

#[test]
fn last_child_leaves_a_blank_guide_and_roots_have_no_prefix() {
    let tree = build_tree(
        vec![
            process(1, None, "a"),
            process(2, Some(1), "b"),
            process(3, Some(2), "c"),
            process(4, Some(3), "d"),
            process(5, Some(3), "e"),
            process(6, None, "f"),
        ],
        None,
        ProcessSort::Pid,
    )
    .unwrap();
    assert_eq!(
        labels(&tree),
        ["a", "└── b", "    └── c", "        ├── d", "        └── e", "f"]
    );
}

#[test]
fn empty_tree_has_no_lines() {
    let tree = build_tree(vec![], None, ProcessSort::Pid).unwrap();
    assert!(tree_lines(&tree).is_empty());
}

#[test]
fn selected_root_draws_only_its_branch() {
    let tree = build_tree(
        vec![
            process(1, None, "init"),
            process(2, Some(1), "shell"),
            process(3, Some(2), "editor"),
        ],
        Some(ProcessId(2)),
        ProcessSort::Pid,
    )
    .unwrap();
    assert_eq!(labels(&tree), ["shell", "└── editor"]);
}

#[test]
fn every_process_is_drawn_once_even_with_cycles_and_orphans() {
    let tree = build_tree(
        vec![
            process(7, Some(9), "seven"),
            process(9, Some(8), "nine"),
            process(8, Some(7), "eight"),
            process(3, Some(42), "orphan"),
            process(5, Some(5), "self"),
            process(6, Some(8), "six"),
        ],
        None,
        ProcessSort::Pid,
    )
    .unwrap();
    let lines = tree_lines(&tree);
    let mut drawn: Vec<usize> = lines.iter().map(|line| line.node).collect();
    drawn.sort_unstable();
    assert_eq!(drawn, [0, 1, 2, 3, 4, 5]);
    assert_eq!(
        labels(&tree),
        [
            "orphan",
            "self",
            "seven",
            "└── eight",
            "    ├── six",
            "    └── nine",
        ]
    );
}
