use bloaty_metafile::error::BloatyError;
use bloaty_metafile::from_csv;
use bloaty_metafile::tree::{Input, Node, Tree};

fn child<'a>(n: &'a Node, name: &str) -> &'a Node {
    n.nodes
        .iter()
        .find(|c| c.name == name)
        .unwrap_or_else(|| panic!("no child named {}", name))
}

fn find_input<'a>(inputs: &'a [(String, Input)], key: &str) -> &'a Input {
    &inputs
        .iter()
        .find(|(k, _)| k == key)
        .unwrap_or_else(|| panic!("no input named {}", key))
        .1
}

#[test]
fn test_get_tree() {
    for csv in [
        r#"
sections,symbols,vmsize,filesize
"__TEXT,__text",[1848 Others],918108,918108
"#,
        r#"
sections,symbols,vmsize,filesize
.text,[1843 Others],1086372,1086372
"#,
    ] {
        let tree = Tree::new(csv, None, false).expect("Failed to create tree");
        assert_eq!(tree.root.nodes.len(), 1)
    }
}

#[test]
fn repeated_insertion_accumulates() {
    let mut tree = Tree::new("sections,symbols,vmsize,filesize\n", None, false).unwrap();
    let path = vec!["a".to_string(), "b".to_string()];
    tree.add_path(&path, 10, 20);
    tree.add_path(&path, 5, 5);
    let leaf = child(child(&tree.root, "a"), "b");
    assert_eq!(leaf.vmsize, 15);
    assert_eq!(leaf.filesize, 25);
    assert_eq!(tree.root.total_vmsize, 15);
    assert_eq!(tree.root.total_filesize, 25);
}

#[test]
fn totals_hold_after_insertions() {
    let mut tree = Tree::new("sections,symbols,vmsize,filesize\n", None, false).unwrap();
    tree.add_path(&vec!["a".to_string(), "b".to_string()], 1, 2);
    tree.add_path(&vec!["a".to_string(), "c".to_string()], 3, 4);
    tree.add_path(&vec!["a".to_string()], 5, 6);
    tree.add_path(&vec!["d".to_string()], 7, 8);
    // Every node's total equals its own size plus its children's totals.
    fn check(n: &Node) {
        let (mut vm, mut fs) = (n.vmsize, n.filesize);
        for c in &n.nodes {
            check(c);
            vm += c.total_vmsize;
            fs += c.total_filesize;
        }
        assert_eq!(n.total_vmsize, vm, "node {}", n.name);
        assert_eq!(n.total_filesize, fs, "node {}", n.name);
    }
    check(&tree.root);
    assert_eq!(tree.root.total_vmsize, 16);
    assert_eq!(tree.root.total_filesize, 20);
}

#[test]
fn emission_conserves_bytes_across_depths() {
    let csv = "sections,symbols,vmsize,filesize\n\
.text,serde::de::parse,10,11\n\
.text,serde::ser::write,20,21\n\
.data,[55 Others],30,31\n\
.text,main,40,41\n";
    let unbounded = from_csv(csv, "out", None, 0, false).unwrap();
    let total: u64 = unbounded.inputs.iter().map(|(_, i)| i.bytes).sum();
    for deep in 1..=4usize {
        let bounded = from_csv(csv, "out", None, deep, false).unwrap();
        let sum: u64 = bounded.inputs.iter().map(|(_, i)| i.bytes).sum();
        assert_eq!(sum, total, "depth {}", deep);
        assert_eq!(bounded.outputs[0].1.bytes, total);
    }
}

#[test]
fn metafile_shape() {
    let csv = "sections,symbols,vmsize,filesize\n.text,serde::de::parse,10,11\n";
    let meta = from_csv(csv, "bin", None, 0, false).unwrap();
    // The symbol resolves to owner "serde" with a trivial chain (no graph).
    let input = find_input(&meta.inputs, "serde");
    assert_eq!(input.bytes, 0);
    assert_eq!(input.imports, vec!["serde/.text".to_string()]);
    let leaf = find_input(&meta.inputs, "serde/.text/de/parse");
    assert_eq!(leaf.bytes, 11);
    assert!(leaf.imports.is_empty());
    assert_eq!(meta.outputs.len(), 1);
    let (name, out) = &meta.outputs[0];
    assert_eq!(name, "bin");
    assert_eq!(out.bytes, 11);
    assert_eq!(out.entry_point.as_deref(), Some("ROOT"));
    assert_eq!(out.inputs.len(), meta.inputs.len());
    for ((k, i), (k2, d)) in meta.inputs.iter().zip(out.inputs.iter()) {
        assert_eq!(k, k2);
        assert_eq!(i.bytes, d.bytes_in_output);
    }
}

#[test]
fn depth_collapsing_uses_totals() {
    let csv = "sections,symbols,vmsize,filesize\n\
.text,serde::de::parse,10,11\n\
.text,serde::de::skip,20,21\n";
    let meta = from_csv(csv, "bin", None, 1, false).unwrap();
    // At depth 1 the walk stops at "serde/.text", reporting the whole subtree.
    let collapsed = find_input(&meta.inputs, "serde/.text");
    assert_eq!(collapsed.bytes, 32);
    assert!(collapsed.imports.is_empty());
    assert!(meta
        .inputs
        .iter()
        .all(|(k, _)| k != "serde/.text/de"));
}

#[test]
fn no_sections_excludes_unclassified() {
    let csv = "sections,symbols,vmsize,filesize\n\
.text,serde::de::parse,10,11\n\
.data,[55 Others],30,31\n";
    let meta = from_csv(csv, "bin", None, 0, true).unwrap();
    assert!(meta.inputs.iter().all(|(k, _)| !k.starts_with("SECTIONS")));
    assert_eq!(meta.outputs[0].1.bytes, 11);
}

#[test]
fn empty_symbol_becomes_placeholder() {
    let csv = "sections,symbols,vmsize,filesize\n.text,,7,9\n";
    let meta = from_csv(csv, "bin", None, 0, false).unwrap();
    // "UNKNOWN" is a single segment, so the record is unclassified.
    let leaf = find_input(&meta.inputs, "SECTIONS/.text/UNKNOWN");
    assert_eq!(leaf.bytes, 9);
}

#[test]
fn csv_parse_error_on_missing_column() {
    let err = from_csv("sections,symbols,vmsize\n.text,main,1\n", "bin", None, 0, false)
        .err()
        .expect("expected an error");
    assert!(matches!(err, BloatyError::CsvParse(_)));
}

#[test]
fn csv_parse_error_on_bad_number() {
    let err = from_csv(
        "sections,symbols,vmsize,filesize\n.text,main,ten,10\n",
        "bin",
        None,
        0,
        false,
    )
    .err()
    .expect("expected an error");
    assert!(matches!(err, BloatyError::CsvParse(_)));
}

#[test]
fn plus_prefixed_sizes_parse() {
    let csv = "sections,symbols,vmsize,filesize\n.text,serde::de::parse,+10,+11\n";
    let meta = from_csv(csv, "bin", None, 0, false).unwrap();
    assert_eq!(meta.outputs[0].1.bytes, 11);
}

#[test]
fn size_overflow_is_reported() {
    let csv = format!(
        "sections,symbols,vmsize,filesize\n.text,a::b,{},{}\n.text,a::c,1,1\n",
        u64::MAX,
        u64::MAX
    );
    let err = from_csv(&csv, "bin", None, 0, false)
        .err()
        .expect("expected an error");
    assert!(matches!(err, BloatyError::SizeOverflow));
}

#[test]
fn quoted_section_stays_one_segment() {
    let csv = "\nsections,symbols,vmsize,filesize\n\"__TEXT,__text\",[1848 Others],918108,918108\n";
    let tree = Tree::new(csv, None, false).expect("Failed to create tree");
    let sections = child(&tree.root, "SECTIONS");
    let section = child(sections, "__TEXT,__text");
    assert_eq!(section.total_filesize, 918108);
}
