use conserve::apath::Apath;
use conserve::entry::UnixTime;
use conserve::index::IndexEntry;
use conserve::merge::{iter_merged_entries, merge_heads, MergedEntry, MergedEntryKind};

fn dir(path: &str) -> IndexEntry {
    IndexEntry::directory(Apath::from_str(path).unwrap(), UnixTime { secs: 0, nanos: 0 })
}

fn tree(paths: &[&str]) -> Vec<IndexEntry> {
    paths.iter().map(|p| dir(p)).collect()
}

#[test]
fn merge_entry_trees() {
    let ta = tree(&["/"]);
    let tb = tree(&["/"]);

    let di = iter_merged_entries(ta, tb).collect();
    assert_eq!(di.len(), 1);
    assert_eq!(
        di[0],
        MergedEntry {
            apath: Apath::from_str("/").unwrap(),
            kind: MergedEntryKind::Both,
        }
    );
}

#[test]
fn merge_tells_the_sides_apart() {
    let ta = tree(&["/", "/a", "/a/x", "/c"]);
    let tb = tree(&["/", "/a/x", "/b", "/c", "/d"]);
    let merged: Vec<String> = iter_merged_entries(ta, tb)
        .collect()
        .into_iter()
        .map(|m| format!("{}:{:?}", m.apath.as_str(), m.kind))
        .collect();
    assert_eq!(
        merged,
        vec![
            "/:Both",
            "/a:LeftOnly",
            "/a/x:Both",
            "/b:RightOnly",
            "/c:Both",
            "/d:RightOnly"
        ]
    );
}

#[test]
fn merge_yields_one_at_a_time() {
    let mut merge = iter_merged_entries(tree(&["/a"]), tree(&["/b"]));
    assert_eq!(merge.next().unwrap().kind, MergedEntryKind::LeftOnly);
    assert_eq!(merge.next().unwrap().kind, MergedEntryKind::RightOnly);
    assert!(merge.next().is_none());
    assert!(merge.next().is_none());
}

#[test]
fn merge_of_nothing_is_empty() {
    let none: Vec<IndexEntry> = Vec::new();
    assert!(iter_merged_entries(none, tree(&[])).collect().is_empty());
    assert_eq!(merge_heads(None, None), None);
    let a = Apath::from_str("/a").unwrap();
    assert_eq!(merge_heads(Some(&a), None), Some(MergedEntryKind::LeftOnly));
    assert_eq!(merge_heads(None, Some(&a)), Some(MergedEntryKind::RightOnly));
    assert_eq!(merge_heads(Some(&a), Some(&a)), Some(MergedEntryKind::Both));
}
