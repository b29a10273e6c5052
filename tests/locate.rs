use toj::locate::{locate, ModelPath};

fn path(root: &str, dirs: &[&str], file_name: &str) -> ModelPath {
    ModelPath {
        root: root.to_string(),
        dirs: dirs.iter().map(|d| d.to_string()).collect(),
        file_name: file_name.to_string(),
    }
}

fn dirs_of(chain: &[ModelPath]) -> Vec<Vec<String>> {
    chain.iter().map(|p| p.dirs.clone()).collect()
}

fn names(dirs: &[&[&str]]) -> Vec<Vec<String>> {
    dirs.iter().map(|d| d.iter().map(|s| s.to_string()).collect()).collect()
}

#[test]
fn candidates_run_from_grandparent_to_root() {
    let leaf = path("/", &["zoo", "forest", "alpine"], "model.json");
    let c = leaf.candidates();
    assert_eq!(dirs_of(&c), names(&[&["zoo", "forest"], &["zoo"], &[]]));
    assert!(c.iter().all(|p| p.root == "/" && p.file_name == "model.json"));
}

#[test]
fn ancestor_at_depth_keeps_prefix() {
    let leaf = path("", &["a", "b", "c"], "m.json");
    let p = leaf.at_depth(1);
    assert_eq!(p.dirs, vec!["a".to_string()]);
    assert_eq!(p.root, "");
    assert_eq!(p.file_name, "m.json");
}

#[test]
fn leaf_alone_when_nothing_found() {
    let leaf = path("/", &["a", "b"], "m.json");
    let r = locate(&leaf, &vec![false, false], false);
    assert_eq!(dirs_of(&r), names(&[&["a", "b"]]));
}

#[test]
fn leaf_alone_at_root() {
    let leaf = path("/", &[], "m.json");
    let r = locate(&leaf, &vec![], true);
    assert_eq!(r.len(), 1);
    assert_eq!(r[0].file_name, "m.json");
    assert!(r[0].dirs.is_empty());
}

#[test]
fn found_ancestors_come_topmost_first() {
    let leaf = path("/", &["zoo", "forest", "alpine"], "model.json");
    let r = locate(&leaf, &vec![true, true, false], false);
    assert_eq!(
        dirs_of(&r),
        names(&[&["zoo"], &["zoo", "forest"], &["zoo", "forest", "alpine"]])
    );
}

#[test]
fn gap_stops_walk_without_skip_empty() {
    let leaf = path("/", &["top", "mid", "low", "leaf"], "model.json");
    // candidates: top/mid/low, top/mid, top, root
    let r = locate(&leaf, &vec![true, false, true, true], false);
    assert_eq!(dirs_of(&r), names(&[&["top", "mid", "low"], &["top", "mid", "low", "leaf"]]));
}

#[test]
fn gap_is_crossed_with_skip_empty() {
    let leaf = path("/", &["top", "mid", "low", "leaf"], "model.json");
    let r = locate(&leaf, &vec![true, false, true, true], true);
    assert_eq!(
        dirs_of(&r),
        names(&[&[], &["top"], &["top", "mid", "low"], &["top", "mid", "low", "leaf"]])
    );
}

#[test]
fn first_candidate_missing_stops_at_once() {
    let leaf = path("", &["a", "b", "c"], "m.json");
    let r = locate(&leaf, &vec![false, true, true], false);
    assert_eq!(dirs_of(&r), names(&[&["a", "b", "c"]]));
    let r = locate(&leaf, &vec![false, true, true], true);
    assert_eq!(dirs_of(&r), names(&[&[], &["a"], &["a", "b", "c"]]));
}
