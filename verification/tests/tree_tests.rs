use works_archive::assemble::build_tree;
use works_archive::tree::{Node, WalkEntry};
use works_archive::vpath::{normalize_path, parent_path, wants_content};

fn entry(path: &str, name: &str, is_dir: bool, content: Option<&str>) -> WalkEntry {
    WalkEntry {
        path: path.to_string(),
        name: name.to_string(),
        is_dir,
        content: content.map(|c| c.to_string()),
    }
}

fn same_tree(a: &Node, b: &Node) -> bool {
    if a.name != b.name || a.path != b.path || a.is_dir != b.is_dir || a.thumbnail != b.thumbnail {
        return false;
    }
    match (&a.children, &b.children) {
        (None, None) => true,
        (Some(x), Some(y)) => {
            x.len() == y.len() && x.iter().zip(y.iter()).all(|(c, d)| same_tree(c, d))
        }
        _ => false,
    }
}

fn check_invariants(n: &Node) {
    if let Some(t) = &n.thumbnail {
        assert!(!n.is_dir, "directory with a thumbnail: {}", n.path);
        assert!(n.name.to_lowercase().ends_with(".md"), "thumbnail on {}: {}", n.name, t);
    }
    if !n.is_dir {
        assert!(n.children.is_none(), "file with children: {}", n.path);
    }
    if let Some(cs) = &n.children {
        assert!(!cs.is_empty(), "empty children list on {}", n.path);
        for w in cs.windows(2) {
            assert!(w[0].path < w[1].path, "children out of order under {}", n.path);
        }
        for c in cs {
            assert_eq!(parent_path(&c.path), Some(n.path.clone()));
            check_invariants(c);
        }
    }
}

#[test]
fn builds_nested_tree() {
    let entries = vec![
        entry("works/2024", "2024", true, None),
        entry("works/2024/my-post.md", "my-post.md", false, Some("# Hi")),
        entry("works/2023", "2023", true, None),
        entry("works/2023/old.md", "old.md", false, None),
    ];
    let t = build_tree("works", &entries);
    assert_eq!(t.path, "/works");
    assert_eq!(t.name, "works");
    assert!(t.is_dir);
    assert!(t.thumbnail.is_none());
    let cs = t.children.as_ref().expect("root children");
    assert_eq!(cs.len(), 2);
    assert_eq!(cs[0].path, "/works/2023");
    assert_eq!(cs[1].path, "/works/2024");
    let y24 = &cs[1];
    let posts = y24.children.as_ref().expect("2024 children");
    assert_eq!(posts.len(), 1);
    assert_eq!(posts[0].path, "/works/2024/my-post.md");
    assert_eq!(posts[0].name, "my-post.md");
    assert!(!posts[0].is_dir);
    assert!(posts[0].children.is_none());
    check_invariants(&t);
}

#[test]
fn empty_walk_yields_bare_root() {
    let t = build_tree("works", &Vec::new());
    assert_eq!(t.path, "/works");
    assert!(t.is_dir);
    assert!(t.children.is_none());
}

#[test]
fn thumbnail_attached_to_document() {
    let body = "intro\n\n<img src=\"https://github.com/user-attachments/abc123\">\n";
    let entries = vec![
        entry("works/2024", "2024", true, None),
        entry("works/2024/post.md", "post.md", false, Some(body)),
    ];
    let t = build_tree("works", &entries);
    let cs = t.children.expect("root children");
    let posts = cs[0].children.as_ref().expect("2024 children");
    assert_eq!(
        posts[0].thumbnail.as_deref(),
        Some("https://github.com/user-attachments/abc123")
    );
}

#[test]
fn non_document_never_gets_thumbnail() {
    // even with readable content holding a trusted image, a non-.md file
    // keeps no thumbnail
    let body = "<img src=\"https://github.com/user-attachments/abc123\">";
    let entries = vec![
        entry("works/2024", "2024", true, None),
        entry("works/2024/photo.png", "photo.png", false, Some(body)),
        entry("works/2024/notes.txt", "notes.txt", false, Some(body)),
    ];
    let t = build_tree("works", &entries);
    let cs = t.children.expect("root children");
    let files = cs[0].children.as_ref().expect("2024 children");
    for f in files {
        assert!(f.thumbnail.is_none(), "thumbnail on {}", f.name);
    }
}

#[test]
fn rebuild_is_structurally_identical() {
    let entries = vec![
        entry("works/2024", "2024", true, None),
        entry("works/2024/b.md", "b.md", false, Some("# B")),
        entry("works/2024/a.md", "a.md", false, Some("# A")),
        entry("works/2023", "2023", true, None),
    ];
    let t1 = build_tree("works", &entries);
    let t2 = build_tree("works", &entries);
    assert!(same_tree(&t1, &t2));
}

#[test]
fn children_sorted_by_path() {
    let entries = vec![
        entry("works/2024", "2024", true, None),
        entry("works/2024/zeta.md", "zeta.md", false, None),
        entry("works/2024/alpha.md", "alpha.md", false, None),
        entry("works/2024/mid.md", "mid.md", false, None),
    ];
    let t = build_tree("works", &entries);
    check_invariants(&t);
    let cs = t.children.expect("root children");
    let posts = cs[0].children.as_ref().expect("2024 children");
    let paths: Vec<&str> = posts.iter().map(|p| p.path.as_str()).collect();
    assert_eq!(
        paths,
        vec!["/works/2024/alpha.md", "/works/2024/mid.md", "/works/2024/zeta.md"]
    );
}

#[test]
fn entries_outside_root_are_skipped() {
    let entries = vec![
        entry("elsewhere/2024", "2024", true, None),
        entry("works/2024", "2024", true, None),
    ];
    let t = build_tree("works", &entries);
    let cs = t.children.expect("root children");
    assert_eq!(cs.len(), 1);
    assert_eq!(cs[0].path, "/works/2024");
}

#[test]
fn parent_path_strips_last_segment() {
    assert_eq!(parent_path("/works/2024/a.md"), Some("/works/2024".to_string()));
    assert_eq!(parent_path("/works/2024"), Some("/works".to_string()));
    assert_eq!(parent_path("/works"), None);
    assert_eq!(parent_path("works"), None);
    assert_eq!(parent_path("/works/2024/"), Some("/works".to_string()));
}

#[test]
fn normalize_path_produces_virtual_paths() {
    assert_eq!(
        normalize_path("works", "works/2024/a.md"),
        Some("/works/2024/a.md".to_string())
    );
    assert_eq!(normalize_path("works", "works"), Some("/works".to_string()));
    assert_eq!(normalize_path("works", "works/"), Some("/works".to_string()));
    assert_eq!(
        normalize_path("works", "works\\2024\\a.md"),
        Some("/works/2024/a.md".to_string())
    );
    assert_eq!(normalize_path("works", "other/2024"), None);
}

#[test]
fn wants_content_recognizes_documents() {
    assert!(wants_content("a.md"));
    assert!(wants_content("a.MD"));
    assert!(wants_content("archive.v2.Md"));
    assert!(!wants_content("a.txt"));
    assert!(!wants_content(".md"));
    assert!(!wants_content("md"));
    assert!(!wants_content("a.md.bak"));
}

#[test]
fn three_levels_nest_and_hold_invariants() {
    let entries = vec![
        entry("works/2024", "2024", true, None),
        entry("works/2024/series", "series", true, None),
        entry("works/2024/series/part-one.md", "part-one.md", false, Some("# One")),
        entry("works/2024/series/part-two.md", "part-two.md", false, None),
        entry("works/2024/solo.md", "solo.md", false, None),
    ];
    let t = build_tree("works", &entries);
    check_invariants(&t);
    let cs = t.children.as_ref().expect("root children");
    assert_eq!(cs[0].path, "/works/2024");
    let y = cs[0].children.as_ref().expect("2024 children");
    assert_eq!(y.len(), 2);
    assert_eq!(y[0].path, "/works/2024/series");
    assert_eq!(y[1].path, "/works/2024/solo.md");
    let series = y[0].children.as_ref().expect("series children");
    assert_eq!(series.len(), 2);
    assert_eq!(series[0].path, "/works/2024/series/part-one.md");
    assert_eq!(series[1].path, "/works/2024/series/part-two.md");
}
