use sp_state::order::{bytes_rank, text_rank_of};
use sp_state::{Rank, SPPath};

fn path(segments: &[&str]) -> SPPath {
    SPPath::from_slice(segments)
}

#[test]
fn paths_are_made_of_segments() {
    let p = path(&["a", "b"]);
    assert_eq!(p.path, vec!["a".to_string(), "b".to_string()]);
    assert_eq!(p, SPPath::from(vec!["a".to_string(), "b".to_string()]));
    assert_eq!(p.clone(), p);
    assert_ne!(p, path(&["a"]));
    assert_ne!(p, path(&["a", "c"]));
    assert_ne!(p, path(&["a/b"]));
    assert_eq!(SPPath::new(), path(&[]));
}

#[test]
fn string_form_joins_with_slashes() {
    assert_eq!(SPPath::new().to_string(), "");
    assert_eq!(path(&["a"]).to_string(), "a");
    assert_eq!(path(&["a", "b", "c"]).to_string(), "a/b/c");
    assert_eq!(path(&["", ""]).to_string(), "/");
    assert_eq!(path(&["a", ""]).to_string(), "a/");
    assert_eq!(path(&["é", "ß"]).to_string(), "é/ß");
}

#[test]
fn child_is_strictly_below() {
    let a = path(&["a"]);
    let ab = path(&["a", "b"]);
    let abc = path(&["a", "b", "c"]);
    assert!(ab.is_child_of(&a));
    assert!(abc.is_child_of(&a));
    assert!(abc.is_child_of(&ab));
    assert!(!a.is_child_of(&a));
    assert!(!a.is_child_of(&ab));
    assert!(!ab.is_child_of(&path(&["b"])));
    assert!(!path(&["ab"]).is_child_of(&a));
    assert!(!path(&["a", "c", "b"]).is_child_of(&ab));
    assert!(a.is_child_of(&SPPath::new()));
    assert!(!SPPath::new().is_child_of(&SPPath::new()));
}

#[test]
fn parent_goes_in_front() {
    let mut p = path(&["c", "d"]);
    p.add_parent_path(&path(&["a", "b"]));
    assert_eq!(p, path(&["a", "b", "c", "d"]));
    p.add_parent_path(&SPPath::new());
    assert_eq!(p, path(&["a", "b", "c", "d"]));
    let mut root = SPPath::new();
    root.add_parent_path(&path(&["x"]));
    assert_eq!(root, path(&["x"]));
}

#[test]
fn paths_rank_by_string_form() {
    assert_eq!(path(&["a"]).rank(&path(&["a"])), Rank::Same);
    assert_eq!(path(&["a"]).rank(&path(&["b"])), Rank::Before);
    assert_eq!(path(&["b"]).rank(&path(&["a"])), Rank::After);
    assert_eq!(path(&["a"]).rank(&path(&["a", "b"])), Rank::Before);
    assert_eq!(path(&["a!"]).rank(&path(&["a", "b"])), Rank::Before);
    assert_eq!(path(&["a", "b"]).rank(&path(&["a!"])), Rank::After);
    assert_eq!(path(&["a0"]).rank(&path(&["a", "b"])), Rank::After);
    assert_eq!(path(&["B"]).rank(&path(&["a"])), Rank::Before);
    assert_eq!(path(&["z"]).rank(&path(&["é"])), Rank::Before);
    assert_eq!(SPPath::new().rank(&path(&["a"])), Rank::Before);
}

#[test]
fn paths_with_one_string_form_rank_by_segments() {
    let joined = path(&["a/b"]);
    let split = path(&["a", "b"]);
    assert_eq!(split.rank(&joined), Rank::Before);
    assert_eq!(joined.rank(&split), Rank::After);
    assert_eq!(SPPath::new().rank(&path(&[""])), Rank::Before);
    assert_eq!(path(&["", ""]).rank(&path(&["/"])), Rank::Before);
    assert_eq!(
        split.rank_with_text("a/b", &joined, "a/b"),
        Rank::Before
    );
}

#[test]
fn texts_rank_as_rust_orders_strings() {
    let samples = ["", "a", "a!", "a/b", "ab", "b", "B", "é", "ß", "a\u{10000}", "a\u{ffff}"];
    for a in samples {
        for b in samples {
            let expected = if a < b {
                Rank::Before
            } else if a == b {
                Rank::Same
            } else {
                Rank::After
            };
            assert_eq!(text_rank_of(a, b), expected);
        }
    }
}

#[test]
fn bytes_rank_lexicographically() {
    assert_eq!(bytes_rank(&[], &[]), Rank::Same);
    assert_eq!(bytes_rank(&[], &[0]), Rank::Before);
    assert_eq!(bytes_rank(&[0], &[]), Rank::After);
    assert_eq!(bytes_rank(&[1, 2, 3], &[1, 2, 3]), Rank::Same);
    assert_eq!(bytes_rank(&[1, 2], &[1, 2, 3]), Rank::Before);
    assert_eq!(bytes_rank(&[1, 3], &[1, 2, 3]), Rank::After);
    assert_eq!(bytes_rank(&[255], &[1, 2, 3]), Rank::After);
}
