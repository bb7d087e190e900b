use vidmenu::bytes::bytes_eq;
use vidmenu::bytes::bytes_leq;
use vidmenu::collect::Candidate;
use vidmenu::sort::sort_candidates;

fn b(s: &str) -> Vec<u8> {
    s.as_bytes().to_vec()
}

fn cand(path: &str, display: &str, key: &str) -> Candidate {
    Candidate { path: b(path), display: b(display), key: b(key) }
}

fn keys(v: &[Candidate]) -> Vec<Vec<u8>> {
    v.iter().map(|c| c.key.clone()).collect()
}

fn paths(v: &[Candidate]) -> Vec<Vec<u8>> {
    v.iter().map(|c| c.path.clone()).collect()
}

#[test]
fn byte_order_is_lexicographic() {
    assert!(bytes_leq(&b(""), &b("a")));
    assert!(bytes_leq(&b("a"), &b("a")));
    assert!(bytes_leq(&b("a"), &b("ab")));
    assert!(bytes_leq(&b("ab"), &b("b")));
    assert!(!bytes_leq(&b("b"), &b("ab")));
    assert!(!bytes_leq(&b("a"), &b("")));
}

#[test]
fn byte_equality_is_exact() {
    assert!(bytes_eq(&b("abc"), &b("abc")));
    assert!(!bytes_eq(&b("abc"), &b("abd")));
    assert!(!bytes_eq(&b("abc"), &b("ab")));
}

#[test]
fn sort_orders_by_key_ascending() {
    let v = vec![
        cand("/v/C.mkv", "C.mkv", "cmkv"),
        cand("/v/a.mkv", "a.mkv", "amkv"),
        cand("/v/B.mkv", "B.mkv", "bmkv"),
    ];
    let sorted = sort_candidates(v);
    assert_eq!(keys(&sorted), vec![b("amkv"), b("bmkv"), b("cmkv")]);
}

#[test]
fn sort_is_stable_on_equal_keys() {
    let v = vec![
        cand("/a/Ep.mkv", "Ep.mkv", "epmkv"),
        cand("/v/z.mkv", "z.mkv", "zmkv"),
        cand("/b/EP.mkv", "EP.mkv", "epmkv"),
        cand("/c/e-p.mkv", "e-p.mkv", "epmkv"),
    ];
    let sorted = sort_candidates(v);
    assert_eq!(
        paths(&sorted),
        vec![b("/a/Ep.mkv"), b("/b/EP.mkv"), b("/c/e-p.mkv"), b("/v/z.mkv")]
    );
}

#[test]
fn sorting_twice_changes_nothing() {
    let v = vec![
        cand("/v/b.mkv", "b.mkv", "bmkv"),
        cand("/v/a.mkv", "a.mkv", "amkv"),
        cand("/v/c.mkv", "c.mkv", "cmkv"),
        cand("/v/a2.mkv", "a2.mkv", "amkv"),
    ];
    let once = sort_candidates(v);
    let expect = paths(&once);
    let twice = sort_candidates(once);
    assert_eq!(paths(&twice), expect);
}

#[test]
fn sort_of_empty_is_empty() {
    let sorted = sort_candidates(Vec::new());
    assert!(sorted.is_empty());
}
