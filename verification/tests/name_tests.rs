use vidmenu::name::basename;
use vidmenu::name::extension_of;
use vidmenu::name::is_sample_name;
use vidmenu::name::normalize;

fn b(s: &str) -> Vec<u8> {
    s.as_bytes().to_vec()
}

fn strip_set() -> Vec<u8> {
    b(" !\"#$%&'()*+,-./:;<=>?@[\\]^_`{|}~")
}

#[test]
fn basename_of_nested_path() {
    assert_eq!(basename(&b("/home/kim/Video/show/ep.mkv")), b("ep.mkv"));
}

#[test]
fn basename_without_slash_is_whole() {
    assert_eq!(basename(&b("ep.mkv")), b("ep.mkv"));
}

#[test]
fn basename_of_empty_is_empty() {
    assert_eq!(basename(&b("")), b(""));
}

#[test]
fn sample_stem_is_excluded_case_insensitively() {
    assert!(is_sample_name(&b("sample.mkv")));
    assert!(is_sample_name(&b("SaMpLe.avi")));
    assert!(is_sample_name(&b("sample")));
    assert!(is_sample_name(&b("sample.x.y")));
}

#[test]
fn non_sample_stems_are_kept() {
    assert!(!is_sample_name(&b("samples.mkv")));
    assert!(!is_sample_name(&b("sampl.mkv")));
    assert!(!is_sample_name(&b("episode.mkv")));
    assert!(!is_sample_name(&b("")));
}

#[test]
fn extension_after_last_dot() {
    assert_eq!(extension_of(&b("ep.mkv")), Some(b("mkv")));
    assert_eq!(extension_of(&b("a.b.c")), Some(b("c")));
}

#[test]
fn extension_absent_without_dot() {
    assert_eq!(extension_of(&b("episode")), None);
    assert_eq!(extension_of(&b("")), None);
}

#[test]
fn leading_dot_is_no_extension() {
    assert_eq!(extension_of(&b(".mkv")), None);
    assert_eq!(extension_of(&b(".hidden.mkv")), Some(b("mkv")));
}

#[test]
fn trailing_dot_gives_empty_extension() {
    assert_eq!(extension_of(&b("ep.")), Some(b("")));
}

#[test]
fn normalize_folds_case_and_strips_configured_chars() {
    assert_eq!(
        normalize(&b("My Show - S01E02.mkv"), &strip_set()),
        b("myshows01e02mkv")
    );
}

#[test]
fn normalize_without_strip_set_only_folds() {
    assert_eq!(normalize(&b("My Show.MKV"), &b("")), b("my show.mkv"));
}

#[test]
fn normalize_keeps_bytes_outside_strip_set() {
    assert_eq!(normalize(&b("a-b"), &b("-")), b("ab"));
    assert_eq!(normalize(&b("a-b"), &b("_")), b("a-b"));
}
