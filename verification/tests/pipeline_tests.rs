use vidmenu::Error;
use vidmenu::collect::Config;
use vidmenu::collect::Entry;
use vidmenu::collect::Walk;
use vidmenu::select::Outcome;
use vidmenu::select::chomp;
use vidmenu::select::decide;
use vidmenu::select::map_of_candidates;
use vidmenu::sort::sort_candidates;

fn b(s: &str) -> Vec<u8> {
    s.as_bytes().to_vec()
}

fn video_config() -> Config {
    Config {
        extensions: Some(vec![b("mkv"), b("avi"), b("mp4")]),
        strip_chars: b(" !\"#$%&'()*+,-./:;<=>?@[\\]^_`{|}~"),
    }
}

fn dir(path: &str) -> Entry {
    Entry { path: b(path), is_dir: true }
}

fn file(path: &str) -> Entry {
    Entry { path: b(path), is_dir: false }
}

#[test]
fn missing_root_is_a_configuration_error() {
    let roots = vec![dir("/media/a"), file("/media/gone")];
    match Walk::begin(roots) {
        Err(e) => assert_eq!(e, Error::Configuration),
        Ok(_) => panic!("a root that is not a directory must refuse the walk"),
    }
}

#[test]
fn walk_starts_from_the_roots_and_finds_nothing_yet() {
    let w = Walk::begin(vec![dir("/media/a"), dir("/media/b")]).unwrap();
    assert_eq!(w.pending, vec![b("/media/a"), b("/media/b")]);
    assert!(w.found.is_empty());
}

#[test]
fn next_dir_pops_the_most_recently_queued_directory() {
    let mut w = Walk::begin(vec![dir("/media/a"), dir("/media/b")]).unwrap();
    assert_eq!(w.next_dir(), Some(b("/media/b")));
    assert_eq!(w.next_dir(), Some(b("/media/a")));
    assert_eq!(w.next_dir(), None);
}

#[test]
fn record_dir_keeps_exactly_the_admitted_files() {
    let cfg = video_config();
    let mut w = Walk::begin(vec![dir("/v")]).unwrap();
    assert_eq!(w.next_dir(), Some(b("/v")));
    w.record_dir(
        vec![
            file("/v/Show One.mkv"),
            file("/v/notes.txt"),
            file("/v/sample.mkv"),
            file("/v/SAMPLE.avi"),
            dir("/v/more"),
            file("/v/plain"),
            file("/v/Show Two.avi"),
        ],
        &cfg,
    );
    let names: Vec<Vec<u8>> = w.found.iter().map(|c| c.display.clone()).collect();
    assert_eq!(names, vec![b("Show One.mkv"), b("Show Two.avi")]);
    assert_eq!(w.pending, vec![b("/v/more")]);
}

#[test]
fn record_dir_without_extension_filter_keeps_plain_files() {
    let cfg = Config { extensions: None, strip_chars: b("") };
    let mut w = Walk::begin(vec![dir("/v")]).unwrap();
    assert_eq!(w.next_dir(), Some(b("/v")));
    w.record_dir(vec![file("/v/plain"), file("/v/sample")], &cfg);
    let names: Vec<Vec<u8>> = w.found.iter().map(|c| c.display.clone()).collect();
    assert_eq!(names, vec![b("plain")]);
}

#[test]
fn candidate_carries_display_and_normalized_key() {
    let cfg = video_config();
    let mut w = Walk::begin(vec![dir("/v")]).unwrap();
    assert_eq!(w.next_dir(), Some(b("/v")));
    w.record_dir(vec![file("/v/My Show - S01E02.mkv")], &cfg);
    assert_eq!(w.found.len(), 1);
    assert_eq!(w.found[0].path, b("/v/My Show - S01E02.mkv"));
    assert_eq!(w.found[0].display, b("My Show - S01E02.mkv"));
    assert_eq!(w.found[0].key, b("myshows01e02mkv"));
}

#[test]
fn chomp_strips_exactly_one_trailing_newline() {
    assert_eq!(chomp(&b("choice\n")), b("choice"));
    assert_eq!(chomp(&b("choice\n\n")), b("choice\n"));
    assert_eq!(chomp(&b("choice")), b("choice"));
    assert_eq!(chomp(&b("")), b(""));
}

#[test]
fn empty_selector_output_cancels_without_launch() {
    let cfg = video_config();
    let mut w = Walk::begin(vec![dir("/v")]).unwrap();
    assert_eq!(w.next_dir(), Some(b("/v")));
    w.record_dir(vec![file("/v/a.mkv")], &cfg);
    let map = map_of_candidates(&w.found);
    assert_eq!(decide(&b(""), &map), Outcome::Cancel);
}

#[test]
fn unknown_selection_is_a_lookup_error() {
    let cfg = video_config();
    let mut w = Walk::begin(vec![dir("/v")]).unwrap();
    assert_eq!(w.next_dir(), Some(b("/v")));
    w.record_dir(vec![file("/v/a.mkv")], &cfg);
    let map = map_of_candidates(&w.found);
    assert_eq!(decide(&b("b.mkv\n"), &map), Outcome::Fail(Error::Lookup));
}

#[test]
fn echoed_display_name_resolves_to_its_full_path() {
    let cfg = video_config();
    let mut w = Walk::begin(vec![dir("/v")]).unwrap();
    assert_eq!(w.next_dir(), Some(b("/v")));
    w.record_dir(
        vec![file("/v/First.mkv"), file("/v/Second.mkv")],
        &cfg,
    );
    let sorted = sort_candidates(w.found);
    let map = map_of_candidates(&sorted);
    assert_eq!(
        decide(&b("Second.mkv\n"), &map),
        Outcome::Launch(b("/v/Second.mkv"))
    );
    assert_eq!(
        decide(&b("First.mkv"), &map),
        Outcome::Launch(b("/v/First.mkv"))
    );
}

#[test]
fn colliding_display_names_resolve_to_the_later_path() {
    let cfg = video_config();
    let mut w = Walk::begin(vec![dir("/v")]).unwrap();
    assert_eq!(w.next_dir(), Some(b("/v")));
    w.record_dir(vec![file("/v/a/Ep.mkv")], &cfg);
    w.record_dir(vec![file("/v/b/Ep.mkv")], &cfg);
    let map = map_of_candidates(&w.found);
    assert_eq!(decide(&b("Ep.mkv\n"), &map), Outcome::Launch(b("/v/b/Ep.mkv")));
}
