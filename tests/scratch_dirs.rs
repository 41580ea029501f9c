use logbuddy::expand::{Event, Expansion};
use logbuddy::paths::{hex_digits, push_text, starts_with};
use logbuddy::runner::{start_submission, FileList, Report, SubmissionError};
use logbuddy::scratch::ScratchRoot;
use logbuddy::sniff::FileKind;

#[test]
fn hex_digits_have_fixed_width() {
    assert_eq!(hex_digits(255, 4), "00ff");
    assert_eq!(hex_digits(0, 16), "0000000000000000");
    assert_eq!(hex_digits(u64::MAX, 16), "ffffffffffffffff");
    assert_eq!(hex_digits(0x1234, 2), "34");
}

#[test]
fn prefix_test() {
    assert!(starts_with("/a/b_/c", "/a/b_/"));
    assert!(starts_with("abc", ""));
    assert!(!starts_with("/a/bc", "/a/b_/"));
    assert!(!starts_with("ab", "abc"));
    assert_eq!(push_text(&"x".to_string(), "_"), "x_");
}

#[test]
fn submissions_get_their_own_directories() {
    let mut root = ScratchRoot::new("/tmp/scratch".to_string());
    assert_eq!(root.root(), "/tmp/scratch");
    let a = root.submit("logs.tar.gz").unwrap();
    let b = root.submit("logs.tar.gz").unwrap();
    assert_eq!(a.id, 0);
    assert_eq!(b.id, 1);
    assert_eq!(a.dir, "/tmp/scratch/0000000000000000");
    assert_eq!(b.dir, "/tmp/scratch/0000000000000001");
    assert_eq!(a.source, "/tmp/scratch/0000000000000000/logs.tar.gz");
    assert_eq!(b.source, "/tmp/scratch/0000000000000001/logs.tar.gz");
}

fn expand_one_archive(source: &str) -> Expansion {
    let mut e = Expansion::new(source.to_string());
    e.feed(Event::Kind(FileKind::Archive));
    e.feed(Event::Unpacked(vec![format!("{}_0000000000000000/inner.log", source)]));
    e.feed(Event::Kind(FileKind::Other));
    e
}

#[test]
fn concurrent_submissions_do_not_mix() {
    let mut root = ScratchRoot::new("/tmp/scratch".to_string());
    let a = root.submit("same.zip").unwrap();
    let b = root.submit("same.zip").unwrap();
    let ea = expand_one_archive(&a.source);
    let eb = expand_one_archive(&b.source);
    let dir_a = format!("{}/", a.dir);
    let dir_b = format!("{}/", b.dir);
    for leaf in ea.leaves() {
        assert!(leaf.starts_with(&dir_a));
        assert!(!leaf.starts_with(&dir_b));
    }
    for leaf in eb.leaves() {
        assert!(leaf.starts_with(&dir_b));
        assert!(!leaf.starts_with(&dir_a));
    }
    assert_ne!(ea.leaves(), eb.leaves());
}

#[test]
fn file_list_keeps_each_report_in_order() {
    let mut list = FileList::new();
    assert!(list.paths().is_empty());
    let first = Report::from_expansion(0, expand_one_archive("/s/0/a.zip"));
    assert_eq!(first.id, 0);
    list.add_report(&first);
    let second = Report {
        id: 1,
        leaves: vec!["/s/1/x".to_string(), "/s/1/y".to_string()],
        failures: vec![],
    };
    list.add_report(&second);
    assert_eq!(
        list.paths(),
        &vec!["/s/0/a.zip_0000000000000000/inner.log".to_string(), "/s/1/x".to_string(), "/s/1/y".to_string()]
    );
}

#[test]
fn submission_needs_a_file_name() {
    let mut root = ScratchRoot::new("/tmp/scratch".to_string());
    match start_submission(&mut root, "/", None) {
        Err(SubmissionError::Copy { path, .. }) => assert_eq!(path, "/"),
        other => panic!("unexpected {:?}", other),
    }
    let s = start_submission(&mut root, "/home/u/app.log", Some("app.log")).unwrap();
    assert_eq!(s.id, 0);
    assert_eq!(s.source, "/tmp/scratch/0000000000000000/app.log");
}
