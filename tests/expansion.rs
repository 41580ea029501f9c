use logbuddy::expand::{Action, Event, Expansion, FailureStage};
use logbuddy::sniff::FileKind;

fn s(x: &str) -> String {
    x.to_string()
}

fn sniff_target(e: &Expansion) -> String {
    match e.action() {
        Action::Sniff(p) => p,
        other => panic!("expected a sniff request, got {:?}", other),
    }
}

fn unpack_target(e: &Expansion) -> (String, String) {
    match e.action() {
        Action::Unpack { source, dest } => (source, dest),
        other => panic!("expected an unpack request, got {:?}", other),
    }
}

fn file_name(p: &str) -> &str {
    p.rsplit('/').next().unwrap()
}

#[test]
fn plain_file_expands_to_itself() {
    let mut e = Expansion::new(s("/scratch/0/app.log"));
    assert_eq!(sniff_target(&e), "/scratch/0/app.log");
    e.feed(Event::Kind(FileKind::Other));
    assert!(e.is_finished());
    assert!(matches!(e.action(), Action::Finished));
    assert_eq!(e.leaves(), &vec![s("/scratch/0/app.log")]);
    assert!(e.failures().is_empty());
}

#[test]
fn unknown_file_is_kept_as_leaf() {
    let mut e = Expansion::new(s("/scratch/0/data.bin"));
    e.feed(Event::Kind(FileKind::Unknown));
    assert!(e.is_finished());
    assert_eq!(e.leaves(), &vec![s("/scratch/0/data.bin")]);
}

#[test]
fn flat_archive_expands_to_its_members() {
    let mut e = Expansion::new(s("/r/0/logs.tar"));
    e.feed(Event::Kind(FileKind::Archive));
    let (source, dest) = unpack_target(&e);
    assert_eq!(source, "/r/0/logs.tar");
    assert_eq!(dest, "/r/0/logs.tar_0000000000000000");
    let members = vec![
        s("/r/0/logs.tar_0000000000000000/a"),
        s("/r/0/logs.tar_0000000000000000/b"),
        s("/r/0/logs.tar_0000000000000000/c"),
    ];
    e.feed(Event::Unpacked(members.clone()));
    for m in &members {
        assert_eq!(&sniff_target(&e), m);
        e.feed(Event::Kind(FileKind::Other));
    }
    assert!(e.is_finished());
    assert_eq!(e.leaves(), &members);
    assert!(!e.leaves().contains(&s("/r/0/logs.tar")));
    assert!(e.failures().is_empty());
}

#[test]
fn empty_archive_expands_to_nothing() {
    let mut e = Expansion::new(s("/r/0/empty.zip"));
    e.feed(Event::Kind(FileKind::Archive));
    e.feed(Event::Unpacked(vec![]));
    assert!(e.is_finished());
    assert!(e.leaves().is_empty());
    assert!(e.failures().is_empty());
}

fn nested(depth: usize) -> (Vec<String>, Vec<String>) {
    let mut e = Expansion::new(s("/r/0/a0"));
    let mut path = s("/r/0/a0");
    for i in 0..depth {
        assert_eq!(sniff_target(&e), path);
        e.feed(Event::Kind(FileKind::Archive));
        let (_, dest) = unpack_target(&e);
        path = format!("{}/a{}", dest, i + 1);
        e.feed(Event::Unpacked(vec![path.clone()]));
    }
    assert_eq!(sniff_target(&e), path);
    e.feed(Event::Kind(FileKind::Other));
    assert!(e.is_finished());
    assert!(e.failures().is_empty());
    (e.leaves().clone(), vec![path])
}

#[test]
fn nested_archives_depth_one() {
    let (leaves, expected) = nested(1);
    assert_eq!(leaves, expected);
    assert_eq!(leaves, vec![s("/r/0/a0_0000000000000000/a1")]);
}

#[test]
fn nested_archives_depth_two() {
    let (leaves, expected) = nested(2);
    assert_eq!(leaves, expected);
    assert_eq!(leaves, vec![s("/r/0/a0_0000000000000000/a1_0000000000000000/a2")]);
}

#[test]
fn nested_archives_depth_five() {
    let (leaves, expected) = nested(5);
    assert_eq!(leaves, expected);
    assert_eq!(leaves, vec![s(
        "/r/0/a0_0000000000000000/a1_0000000000000000/a2_0000000000000000/a3_0000000000000000/a4_0000000000000000/a5",
    )]);
}

#[test]
fn corrupt_member_does_not_hide_its_siblings() {
    // The bad archive fails its own branch only: the two good members are
    // kept and the corrupt one is reported.
    let mut e = Expansion::new(s("/r/0/bundle.tar"));
    e.feed(Event::Kind(FileKind::Archive));
    e.feed(Event::Unpacked(vec![
        s("/r/0/bundle.tar_0000000000000000/a.log"),
        s("/r/0/bundle.tar_0000000000000000/bad.zip"),
        s("/r/0/bundle.tar_0000000000000000/c.log"),
    ]));
    e.feed(Event::Kind(FileKind::Other));
    e.feed(Event::Kind(FileKind::Archive));
    assert_eq!(
        unpack_target(&e).1,
        "/r/0/bundle.tar_0000000000000000/bad.zip_0000000000000000"
    );
    e.feed(Event::UnpackFailed(s("truncated archive")));
    e.feed(Event::Kind(FileKind::Other));
    assert!(e.is_finished());
    assert_eq!(e.leaves(), &vec![s("/r/0/bundle.tar_0000000000000000/a.log"), s("/r/0/bundle.tar_0000000000000000/c.log")]);
    let f = e.failures();
    assert_eq!(f.len(), 1);
    assert_eq!(f[0].path, "/r/0/bundle.tar_0000000000000000/bad.zip");
    assert_eq!(f[0].stage, FailureStage::Unpack);
    assert_eq!(f[0].cause, "truncated archive");
}

#[test]
fn dropped_tarball_with_nested_zip() {
    let mut e = Expansion::new(s("/tmp/r/0000000000000000/logs.tar.gz"));
    e.feed(Event::Kind(FileKind::Archive));
    let (_, dest) = unpack_target(&e);
    e.feed(Event::Unpacked(vec![format!("{}/app.log", dest), format!("{}/nested.zip", dest)]));
    assert_eq!(file_name(&sniff_target(&e)), "app.log");
    e.feed(Event::Kind(FileKind::Unknown));
    assert_eq!(file_name(&sniff_target(&e)), "nested.zip");
    e.feed(Event::Kind(FileKind::Archive));
    let (_, inner) = unpack_target(&e);
    assert!(inner.starts_with(&format!("{}/", dest)));
    e.feed(Event::Unpacked(vec![format!("{}/debug.log", inner)]));
    e.feed(Event::Kind(FileKind::Unknown));
    assert!(e.is_finished());
    let names: Vec<&str> = e.leaves().iter().map(|p| file_name(p)).collect();
    assert_eq!(names, vec!["app.log", "debug.log"]);
    let (leaves, failures) = e.into_outcome();
    assert!(failures.is_empty());
    assert_eq!(
        leaves,
        vec![
            s("/tmp/r/0000000000000000/logs.tar.gz_0000000000000000/app.log"),
            s("/tmp/r/0000000000000000/logs.tar.gz_0000000000000000/nested.zip_0000000000000000/debug.log"),
        ]
    );
}

#[test]
fn member_outside_its_directory_is_rejected() {
    let mut e = Expansion::new(s("/r/0/x.tar"));
    e.feed(Event::Kind(FileKind::Archive));
    e.feed(Event::Unpacked(vec![s("/etc/passwd"), s("/r/0/x.tar_0000000000000000/ok.log"), s("/r/0/x.tarother")]));
    assert_eq!(sniff_target(&e), "/r/0/x.tar_0000000000000000/ok.log");
    e.feed(Event::Kind(FileKind::Other));
    assert!(e.is_finished());
    assert_eq!(e.leaves(), &vec![s("/r/0/x.tar_0000000000000000/ok.log")]);
    let f = e.failures();
    assert_eq!(f.len(), 2);
    assert_eq!(f[0].path, "/etc/passwd");
    assert_eq!(f[0].stage, FailureStage::Escape);
    assert_eq!(f[0].cause, "/r/0/x.tar_0000000000000000");
    assert_eq!(f[1].path, "/r/0/x.tarother");
}

#[test]
fn walk_failure_is_reported() {
    let mut e = Expansion::new(s("/r/0/y.zip"));
    e.feed(Event::Kind(FileKind::Archive));
    e.feed(Event::WalkFailed(s("permission denied")));
    assert!(e.is_finished());
    assert!(e.leaves().is_empty());
    assert_eq!(e.failures()[0].stage, FailureStage::Walk);
    assert_eq!(e.failures()[0].path, "/r/0/y.zip");
}

#[test]
fn report_that_answers_nothing_is_ignored() {
    let mut e = Expansion::new(s("/r/0/z.log"));
    e.feed(Event::Unpacked(vec![s("/r/0/z.log_/q")]));
    assert_eq!(sniff_target(&e), "/r/0/z.log");
    e.feed(Event::Kind(FileKind::Other));
    e.feed(Event::Kind(FileKind::Other));
    assert_eq!(e.leaves(), &vec![s("/r/0/z.log")]);
    assert_eq!(e.origin(), "/r/0/z.log");
}

#[test]
fn unpack_directory_is_never_one_already_listed() {
    // The archive lists a member archive and, beside it, a file in a
    // directory with the name that the member would be unpacked into first.
    let mut e = Expansion::new(s("/r/0/a.tar"));
    e.feed(Event::Kind(FileKind::Archive));
    let (_, d0) = unpack_target(&e);
    let x = format!("{}/x.zip", d0);
    let y = format!("{}/x.zip_0000000000000000/y.log", d0);
    e.feed(Event::Unpacked(vec![x.clone(), y.clone()]));
    assert_eq!(sniff_target(&e), x);
    e.feed(Event::Kind(FileKind::Archive));
    let (_, d1) = unpack_target(&e);
    assert_eq!(d1, format!("{}/x.zip_0000000000000001", d0));
    e.feed(Event::Unpacked(vec![format!("{}/y.log", d1)]));
    e.feed(Event::Kind(FileKind::Other));
    e.feed(Event::Kind(FileKind::Other));
    assert!(e.is_finished());
    assert_eq!(e.leaves(), &vec![format!("{}/y.log", d1), y]);
    assert!(e.failures().is_empty());
}

#[test]
fn member_listed_twice_is_kept_once() {
    let mut e = Expansion::new(s("/r/0/d.zip"));
    e.feed(Event::Kind(FileKind::Archive));
    let (_, d) = unpack_target(&e);
    let a = format!("{}/a.log", d);
    e.feed(Event::Unpacked(vec![a.clone(), a.clone()]));
    e.feed(Event::Kind(FileKind::Other));
    assert!(e.is_finished());
    assert_eq!(e.leaves(), &vec![a.clone()]);
    assert_eq!(e.failures().len(), 1);
    assert_eq!(e.failures()[0].stage, FailureStage::Repeated);
    assert_eq!(e.failures()[0].path, a);
}
