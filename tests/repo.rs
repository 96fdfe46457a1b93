use pkgsync::package::{Arch, Package};
use pkgsync::repo::{classify, Action, EventKind, Flag, Outcome, Repository};

fn pkg(name: &str, binary: bool, signed: bool) -> Package {
    Package::new(name, "1.0", 1, 0, Arch::x86_64, binary, signed)
}

#[test]
fn upsert_twice_keeps_one_entry() {
    let mut repo = Repository::new();
    repo.upsert(pkg("a", true, false));
    repo.upsert(pkg("a", true, false));
    assert_eq!(repo.len(), 1);
    assert_eq!(repo.entries(), vec![pkg("a", true, false)]);
}

#[test]
fn upsert_merges_flags() {
    let mut repo = Repository::new();
    repo.upsert(pkg("a", true, false));
    repo.upsert(pkg("a", false, true));
    assert_eq!(repo.entries(), vec![pkg("a", true, true)]);
}

#[test]
fn upsert_distinct_identities() {
    let mut repo = Repository::new();
    repo.upsert(pkg("a", true, false));
    repo.upsert(Package::new("a", "1.0", 2, 0, Arch::x86_64, true, false));
    repo.upsert(Package::new("a", "1.0", 1, 0, Arch::i686, true, false));
    assert_eq!(repo.len(), 3);
}

#[test]
fn clear_absent_is_noop() {
    let mut repo = Repository::new();
    repo.upsert(pkg("a", true, false));
    let before = repo.entries();
    repo.clear_flag(&pkg("b", true, false), Flag::Binary);
    assert_eq!(repo.entries(), before);
}

#[test]
fn clear_flag_keeps_other_half() {
    let mut repo = Repository::new();
    repo.upsert(pkg("a", true, true));
    repo.clear_flag(&pkg("a", false, true), Flag::Signed);
    assert_eq!(repo.entries(), vec![pkg("a", true, false)]);
    repo.clear_flag(&pkg("a", true, false), Flag::Binary);
    assert_eq!(repo.len(), 0);
}

#[test]
fn commit_partition() {
    let mut repo = Repository::new();
    repo.upsert(pkg("a", true, false));
    repo.upsert(pkg("b", true, true));
    repo.upsert(pkg("c", false, true));
    let (ready, pending) = repo.partition();
    assert_eq!(ready, vec![pkg("b", true, true)]);
    assert_eq!(pending, vec![pkg("a", true, false), pkg("c", false, true)]);
    assert_eq!(repo.len(), 3);
    let committed = repo.commit();
    assert_eq!(committed, vec![pkg("b", true, true)]);
    assert_eq!(repo.entries(), vec![pkg("a", true, false), pkg("c", false, true)]);
}

#[test]
fn commit_on_empty_set() {
    let mut repo = Repository::new();
    assert!(repo.commit().is_empty());
    assert_eq!(repo.len(), 0);
}

#[test]
fn end_to_end_lnav() {
    let mut repo = Repository::new();
    let r1 = repo.handle("lnav-0.5.1-1-x86_64.pkg.tar.xz", EventKind::CloseWrite);
    assert!(matches!(r1, Outcome::Added(_)));
    let r2 = repo.handle("lnav-0.5.1-1-x86_64.pkg.tar.xz.sig", EventKind::CloseWrite);
    assert!(matches!(r2, Outcome::Added(_)));
    match repo.handle("DONE", EventKind::CloseWrite) {
        Outcome::Committed(ready) => {
            assert_eq!(ready, vec![Package::new("lnav", "0.5.1", 1, 0, Arch::x86_64, true, true)]);
        }
        other => panic!("expected a commit, got {:?}", other),
    }
    assert_eq!(repo.len(), 0);
}

#[test]
fn moved_events() {
    let mut repo = Repository::new();
    repo.handle("lnav-0.5.1-1-x86_64.pkg.tar.xz", EventKind::MovedTo);
    repo.handle("lnav-0.5.1-1-x86_64.pkg.tar.xz.sig", EventKind::MovedTo);
    let removed = repo.handle("lnav-0.5.1-1-x86_64.pkg.tar.xz.sig", EventKind::MovedFrom);
    assert!(matches!(removed, Outcome::Removed(_)));
    assert_eq!(
        repo.entries(),
        vec![Package::new("lnav", "0.5.1", 1, 0, Arch::x86_64, true, false)]
    );
    match repo.handle("DONE", EventKind::MovedTo) {
        Outcome::Committed(ready) => assert!(ready.is_empty()),
        other => panic!("expected a commit, got {:?}", other),
    }
    assert_eq!(repo.len(), 1);
    repo.handle("lnav-0.5.1-1-x86_64.pkg.tar.xz", EventKind::Delete);
    assert_eq!(repo.len(), 0);
}

#[test]
fn non_package_files_ignored() {
    let mut repo = Repository::new();
    assert!(matches!(repo.handle("notes.txt", EventKind::CloseWrite), Outcome::Ignored));
    assert!(matches!(repo.handle("notes.txt", EventKind::Delete), Outcome::Ignored));
    assert!(matches!(repo.handle("DONE", EventKind::Delete), Outcome::Ignored));
    assert_eq!(repo.len(), 0);
}

#[test]
fn other_events_unhandled() {
    let mut repo = Repository::new();
    let r = repo.handle("lnav-0.5.1-1-x86_64.pkg.tar.xz", EventKind::Other);
    assert!(matches!(r, Outcome::Unhandled));
    assert_eq!(repo.len(), 0);
}

#[test]
fn classify_events() {
    assert!(matches!(classify("DONE", EventKind::CloseWrite), Action::Commit));
    assert!(matches!(classify("DONE", EventKind::MovedTo), Action::Commit));
    assert!(matches!(classify("DONE2", EventKind::CloseWrite), Action::Add(ref f) if f == "DONE2"));
    assert!(matches!(classify("done", EventKind::MovedTo), Action::Add(ref f) if f == "done"));
    assert!(matches!(classify("x", EventKind::Delete), Action::Remove(ref f) if f == "x"));
    assert!(matches!(classify("DONE", EventKind::MovedFrom), Action::Remove(ref f) if f == "DONE"));
    assert!(matches!(classify("x", EventKind::Other), Action::Unhandled));
}
