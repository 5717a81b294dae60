use cleardir::dedup::{deletion_plan, doomed_members, removals, Config};
use cleardir::digest::{digest_of, to_hex, ContentHasher};
use cleardir::scan::{scan_listing, DigestMap, Listed, Observation};

fn file(name: &str, contents: &[u8]) -> Listed {
    Listed::File { path: Some(name.to_string()), digest: digest_of(contents) }
}

fn names(v: &[&str]) -> Vec<String> {
    v.iter().map(|s| s.to_string()).collect()
}

const RUN: Config = Config { verbose: false, dry_run: false };
const DRY: Config = Config { verbose: true, dry_run: true };

#[test]
fn hex_rendering() {
    assert_eq!(to_hex(&[0x00, 0x0f, 0xab, 0xff, 0x10]), "000fabff10");
    assert_eq!(to_hex(&[]), "");
}

#[test]
fn digest_of_known_contents() {
    assert_eq!(
        digest_of(b""),
        "e3b0c44298fc1c149afbf4c8996fb92427ae41e4649b934ca495991b7852b855"
    );
    assert_eq!(
        digest_of(b"hello"),
        "2cf24dba5fb0a30e26e83b2ac5b9e29e1b161e5c1fa7425e73043362938b9824"
    );
}

#[test]
fn streamed_digest_matches_whole() {
    let mut h = ContentHasher::new();
    h.update(b"hel");
    h.update(b"");
    h.update(b"lo");
    assert_eq!(h.finish(), digest_of(b"hello"));
}

#[test]
fn subdirectory_and_duplicate_pair() {
    let listing = vec![file("a.txt", b"hello"), file("bb.txt", b"hello"), Listed::Directory];
    let map = scan_listing(&listing);
    assert_eq!(map.len(), 1);
    assert_eq!(map.digest(0), &digest_of(b"hello"));
    assert_eq!(map.files(0), &vec![Some("a.txt".to_string()), Some("bb.txt".to_string())]);
    assert_eq!(deletion_plan(&map), names(&["bb.txt"]));
    assert_eq!(removals(&map, RUN), names(&["bb.txt"]));
}

#[test]
fn three_copies_keep_shortest() {
    let listing = vec![file("zzz.txt", b"A"), file("x.txt", b"A"), file("yy.txt", b"A")];
    let map = scan_listing(&listing);
    assert_eq!(map.len(), 1);
    assert_eq!(map.files(0).len(), 3);
    assert_eq!(deletion_plan(&map), names(&["zzz.txt", "yy.txt"]));
}

#[test]
fn equal_lengths_keep_first_listed() {
    let map = scan_listing(&vec![file("ab.txt", b"Z"), file("cd.txt", b"Z")]);
    assert_eq!(deletion_plan(&map), names(&["cd.txt"]));
    let map = scan_listing(&vec![file("cd.txt", b"Z"), file("ab.txt", b"Z")]);
    assert_eq!(deletion_plan(&map), names(&["ab.txt"]));
}

#[test]
fn empty_directory() {
    let map = scan_listing(&vec![]);
    assert_eq!(map.len(), 0);
    assert!(deletion_plan(&map).is_empty());
    assert!(removals(&map, RUN).is_empty());
}

#[test]
fn distinct_contents_delete_nothing() {
    let listing = vec![file("a", b"1"), file("b", b"2"), file("c", b"3"), file("d", b"")];
    let map = scan_listing(&listing);
    assert_eq!(map.len(), 4);
    assert!(deletion_plan(&map).is_empty());
}

#[test]
fn only_directories_make_no_group() {
    let map = scan_listing(&vec![Listed::Directory, Listed::Directory]);
    assert_eq!(map.len(), 0);
}

#[test]
fn one_survivor_per_group() {
    let fs = vec![
        Some("dddd".to_string()),
        Some("bb".to_string()),
        Some("ccc".to_string()),
        Some("ee".to_string()),
    ];
    let marks = doomed_members(&fs);
    assert_eq!(marks, vec![true, false, true, true]);
    assert_eq!(marks.iter().filter(|m| !**m).count(), 1);
}

#[test]
fn single_member_is_kept() {
    assert_eq!(doomed_members(&vec![Some("longname".to_string())]), vec![false]);
    assert_eq!(doomed_members(&vec![]), Vec::<bool>::new());
}

#[test]
fn paths_without_text_are_never_deleted() {
    let fs = vec![None, Some("b".to_string()), Some("cc".to_string()), None];
    assert_eq!(doomed_members(&fs), vec![false, false, true, false]);
    assert_eq!(doomed_members(&vec![None, None]), vec![false, false]);
}

#[test]
fn lengths_count_utf8_bytes() {
    let fs = vec![Some("ab".to_string()), Some("\u{e9}".to_string())];
    assert_eq!(doomed_members(&fs), vec![false, true]);
    let fs = vec![Some("\u{e9}\u{e9}".to_string()), Some("aaa".to_string())];
    assert_eq!(doomed_members(&fs), vec![true, false]);
}

#[test]
fn second_run_deletes_nothing() {
    let listing = vec![
        file("one", b"x"),
        file("two", b"x"),
        file("three", b"y"),
        file("t", b"y"),
        file("u", b"z"),
    ];
    let plan = deletion_plan(&scan_listing(&listing));
    assert_eq!(plan, names(&["two", "three"]));
    let survivors: Vec<Listed> = listing
        .into_iter()
        .filter(|e| match e {
            Listed::File { path: Some(p), .. } => !plan.contains(p),
            _ => true,
        })
        .collect();
    assert_eq!(survivors.len(), 3);
    assert!(deletion_plan(&scan_listing(&survivors)).is_empty());
}

#[test]
fn dry_run_removes_nothing() {
    let map = scan_listing(&vec![file("a", b"q"), file("bb", b"q")]);
    assert!(removals(&map, DRY).is_empty());
    assert_eq!(deletion_plan(&map), names(&["bb"]));
}

#[test]
fn observe_reports_each_entry() {
    let mut map = DigestMap::new();
    assert_eq!(map.observe(&file("a", b"k")), Observation::First);
    assert_eq!(map.observe(&Listed::Directory), Observation::Skipped);
    assert_eq!(map.observe(&file("b", b"k")), Observation::Duplicate);
    assert_eq!(map.observe(&file("c", b"l")), Observation::First);
    assert_eq!(map.len(), 2);
    assert_eq!(map.files(0).len(), 2);
    assert_eq!(map.files(1), &vec![Some("c".to_string())]);
}

#[test]
fn record_groups_by_digest() {
    let mut map = DigestMap::new();
    assert!(!map.record(None, "d1".to_string()));
    assert!(map.record(Some("p".to_string()), "d1".to_string()));
    assert!(!map.record(Some("q".to_string()), "d2".to_string()));
    assert_eq!(map.digest(1), "d2");
    assert_eq!(map.files(0), &vec![None, Some("p".to_string())]);
}
