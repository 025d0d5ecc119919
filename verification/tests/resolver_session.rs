use cdeez::codec::Location;
use cdeez::resolver::{
    direct_target, drive_root_candidate, probe_paths, resolve, CanonStatus, Config, FsView,
    Outcome,
};
use cdeez::session::{run_session, run_session_text};

fn loc(path: &str, count: usize) -> Location {
    Location { path: String::from(path), count }
}

fn fsv(paths: &[&str]) -> FsView {
    FsView { present: paths.iter().map(|p| String::from(*p)).collect() }
}

fn cfg() -> Config {
    Config { case_insensitive: false, drive_letters: false }
}

fn cfg_ci() -> Config {
    Config { case_insensitive: true, drive_letters: false }
}

fn cfg_drives() -> Config {
    Config { case_insensitive: true, drive_letters: true }
}

fn hit_path(o: &Outcome) -> &str {
    match o {
        Outcome::DirectHit(p) => p,
        Outcome::HistoryHit(p) => p,
        Outcome::DriveRoot(p) => p,
        _ => panic!("expected a successful outcome"),
    }
}

#[test]
fn direct_hit_wins_over_history() {
    let records = vec![loc("/a/b", 9)];
    let o = resolve(
        &cfg(),
        "b",
        &records,
        &CanonStatus::Dir(String::from("/cwd/b")),
        &None,
        &fsv(&["/a/b"]),
    );
    assert!(matches!(o, Outcome::DirectHit(p) if p == "/cwd/b"));
}

#[test]
fn history_hit_on_single_segment() {
    let records = vec![loc("/a/b", 1)];
    let o = resolve(&cfg(), "b", &records, &CanonStatus::Missing, &None, &fsv(&["/a/b"]));
    assert!(matches!(o, Outcome::HistoryHit(p) if p == "/a/b"));
}

#[test]
fn not_found_when_nothing_matches() {
    let records = vec![loc("/a/b", 1)];
    let o = resolve(&cfg(), "zzz", &records, &CanonStatus::Missing, &None, &fsv(&["/a/b"]));
    assert!(matches!(o, Outcome::NotFound));
}

#[test]
fn segment_boundary_rejects_partial_names() {
    // fragment "b" must not match a path ending in "ab" ...
    let records = vec![loc("/a/ab", 3)];
    let fs = fsv(&["/a/ab"]);
    let o = resolve(&cfg(), "b", &records, &CanonStatus::Missing, &None, &fs);
    assert!(matches!(o, Outcome::NotFound));
    // ... but it must match a path ending in "/b"
    let records = vec![loc("/a/ab", 3), loc("/a/b", 1)];
    let fs = fsv(&["/a/ab", "/a/b"]);
    let o = resolve(&cfg(), "b", &records, &CanonStatus::Missing, &None, &fs);
    assert!(matches!(o, Outcome::HistoryHit(p) if p == "/a/b"));
}

#[test]
fn multi_segment_needs_joined_path_on_disk() {
    // the stored record matches the first segment, but the join is absent
    let records = vec![loc("/x/cdeez", 5)];
    let fs = fsv(&["/x/cdeez"]);
    let o = resolve(&cfg(), "cdeez/src", &records, &CanonStatus::Missing, &None, &fs);
    assert!(matches!(o, Outcome::NotFound));
    // once the joined path exists, the same fragment resolves to it
    let fs = fsv(&["/x/cdeez", "/x/cdeez/src"]);
    let o = resolve(&cfg(), "cdeez/src", &records, &CanonStatus::Missing, &None, &fs);
    assert!(matches!(o, Outcome::HistoryHit(p) if p == "/x/cdeez/src"));
}

#[test]
fn multi_segment_skips_record_and_scans_on() {
    // the first record fails the join; the scan must continue, not stop
    let records = vec![loc("/x/cdeez", 9), loc("/y/cdeez", 1)];
    let fs = fsv(&["/x/cdeez", "/y/cdeez", "/y/cdeez/src"]);
    let o = resolve(&cfg(), "cdeez/src", &records, &CanonStatus::Missing, &None, &fs);
    assert!(matches!(o, Outcome::HistoryHit(p) if p == "/y/cdeez/src"));
}

#[test]
fn backslash_fragments_are_separator_normalized() {
    let records = vec![loc("/x/cdeez", 1)];
    let fs = fsv(&["/x/cdeez", "/x/cdeez/src"]);
    let o = resolve(&cfg(), "cdeez\\src", &records, &CanonStatus::Missing, &None, &fs);
    assert!(matches!(o, Outcome::HistoryHit(p) if p == "/x/cdeez/src"));
}

#[test]
fn case_rule_is_a_configuration_knob() {
    let records = vec![loc("\\\\?\\D:\\Desktop\\Projects", 1)];
    let fs = fsv(&["\\\\?\\D:\\Desktop\\Projects"]);
    let o = resolve(&cfg_ci(), "projects", &records, &CanonStatus::Missing, &None, &fs);
    assert!(matches!(o, Outcome::HistoryHit(p) if p == "\\\\?\\D:\\Desktop\\Projects"));
    let o = resolve(&cfg(), "projects", &records, &CanonStatus::Missing, &None, &fs);
    assert!(matches!(o, Outcome::NotFound));
}

#[test]
fn tie_break_is_first_in_stored_order() {
    // the lower-count record stored first wins over the higher count
    let records = vec![loc("/a/b", 1), loc("/a/b2/b", 5)];
    let fs = fsv(&["/a/b", "/a/b2/b"]);
    let o = resolve(&cfg(), "b", &records, &CanonStatus::Missing, &None, &fs);
    assert!(matches!(o, Outcome::HistoryHit(p) if p == "/a/b"));
}

#[test]
fn dead_entry_self_heals() {
    // "/a/b" is remembered but gone from disk
    let records = vec![loc("/a/b", 4), loc("/c/d", 2)];
    let fs = fsv(&["/c/d"]);
    let out = run_session(&cfg(), "b", records, &CanonStatus::Missing, &None, &fs);
    assert!(matches!(&out.outcome, Outcome::DeadEntry(p) if p == "/a/b"));
    assert!(out.mutated);
    assert_eq!(out.records.len(), 1);
    assert_eq!(out.records[0].path, "/c/d");
    assert_eq!(out.records[0].count, 2);
}

#[test]
fn file_rejection_prunes_only_the_file() {
    let records = vec![loc("/a/f.txt", 3), loc("/z", 7)];
    let fs = fsv(&[]);
    let direct = CanonStatus::File(String::from("/a/f.txt"));
    let out = run_session(&cfg(), "f.txt", records, &direct, &None, &fs);
    assert!(matches!(&out.outcome, Outcome::FileRejected(p) if p == "/a/f.txt"));
    assert!(out.mutated);
    assert_eq!(out.records.len(), 1);
    assert_eq!(out.records[0].path, "/z");
    assert_eq!(out.records[0].count, 7);
}

#[test]
fn file_rejection_without_matching_record_writes_nothing() {
    let records = vec![loc("/z", 7)];
    let direct = CanonStatus::File(String::from("/a/f.txt"));
    let out = run_session(&cfg(), "f.txt", records, &direct, &None, &fsv(&[]));
    assert!(matches!(&out.outcome, Outcome::FileRejected(_)));
    assert!(!out.mutated);
    assert_eq!(out.records.len(), 1);
}

#[test]
fn reresolution_increments_without_duplicating() {
    let records = vec![loc("/a/b", 1)];
    let fs = fsv(&["/a/b"]);
    let first = run_session(&cfg(), "b", records, &CanonStatus::Missing, &None, &fs);
    assert_eq!(hit_path(&first.outcome), "/a/b");
    assert!(first.mutated);
    assert_eq!(first.records.len(), 1);
    assert_eq!(first.records[0].count, 2);
    let second = run_session(&cfg(), "b", first.records, &CanonStatus::Missing, &None, &fs);
    assert_eq!(hit_path(&second.outcome), "/a/b");
    assert_eq!(second.records.len(), 1);
    assert_eq!(second.records[0].count, 3);
}

#[test]
fn direct_hit_inserts_fresh_record_once() {
    let fs = fsv(&[]);
    let direct = CanonStatus::Dir(String::from("/new/dir"));
    let first = run_session(&cfg(), "dir", Vec::new(), &direct, &None, &fs);
    assert!(first.mutated);
    assert_eq!(first.records.len(), 1);
    assert_eq!(first.records[0].path, "/new/dir");
    assert_eq!(first.records[0].count, 1);
    let second = run_session(&cfg(), "dir", first.records, &direct, &None, &fs);
    assert_eq!(second.records.len(), 1);
    assert_eq!(second.records[0].count, 2);
}

#[test]
fn not_found_mutates_nothing() {
    let records = vec![loc("/a/b", 1)];
    let out = run_session(&cfg(), "zzz", records, &CanonStatus::Missing, &None, &fsv(&[]));
    assert!(matches!(out.outcome, Outcome::NotFound));
    assert!(!out.mutated);
    assert_eq!(out.records.len(), 1);
}

#[test]
fn drive_pair_resolves_to_drive_root() {
    let drive = Some(String::from("C:/"));
    let o = resolve(&cfg_drives(), "C:", &Vec::new(), &CanonStatus::Missing, &drive, &fsv(&[]));
    assert!(matches!(o, Outcome::DriveRoot(p) if p == "C:/"));
}

#[test]
fn drive_pair_unavailable_when_canonicalization_fails() {
    let o = resolve(&cfg_drives(), "C:", &Vec::new(), &CanonStatus::Missing, &None, &fsv(&[]));
    assert!(matches!(o, Outcome::DriveUnavailable(p) if p == "C:/"));
}

#[test]
fn single_letter_drive_is_a_last_resort() {
    // a matching record beats the drive interpretation
    let records = vec![loc("/home/c", 1)];
    let fs = fsv(&["/home/c"]);
    let drive = Some(String::from("c:/"));
    let o = resolve(&cfg_drives(), "c", &records, &CanonStatus::Missing, &drive, &fs);
    assert!(matches!(o, Outcome::HistoryHit(p) if p == "/home/c"));
    // with no match, the letter falls back to the drive root
    let o = resolve(&cfg_drives(), "c", &Vec::new(), &CanonStatus::Missing, &drive, &fsv(&[]));
    assert!(matches!(o, Outcome::DriveRoot(p) if p == "c:/"));
}

#[test]
fn drive_rules_are_skipped_without_drive_letters() {
    let drive = Some(String::from("c:/"));
    let o = resolve(&cfg(), "c", &Vec::new(), &CanonStatus::Missing, &drive, &fsv(&[]));
    assert!(matches!(o, Outcome::NotFound));
}

#[test]
fn drive_root_candidate_shapes() {
    assert_eq!(drive_root_candidate("C:").unwrap(), "C:/");
    assert_eq!(drive_root_candidate("D").unwrap(), "d:/");
    assert!(drive_root_candidate("ab").is_none());
    assert!(drive_root_candidate("7").is_none());
    assert!(drive_root_candidate("").is_none());
}

#[test]
fn direct_target_joins_onto_cwd() {
    assert_eq!(direct_target("src", "/home/me", false), "/home/me/src");
    assert_eq!(direct_target("src", "/home/me/", false), "/home/me/src");
    assert_eq!(direct_target("/abs/dir", "/home/me", true), "/abs/dir");
}

#[test]
fn probe_paths_for_multi_segment_fragment() {
    let records = vec![loc("/x/cdeez", 1)];
    let probes = probe_paths("cdeez/src", &records);
    assert_eq!(probes, vec![String::from("/x/cdeez"), String::from("/x/cdeez/src")]);
}

#[test]
fn probe_paths_for_single_segment_fragment() {
    let records = vec![loc("/a/b", 1), loc("/c/d", 2)];
    let probes = probe_paths("b", &records);
    assert_eq!(probes, vec![String::from("/a/b"), String::from("/c/d")]);
}

#[test]
fn trailing_separator_fragment_checks_record_itself() {
    let records = vec![loc("/gone/b", 1), loc("/here/b", 1)];
    let fs = fsv(&["/here/b"]);
    let o = resolve(&cfg(), "b/", &records, &CanonStatus::Missing, &None, &fs);
    assert!(matches!(o, Outcome::HistoryHit(p) if p == "/here/b"));
}

#[test]
fn text_session_rewrites_only_on_mutation() {
    let db = "\"/a/b\" 1\n\"/c/d\" 2\n";
    let fs = fsv(&["/a/b", "/c/d"]);
    // a hit rewrites the whole text with the bumped count
    let out = run_session_text(&cfg(), "b", db, &CanonStatus::Missing, &None, &fs).unwrap();
    assert!(matches!(&out.outcome, Outcome::HistoryHit(p) if p == "/a/b"));
    assert_eq!(out.new_text.unwrap(), "\"/a/b\" 2\n\"/c/d\" 2\n");
    // a miss leaves the store untouched
    let out = run_session_text(&cfg(), "zzz", db, &CanonStatus::Missing, &None, &fs).unwrap();
    assert!(matches!(out.outcome, Outcome::NotFound));
    assert!(out.new_text.is_none());
}

#[test]
fn text_session_propagates_corrupt_database() {
    let err = run_session_text(
        &cfg(),
        "b",
        "\"/a/b\" 1\nnot a record\n",
        &CanonStatus::Missing,
        &None,
        &fsv(&[]),
    )
    .unwrap_err();
    assert_eq!(err.line, 2);
}

#[test]
fn text_session_dead_entry_rewrite_is_exact() {
    let db = "\"/gone/b\" 9\n\"/c/d\" 2\n";
    let out = run_session_text(&cfg(), "b", db, &CanonStatus::Missing, &None, &fsv(&["/c/d"]))
        .unwrap();
    assert!(matches!(&out.outcome, Outcome::DeadEntry(p) if p == "/gone/b"));
    assert_eq!(out.new_text.unwrap(), "\"/c/d\" 2\n");
}
