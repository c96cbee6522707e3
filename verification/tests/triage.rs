use reclamation::classify::Classification;
use reclamation::classify::classify;
use reclamation::classify::reason;
use reclamation::triage_folder;

fn p(s: &str) -> Vec<u8> {
    s.as_bytes().to_vec()
}

#[test]
fn classifies_log_as_auto_safe() {
    assert_eq!(classify(&p("/tmp/build.log")), Classification::AutoSafe);
    assert_eq!(classify(&p("scratch.tmp")), Classification::AutoSafe);
    assert_eq!(classify(&p("old.temp")), Classification::AutoSafe);
    assert_eq!(classify(&p("/d/.DS_Store")), Classification::AutoSafe);
}

#[test]
fn classifies_unknown_as_needs_review() {
    assert_eq!(classify(&p("/tmp/notes.txt")), Classification::NeedsReview);
    assert_eq!(classify(&p("")), Classification::NeedsReview);
}

#[test]
fn classifies_protected_paths_as_do_not_touch() {
    assert_eq!(classify(&p("/Applications/MyApp.app")), Classification::DoNotTouch);
    assert_eq!(classify(&p("/System/core")), Classification::DoNotTouch);
    assert_eq!(classify(&p("/Library/Frameworks/X.framework")), Classification::DoNotTouch);
}

#[test]
fn do_not_touch_wins_over_auto_safe() {
    // Matches both ".app" and ".log": the do-not-touch rule has precedence.
    assert_eq!(classify(&p("/Applications/Thing.app/install.log")), Classification::DoNotTouch);
}

#[test]
fn reason_names_first_matching_pattern() {
    assert_eq!(
        reason(&p("/tmp/build.log"), Classification::AutoSafe),
        Some(b"Contains: .log".to_vec())
    );
    // ".tmp" is checked before ".log".
    assert_eq!(
        reason(&p("/tmp/build.log.tmp"), Classification::AutoSafe),
        Some(b"Contains: .tmp".to_vec())
    );
}

#[test]
fn reason_is_none_for_other_classes() {
    assert_eq!(reason(&p("/tmp/build.log"), Classification::NeedsReview), None);
    assert_eq!(reason(&p("/tmp/build.log"), Classification::DoNotTouch), None);
    // Auto-safe asked of a path matching no auto-safe pattern.
    assert_eq!(reason(&p("/tmp/notes.txt"), Classification::AutoSafe), None);
}

#[test]
fn triage_partitions_in_listing_order() {
    let entries = vec![p("/d/build.log"), p("/d/notes.txt"), p("/d/MyApp.app")];
    let (auto, review, skip) = triage_folder(&entries);
    assert_eq!(auto, vec![p("/d/build.log")]);
    assert_eq!(review, vec![p("/d/notes.txt")]);
    assert_eq!(skip, vec![p("/d/MyApp.app")]);
}

#[test]
fn triage_keeps_bucket_order() {
    let entries = vec![p("/d/b.log"), p("/d/a.tmp"), p("/d/z.txt"), p("/d/c.log")];
    let (auto, review, skip) = triage_folder(&entries);
    assert_eq!(auto, vec![p("/d/b.log"), p("/d/a.tmp"), p("/d/c.log")]);
    assert_eq!(review, vec![p("/d/z.txt")]);
    assert!(skip.is_empty());
}

#[test]
fn triage_of_empty_directory_is_three_empty_buckets() {
    let entries: Vec<Vec<u8>> = Vec::new();
    let (auto, review, skip) = triage_folder(&entries);
    assert!(auto.is_empty());
    assert!(review.is_empty());
    assert!(skip.is_empty());
}
