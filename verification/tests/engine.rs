use reclamation::clean_folder;
use reclamation::list_manifests;
use reclamation::manifest::Manifest;
use reclamation::quarantine::Config;
use reclamation::quarantine::Ops;
use reclamation::quarantine::fresh_id;
use reclamation::quarantine::restore_manifest;
use reclamation::web::clean_response;
use reclamation::web::restore_response;
use reclamation::web::triage_result;

fn p(s: &str) -> Vec<u8> {
    s.as_bytes().to_vec()
}

fn test_ops() -> Ops {
    Ops::new(Config::new(&p("/home/u/.reclamation")))
}

#[test]
fn config_lays_out_directories() {
    let c = Config::new(&p("/home/u/.reclamation"));
    assert_eq!(c.quarantine_dir, p("/home/u/.reclamation/quarantine"));
    assert_eq!(c.manifests_dir, p("/home/u/.reclamation/manifests"));
}

#[test]
fn plan_pairs_each_file_with_flat_destination() {
    let ops = test_ops();
    let plan = ops.quarantine_plan(&vec![p("/d/build.log"), p("/d/junk.tmp")]);
    assert_eq!(
        plan,
        vec![
            (p("/d/build.log"), p("/home/u/.reclamation/quarantine/build.log")),
            (p("/d/junk.tmp"), p("/home/u/.reclamation/quarantine/junk.tmp")),
        ]
    );
}

#[test]
fn plan_skips_paths_without_a_usable_name() {
    let ops = test_ops();
    let plan = ops.quarantine_plan(&vec![p("/d/"), p("/d/.."), p("/d/."), p("/d/a.log")]);
    assert_eq!(
        plan,
        vec![(p("/d/a.log"), p("/home/u/.reclamation/quarantine/a.log"))]
    );
}

#[test]
fn clean_folder_plans_only_the_auto_safe_bucket() {
    let ops = test_ops();
    let entries = vec![p("/d/build.log"), p("/d/notes.txt"), p("/d/MyApp.app")];
    let plan = clean_folder(&ops, &entries);
    assert_eq!(
        plan,
        vec![(p("/d/build.log"), p("/home/u/.reclamation/quarantine/build.log"))]
    );
}

#[test]
fn quarantine_records_successful_moves_only() {
    let ops = test_ops();
    let plan = vec![(p("/d/a.log"), p("/q/a.log")), (p("/d/b.log"), p("/q/b.log"))];
    let m = ops.quarantine(&plan, &vec![true, false], p("1759"));
    assert_eq!(m.id, p("1759"));
    assert_eq!(m.entries, vec![(p("/d/a.log"), p("/q/a.log"))]);
}

#[test]
fn quarantine_of_nothing_yields_an_empty_manifest() {
    let ops = test_ops();
    let m = ops.quarantine(&Vec::new(), &Vec::new(), p("1760"));
    assert_eq!(m.id, p("1760"));
    assert!(m.entries.is_empty());
}

#[test]
fn restore_of_every_entry_releases_the_record() {
    let m = Manifest {
        id: p("1"),
        entries: vec![(p("/d/a.log"), p("/q/a.log")), (p("/d/b.log"), p("/q/b.log"))],
    };
    let r = restore_manifest(&m, &vec![true, true]);
    assert!(r.delete_record);
    assert_eq!(r.succeeded, m.entries);
    assert!(r.failed.is_empty());
}

#[test]
fn partial_restore_keeps_the_record() {
    let m = Manifest {
        id: p("1"),
        entries: vec![
            (p("/d/a.log"), p("/q/a.log")),
            (p("/d/b.log"), p("/q/b.log")),
            (p("/d/c.log"), p("/q/c.log")),
        ],
    };
    let r = restore_manifest(&m, &vec![true, false, true]);
    assert!(!r.delete_record);
    assert_eq!(r.succeeded, vec![(p("/d/a.log"), p("/q/a.log")), (p("/d/c.log"), p("/q/c.log"))]);
    assert_eq!(r.failed, vec![(p("/d/b.log"), p("/q/b.log"))]);
}

#[test]
fn list_manifests_strips_the_record_extension() {
    let ids = list_manifests(&vec![p("1759.json"), p("1760.json")]);
    assert_eq!(ids, vec![p("1759"), p("1760")]);
}

#[test]
fn list_manifests_is_stable() {
    let names = vec![p("3.json"), p("1.json"), p("2.json")];
    assert_eq!(list_manifests(&names), list_manifests(&names));
    assert_eq!(list_manifests(&names), vec![p("3"), p("1"), p("2")]);
}

#[test]
fn manifest_path_appends_id_and_extension() {
    let ops = test_ops();
    assert_eq!(
        ops.manifest_path(&p("1759")),
        p("/home/u/.reclamation/manifests/1759.json")
    );
}

#[test]
fn fresh_id_keeps_a_free_id() {
    let id = fresh_id(&p("1759"), &vec![p("1000"), p("1500")]);
    assert_eq!(id, p("1759"));
}

#[test]
fn fresh_id_disambiguates_a_collision() {
    let existing = vec![p("1759"), p("1759-")];
    let id = fresh_id(&p("1759"), &existing);
    assert!(!existing.contains(&id));
    assert!(id.starts_with(b"1759"));
}

#[test]
fn clean_response_counts_entries() {
    let m = Manifest {
        id: p("1759"),
        entries: vec![(p("/d/a.log"), p("/q/a.log")), (p("/d/b.log"), p("/q/b.log"))],
    };
    let r = clean_response(&m);
    assert!(r.success);
    assert_eq!(r.message, p("Quarantined 2 items"));
    assert_eq!(r.manifest_id, Some(p("1759")));
}

#[test]
fn clean_response_renders_larger_counts() {
    let mut entries = Vec::new();
    for i in 0..12 {
        entries.push((p(&format!("/d/{i}.log")), p(&format!("/q/{i}.log"))));
    }
    let r = clean_response(&Manifest { id: p("1"), entries });
    assert_eq!(r.message, p("Quarantined 12 items"));
}

#[test]
fn restore_response_names_the_manifest() {
    let r = restore_response(&p("1759"));
    assert!(r.success);
    assert_eq!(r.message, p("Restored manifest: 1759"));
    assert_eq!(r.manifest_id, Some(p("1759")));
}

#[test]
fn triage_result_attaches_reasons_to_auto_safe_only() {
    let r = triage_result(
        &vec![p("/d/build.log")],
        &vec![p("/d/notes.txt")],
        &vec![p("/d/MyApp.app")],
    );
    assert_eq!(r.auto_safe.len(), 1);
    assert_eq!(r.auto_safe[0].path, p("/d/build.log"));
    assert_eq!(r.auto_safe[0].reason, Some(p("Contains: .log")));
    assert_eq!(r.needs_review[0].path, p("/d/notes.txt"));
    assert_eq!(r.needs_review[0].reason, None);
    assert_eq!(r.do_not_touch[0].path, p("/d/MyApp.app"));
    assert_eq!(r.do_not_touch[0].reason, None);
}
