//! The quarantine engine's decisions: where each file goes, which moves
//! make it into the manifest, what a restore must report, and how a fresh
//! manifest id is chosen against the ids already in the store.
//!
//! The engine itself never touches the filesystem. The caller performs the
//! planned moves and reports, entry by entry, whether each one succeeded;
//! every decision before and after the moves is made here, under contract.

use vstd::prelude::*;
use crate::manifest::Manifest;
use crate::pathutil::SLASH;
use crate::pathutil::DOT;
use crate::pathutil::after_last_slash;
use crate::pathutil::basename;
use crate::pathutil::bytes_eq;
use crate::pathutil::copy_bytes;
use crate::pathutil::is_plain_name;
use crate::pathutil::join;
use crate::pathutil::push_all;

verus! {

/// The two directories the engine owns: one for quarantined files, one for
/// manifest records. Resolved once at the boundary and passed in.
pub struct Config {
    pub quarantine_dir: Vec<u8>,
    pub manifests_dir: Vec<u8>,
}

/// The bytes of `quarantine`.
pub open spec fn quarantine_name() -> Seq<u8> {
    seq![113u8, 117u8, 97u8, 114u8, 97u8, 110u8, 116u8, 105u8, 110u8, 101u8]
}

/// The bytes of `manifests`.
pub open spec fn manifests_name() -> Seq<u8> {
    seq![109u8, 97u8, 110u8, 105u8, 102u8, 101u8, 115u8, 116u8, 115u8]
}

impl Config {
    /// The layout under one base directory: `<base>/quarantine` for parked
    /// files, `<base>/manifests` for records.
    pub fn new(base: &Vec<u8>) -> (c: Config)
        ensures
            c.quarantine_dir@ == base@ + seq![SLASH] + quarantine_name(),
            c.manifests_dir@ == base@ + seq![SLASH] + manifests_name(),
    {
        let q: Vec<u8> = vec![113u8, 117u8, 97u8, 114u8, 97u8, 110u8, 116u8, 105u8, 110u8, 101u8];
        assert(q@ =~= quarantine_name());
        let m: Vec<u8> = vec![109u8, 97u8, 110u8, 105u8, 102u8, 101u8, 115u8, 116u8, 115u8];
        assert(m@ =~= manifests_name());
        Config { quarantine_dir: join(base, &q), manifests_dir: join(base, &m) }
    }
}

/// The destination a quarantined file is parked at: the quarantine
/// directory, flat, under the file's own name.
pub open spec fn dest_of(qdir: Seq<u8>, p: Seq<u8>) -> Seq<u8> {
    qdir + seq![SLASH] + after_last_slash(p)
}

/// The planned moves for `ps`: every path with a plain file name is paired
/// with its destination, in input order; the rest are left alone.
pub open spec fn spec_plan(qdir: Seq<u8>, ps: Seq<Seq<u8>>) -> Seq<(Seq<u8>, Seq<u8>)>
    decreases ps.len(),
{
    if ps.len() == 0 {
        Seq::empty()
    } else {
        spec_plan(qdir, ps.drop_last()) + (if is_plain_name(after_last_slash(ps.last())) {
            seq![(ps.last(), dest_of(qdir, ps.last()))]
        } else {
            Seq::empty()
        })
    }
}

/// The pairs of `plan` whose move succeeded, in plan order.
pub open spec fn spec_kept(plan: Seq<(Seq<u8>, Seq<u8>)>, moved: Seq<bool>) -> Seq<
    (Seq<u8>, Seq<u8>),
>
    decreases plan.len(),
{
    if plan.len() == 0 || moved.len() != plan.len() {
        Seq::empty()
    } else {
        spec_kept(plan.drop_last(), moved.drop_last()) + (if moved.last() {
            seq![plan.last()]
        } else {
            Seq::empty()
        })
    }
}

/// The pairs of `plan` whose move failed, in plan order.
pub open spec fn spec_dropped(plan: Seq<(Seq<u8>, Seq<u8>)>, moved: Seq<bool>) -> Seq<
    (Seq<u8>, Seq<u8>),
>
    decreases plan.len(),
{
    if plan.len() == 0 || moved.len() != plan.len() {
        Seq::empty()
    } else {
        spec_dropped(plan.drop_last(), moved.drop_last()) + (if !moved.last() {
            seq![plan.last()]
        } else {
            Seq::empty()
        })
    }
}

/// The quarantine engine over one configuration.
pub struct Ops {
    pub quarantine_dir: Vec<u8>,
    pub manifests_dir: Vec<u8>,
}

impl Ops {
    /// An engine that parks files and records manifests under the two
    /// configured directories.
    pub fn new(config: Config) -> (s: Self)
        ensures
            s.quarantine_dir@ == config.quarantine_dir@,
            s.manifests_dir@ == config.manifests_dir@,
    {
        Ops { quarantine_dir: config.quarantine_dir, manifests_dir: config.manifests_dir }
    }

    /// Plan the moves for `paths`: each path that has a plain file name is
    /// paired with its flat destination in the quarantine directory, in
    /// input order. Paths without a usable name are skipped.
    pub fn quarantine_plan(&self, paths: &Vec<Vec<u8>>) -> (plan: Vec<(Vec<u8>, Vec<u8>)>)
        ensures
            plan.deep_view() == spec_plan(self.quarantine_dir@, paths.deep_view()),
    {
        let ghost ps = paths.deep_view();
        let mut plan: Vec<(Vec<u8>, Vec<u8>)> = Vec::new();
        let mut i: usize = 0;
        while i < paths.len()
            invariant
                ps == paths.deep_view(),
                i <= ps.len(),
                plan.deep_view() == spec_plan(self.quarantine_dir@, ps.take(i as int)),
            decreases ps.len() - i,
        {
            let ghost plan0 = plan.deep_view();
            assert(ps[i as int] =~= paths@[i as int]@);
            match basename(&paths[i]) {
                Some(name) => {
                    let dest = join(&self.quarantine_dir, &name);
                    assert(dest@ == dest_of(self.quarantine_dir@, ps[i as int]));
                    plan.push((copy_bytes(&paths[i]), dest));
                    assert(plan.deep_view() =~~= plan0.push(
                        (ps[i as int], dest_of(self.quarantine_dir@, ps[i as int])),
                    ));
                },
                None => {},
            }
            i += 1;
            proof {
                assert(ps.take(i as int).drop_last() =~= ps.take(i - 1));
                assert(ps.take(i as int).last() == ps[i - 1]);
                assert(plan.deep_view() =~~= spec_plan(self.quarantine_dir@, ps.take(i as int)));
            }
        }
        assert(ps.take(ps.len() as int) =~= ps);
        plan
    }

    /// Build the manifest of one quarantine run from the planned moves and
    /// their outcomes: exactly the pairs whose move succeeded are recorded,
    /// in plan order, under the given id. A run where every move failed
    /// still yields a manifest, with no entries.
    pub fn quarantine(&self, plan: &Vec<(Vec<u8>, Vec<u8>)>, moved: &Vec<bool>, id: Vec<u8>) -> (m:
        Manifest)
        requires
            moved@.len() == plan@.len(),
        ensures
            m.id@ == id@,
            m.entries.deep_view() == spec_kept(plan.deep_view(), moved@),
    {
        let ghost pv = plan.deep_view();
        let mut entries: Vec<(Vec<u8>, Vec<u8>)> = Vec::new();
        let mut i: usize = 0;
        while i < plan.len()
            invariant
                pv == plan.deep_view(),
                moved@.len() == pv.len(),
                i <= pv.len(),
                entries.deep_view() == spec_kept(pv.take(i as int), moved@.take(i as int)),
            decreases pv.len() - i,
        {
            let ghost e0 = entries.deep_view();
            if moved[i] {
                let pair = (copy_bytes(&plan[i].0), copy_bytes(&plan[i].1));
                entries.push(pair);
                assert(entries.deep_view() =~~= e0.push(pv[i as int]));
            }
            i += 1;
            proof {
                assert(pv.take(i as int).drop_last() =~= pv.take(i - 1));
                assert(moved@.take(i as int).drop_last() =~= moved@.take(i - 1));
                assert(entries.deep_view() =~~= spec_kept(
                    pv.take(i as int),
                    moved@.take(i as int),
                ));
            }
        }
        proof {
            assert(pv.take(pv.len() as int) =~= pv);
            assert(moved@.take(moved@.len() as int) =~= moved@);
        }
        Manifest { id, entries }
    }
}

/// What one restore attempt did: which entries moved back, which did not,
/// and whether the record may now be deleted.
pub struct RestoreReport {
    pub succeeded: Vec<(Vec<u8>, Vec<u8>)>,
    pub failed: Vec<(Vec<u8>, Vec<u8>)>,
    pub delete_record: bool,
}

/// Judge one restore attempt. `results` reports, entry by entry in
/// manifest order, whether the move back succeeded. Every entry lands in
/// exactly one of the two lists, and the record may be deleted only when
/// every single entry came back: a partial restore keeps the manifest as
/// the record of what is still quarantined.
pub fn restore_manifest(m: &Manifest, results: &Vec<bool>) -> (r: RestoreReport)
    requires
        results@.len() == m.entries@.len(),
    ensures
        r.succeeded.deep_view() == spec_kept(m.entries.deep_view(), results@),
        r.failed.deep_view() == spec_dropped(m.entries.deep_view(), results@),
        r.delete_record <==> (forall|i: int| 0 <= i < results@.len() ==> results@[i]),
        !r.delete_record ==> r.failed@.len() > 0,
        r.succeeded@.len() + r.failed@.len() == m.entries@.len(),
{
    let ghost ev = m.entries.deep_view();
    let mut succeeded: Vec<(Vec<u8>, Vec<u8>)> = Vec::new();
    let mut failed: Vec<(Vec<u8>, Vec<u8>)> = Vec::new();
    let mut i: usize = 0;
    while i < m.entries.len()
        invariant
            ev == m.entries.deep_view(),
            results@.len() == ev.len(),
            i <= ev.len(),
            succeeded.deep_view() == spec_kept(ev.take(i as int), results@.take(i as int)),
            failed.deep_view() == spec_dropped(ev.take(i as int), results@.take(i as int)),
            succeeded@.len() + failed@.len() == i,
            failed@.len() == 0 <==> (forall|k: int| 0 <= k < i ==> results@[k]),
        decreases ev.len() - i,
    {
        let ghost s0 = succeeded.deep_view();
        let ghost f0 = failed.deep_view();
        let pair = (copy_bytes(&m.entries[i].0), copy_bytes(&m.entries[i].1));
        if results[i] {
            succeeded.push(pair);
            assert(succeeded.deep_view() =~~= s0.push(ev[i as int]));
        } else {
            failed.push(pair);
            assert(failed.deep_view() =~~= f0.push(ev[i as int]));
        }
        i += 1;
        proof {
            assert(ev.take(i as int).drop_last() =~= ev.take(i - 1));
            assert(results@.take(i as int).drop_last() =~= results@.take(i - 1));
            assert(succeeded.deep_view() =~~= spec_kept(
                ev.take(i as int),
                results@.take(i as int),
            ));
            assert(failed.deep_view() =~~= spec_dropped(
                ev.take(i as int),
                results@.take(i as int),
            ));
        }
    }
    proof {
        assert(ev.take(ev.len() as int) =~= ev);
        assert(results@.take(results@.len() as int) =~= results@);
    }
    let delete_record = failed.len() == 0;
    RestoreReport { succeeded, failed, delete_record }
}

/// A restore where every entry comes back undoes the whole quarantine
/// run: it succeeds on exactly the recorded entries, in order, fails on
/// none, and so releases the record.
pub proof fn lemma_full_restore(entries: Seq<(Seq<u8>, Seq<u8>)>, results: Seq<bool>)
    requires
        results.len() == entries.len(),
        forall|i: int| 0 <= i < results.len() ==> results[i],
    ensures
        spec_kept(entries, results) == entries,
        spec_dropped(entries, results) == Seq::<(Seq<u8>, Seq<u8>)>::empty(),
    decreases entries.len(),
{
    if entries.len() == 0 {
        assert(spec_kept(entries, results) =~~= entries);
        assert(spec_dropped(entries, results) =~~= Seq::<(Seq<u8>, Seq<u8>)>::empty());
    } else {
        lemma_full_restore(entries.drop_last(), results.drop_last());
        assert(results.last());
        assert(spec_kept(entries, results) =~~= entries);
        assert(spec_dropped(entries, results) =~~= Seq::<(Seq<u8>, Seq<u8>)>::empty());
    }
}

/// The bytes of `.json`.
pub open spec fn dot_json() -> Seq<u8> {
    seq![DOT, 106u8, 115u8, 111u8, 110u8]
}

/// Where a manifest record lives: `<manifests_dir>/<id>.json`.
pub open spec fn spec_manifest_path(mdir: Seq<u8>, id: Seq<u8>) -> Seq<u8> {
    mdir + seq![SLASH] + id + dot_json()
}

impl Ops {
    /// The record file for the manifest with the given id.
    pub fn manifest_path(&self, id: &Vec<u8>) -> (p: Vec<u8>)
        ensures
            p@ == spec_manifest_path(self.manifests_dir@, id@),
    {
        let mut p = join(&self.manifests_dir, id);
        let ext: Vec<u8> = vec![DOT, 106u8, 115u8, 111u8, 110u8];
        assert(ext@ =~= dot_json());
        push_all(&mut p, ext.as_slice());
        assert(p@ =~= spec_manifest_path(self.manifests_dir@, id@));
        p
    }
}

/// Is `id` one of the ids in `existing`?
fn contains_id(existing: &Vec<Vec<u8>>, id: &Vec<u8>) -> (r: bool)
    ensures
        r == existing.deep_view().contains(id@),
{
    let mut i: usize = 0;
    while i < existing.len()
        invariant
            i <= existing@.len(),
            forall|k: int| 0 <= k < i ==> existing.deep_view()[k] != id@,
        decreases existing@.len() - i,
    {
        assert(existing.deep_view()[i as int] =~= existing@[i as int]@);
        if bytes_eq(existing[i].as_slice(), id.as_slice()) {
            assert(existing.deep_view()[i as int] == id@);
            return true;
        }
        i += 1;
    }
    false
}

/// Pick an id that no pending manifest already uses. The candidate id is
/// kept as it is when it is free; otherwise a disambiguating suffix is
/// grown until the id collides with nothing in the store. Persisting under
/// a colliding id would silently overwrite an unrelated pending operation.
pub fn fresh_id(base: &Vec<u8>, existing: &Vec<Vec<u8>>) -> (id: Vec<u8>)
    ensures
        !existing.deep_view().contains(id@),
        !existing.deep_view().contains(base@) ==> id@ == base@,
{
    if !contains_id(existing, base) {
        return copy_bytes(base);
    }
    let mut longest: usize = 0;
    let mut k: usize = 0;
    while k < existing.len()
        invariant
            k <= existing@.len(),
            forall|t: int| 0 <= t < k ==> existing.deep_view()[t].len() <= longest,
        decreases existing@.len() - k,
    {
        if existing[k].len() > longest {
            longest = existing[k].len();
        }
        k += 1;
    }
    let mut cand = copy_bytes(base);
    proof {
        let w = choose|t: int|
            0 <= t < existing.deep_view().len() && existing.deep_view()[t] == base@;
        assert(existing.deep_view()[w].len() <= longest);
    }
    loop
        invariant
            existing.deep_view().contains(base@),
            forall|t: int|
                0 <= t < existing@.len() ==> #[trigger] existing.deep_view()[t].len() <= longest,
            cand@.len() <= longest + 1,
        decreases longest + 1 - cand@.len(),
    {
        if !contains_id(existing, &cand) {
            return cand;
        }
        assert(cand@.len() <= longest) by {
            let w = choose|t: int|
                0 <= t < existing.deep_view().len() && existing.deep_view()[t] == cand@;
            assert(existing.deep_view()[w].len() <= longest);
        }
        cand.push(45u8);
    }
}

} // verus!