//! Reclamation: triage files in a directory into auto-safe / needs-review /
//! do-not-touch buckets, plan a quarantine move for the auto-safe bucket,
//! record the moves in a durable manifest, and undo a recorded quarantine.
//!
//! All path values are byte strings (`Vec<u8>`), exactly as the operating
//! system hands them out; callers that hold `PathBuf`s convert at the
//! boundary. The library itself performs no I/O: callers list directories,
//! rename files and read or write manifest records, and every decision in
//! between is made here, under contract.

use vstd::prelude::*;

pub mod classify;
pub mod manifest;
pub mod pathutil;
pub mod quarantine;
pub mod web;

use crate::classify::Classification;
use crate::classify::classify;
use crate::classify::spec_classify;
use crate::pathutil::copy_bytes;
use crate::pathutil::stem;
use crate::pathutil::stem_of;
use crate::quarantine::Ops;
use crate::quarantine::spec_plan;

verus! {

/// The paths of `es` that classify into bucket `c`, in listing order.
pub open spec fn spec_bucket(es: Seq<Seq<u8>>, c: Classification) -> Seq<Seq<u8>> {
    es.filter(|e: Seq<u8>| spec_classify(e) == c)
}

/// Partition the immediate entries of a directory into the three buckets
/// (auto-safe, needs-review, do-not-touch), preserving listing order.
pub fn triage_folder(entries: &Vec<Vec<u8>>) -> (r: (Vec<Vec<u8>>, Vec<Vec<u8>>, Vec<Vec<u8>>))
    ensures
        r.0.deep_view() == spec_bucket(entries.deep_view(), Classification::AutoSafe),
        r.1.deep_view() == spec_bucket(entries.deep_view(), Classification::NeedsReview),
        r.2.deep_view() == spec_bucket(entries.deep_view(), Classification::DoNotTouch),
{
    let ghost es = entries.deep_view();
    let mut auto: Vec<Vec<u8>> = Vec::new();
    let mut review: Vec<Vec<u8>> = Vec::new();
    let mut skip: Vec<Vec<u8>> = Vec::new();
    let mut i: usize = 0;
    while i < entries.len()
        invariant
            es == entries.deep_view(),
            i <= es.len(),
            auto.deep_view() == spec_bucket(es.take(i as int), Classification::AutoSafe),
            review.deep_view() == spec_bucket(es.take(i as int), Classification::NeedsReview),
            skip.deep_view() == spec_bucket(es.take(i as int), Classification::DoNotTouch),
        decreases es.len() - i,
    {
        let ghost auto0 = auto.deep_view();
        let ghost review0 = review.deep_view();
        let ghost skip0 = skip.deep_view();
        let item = copy_bytes(&entries[i]);
        assert(item@ == es[i as int]);
        match classify(&item) {
            Classification::AutoSafe => {
                auto.push(item);
                assert(auto.deep_view() =~= auto0.push(es[i as int]));
            },
            Classification::NeedsReview => {
                review.push(item);
                assert(review.deep_view() =~= review0.push(es[i as int]));
            },
            Classification::DoNotTouch => {
                skip.push(item);
                assert(skip.deep_view() =~= skip0.push(es[i as int]));
            },
        }
        i += 1;
        proof {
            reveal(Seq::filter);
            assert(es.take(i as int).drop_last() =~= es.take(i - 1));
            assert(es.take(i as int).last() == es[i - 1]);
        }
    }
    assert(es.take(es.len() as int) =~= es);
    (auto, review, skip)
}

/// Triage the directory entries and plan the quarantine moves for the
/// auto-safe bucket: exactly the entries that classify as auto-safe, in
/// listing order, each paired with its destination in the quarantine
/// directory. The caller performs the moves and hands the outcomes to
/// `Ops::quarantine` to obtain the manifest.
pub fn clean_folder(ops: &Ops, entries: &Vec<Vec<u8>>) -> (plan: Vec<(Vec<u8>, Vec<u8>)>)
    ensures
        plan.deep_view() == spec_plan(
            ops.quarantine_dir@,
            spec_bucket(entries.deep_view(), Classification::AutoSafe),
        ),
{
    let buckets = triage_folder(entries);
    ops.quarantine_plan(&buckets.0)
}

/// The manifest ids behind a listing of the manifest directory: each
/// record file name with its `.json` extension cut off, in listing order.
/// The listing itself is the caller's; with the same listing this returns
/// the same ids in the same order.
pub fn list_manifests(names: &Vec<Vec<u8>>) -> (ids: Vec<Vec<u8>>)
    ensures
        ids@.len() == names@.len(),
        forall|i: int| 0 <= i < names@.len() ==> ids.deep_view()[i] == stem_of(
            names.deep_view()[i],
        ),
{
    let mut ids: Vec<Vec<u8>> = Vec::new();
    let mut i: usize = 0;
    while i < names.len()
        invariant
            i <= names@.len(),
            ids@.len() == i,
            forall|k: int| 0 <= k < i ==> ids.deep_view()[k] == stem_of(names.deep_view()[k]),
        decreases names@.len() - i,
    {
        let s = stem(&names[i]);
        assert(names.deep_view()[i as int] =~= names@[i as int]@);
        let ghost dv0 = ids.deep_view();
        let ghost sv = s@;
        ids.push(s);
        proof {
            assert(ids.deep_view() =~~= dv0.push(sv));
        }
        i += 1;
    }
    ids
}

} // verus!

