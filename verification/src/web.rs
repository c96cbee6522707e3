//! The shapes the HTTP and CLI front ends exchange with callers, and the
//! verified builders that fill them from the engine's results. The front
//! ends only convert these to and from their wire encodings.

use vstd::prelude::*;
use crate::classify::Classification;
use crate::classify::first_auto_pattern;
use crate::classify::reason;
use crate::classify::reason_prefix;
use crate::classify::spec_matches_auto_safe;
use crate::manifest::Manifest;
use crate::pathutil::copy_bytes;
use crate::pathutil::push_all;

verus! {

/// One listed path, with the matched pattern when the path was classified
/// auto-safe.
pub struct FileItem {
    pub path: Vec<u8>,
    pub reason: Option<Vec<u8>>,
}

/// The three buckets of one triage run, ready for display.
pub struct TriageResult {
    pub auto_safe: Vec<FileItem>,
    pub needs_review: Vec<FileItem>,
    pub do_not_touch: Vec<FileItem>,
}

/// A request to quarantine the auto-safe bucket of one directory.
pub struct CleanRequest {
    pub path: Vec<u8>,
}

/// The outcome of a clean or restore request.
pub struct CleanResponse {
    pub success: bool,
    pub message: Vec<u8>,
    pub manifest_id: Option<Vec<u8>>,
}

/// Every pending manifest id.
pub struct ListResponse {
    pub manifests: Vec<Vec<u8>>,
}

/// `it` presents path `p`: with the matched pattern when asked for and
/// present, with no reason otherwise.
pub open spec fn item_ok(it: FileItem, p: Seq<u8>, with_reason: bool) -> bool {
    &&& it.path@ == p
    &&& if with_reason && spec_matches_auto_safe(p) {
        it.reason matches Some(m) && m@ == reason_prefix() + first_auto_pattern(p)
    } else {
        it.reason is None
    }
}

/// Wrap each path of one bucket as a display item; reasons are attached
/// only for the auto-safe bucket.
fn bucket_items(paths: &Vec<Vec<u8>>, auto_safe: bool) -> (r: Vec<FileItem>)
    ensures
        r@.len() == paths@.len(),
        forall|i: int| 0 <= i < paths@.len() ==> item_ok(r@[i], paths.deep_view()[i], auto_safe),
{
    let mut r: Vec<FileItem> = Vec::new();
    let mut i: usize = 0;
    while i < paths.len()
        invariant
            i <= paths@.len(),
            r@.len() == i,
            forall|k: int| 0 <= k < i ==> item_ok(r@[k], paths.deep_view()[k], auto_safe),
        decreases paths@.len() - i,
    {
        assert(paths.deep_view()[i as int] =~= paths@[i as int]@);
        let why: Option<Vec<u8>> = if auto_safe {
            reason(&paths[i], Classification::AutoSafe)
        } else {
            None
        };
        r.push(FileItem { path: copy_bytes(&paths[i]), reason: why });
        i += 1;
    }
    r
}

/// Assemble the three buckets of one triage run for display: listing
/// order is kept, and each auto-safe item carries its matched pattern.
pub fn triage_result(auto: &Vec<Vec<u8>>, review: &Vec<Vec<u8>>, skip: &Vec<Vec<u8>>) -> (r:
    TriageResult)
    ensures
        r.auto_safe@.len() == auto@.len(),
        forall|i: int| 0 <= i < auto@.len() ==> item_ok(r.auto_safe@[i], auto.deep_view()[i], true),
        r.needs_review@.len() == review@.len(),
        forall|i: int|
            0 <= i < review@.len() ==> item_ok(r.needs_review@[i], review.deep_view()[i], false),
        r.do_not_touch@.len() == skip@.len(),
        forall|i: int|
            0 <= i < skip@.len() ==> item_ok(r.do_not_touch@[i], skip.deep_view()[i], false),
{
    TriageResult {
        auto_safe: bucket_items(auto, true),
        needs_review: bucket_items(review, false),
        do_not_touch: bucket_items(skip, false),
    }
}

/// The decimal digits of `n`, most significant first.
pub open spec fn dec_digits(n: int) -> Seq<u8>
    decreases n,
{
    if n < 0 {
        Seq::empty()
    } else if n < 10 {
        seq![(48 + n) as u8]
    } else {
        dec_digits(n / 10) + seq![(48 + n % 10) as u8]
    }
}

/// Append the decimal rendering of `n`.
fn push_dec(out: &mut Vec<u8>, n: u64)
    ensures
        final(out)@ == old(out)@ + dec_digits(n as int),
    decreases n,
{
    if n < 10 {
        out.push(48 + n as u8);
        assert(out@ =~= old(out)@ + dec_digits(n as int));
    } else {
        let q = n / 10;
        let r = n % 10;
        push_dec(out, q);
        out.push(48 + r as u8);
        assert(out@ =~= old(out)@ + dec_digits(n as int));
    }
}

/// The bytes of `Quarantined `.
pub open spec fn lit_quarantined() -> Seq<u8> {
    seq![81u8, 117u8, 97u8, 114u8, 97u8, 110u8, 116u8, 105u8, 110u8, 101u8, 100u8, 32u8]
}

/// The bytes of ` items`.
pub open spec fn lit_items() -> Seq<u8> {
    seq![32u8, 105u8, 116u8, 101u8, 109u8, 115u8]
}

/// The bytes of `Restored manifest: `.
pub open spec fn lit_restored() -> Seq<u8> {
    seq![
        82u8,
        101u8,
        115u8,
        116u8,
        111u8,
        114u8,
        101u8,
        100u8,
        32u8,
        109u8,
        97u8,
        110u8,
        105u8,
        102u8,
        101u8,
        115u8,
        116u8,
        58u8,
        32u8,
    ]
}

/// `Quarantined <n> items`.
pub open spec fn msg_quarantined(n: int) -> Seq<u8> {
    lit_quarantined() + dec_digits(n) + lit_items()
}

/// `Restored manifest: <id>`.
pub open spec fn msg_restored(id: Seq<u8>) -> Seq<u8> {
    lit_restored() + id
}

/// The successful answer to a clean request: how many files were parked,
/// and under which manifest id.
pub fn clean_response(m: &Manifest) -> (r: CleanResponse)
    ensures
        r.success,
        r.message@ == msg_quarantined(m.entries@.len() as int),
        r.manifest_id matches Some(i) && i@ == m.id@,
{
    let mut message: Vec<u8> = vec![
        81u8,
        117u8,
        97u8,
        114u8,
        97u8,
        110u8,
        116u8,
        105u8,
        110u8,
        101u8,
        100u8,
        32u8,
    ];
    assert(message@ =~= lit_quarantined());
    push_dec(&mut message, m.entries.len() as u64);
    let items: Vec<u8> = vec![32u8, 105u8, 116u8, 101u8, 109u8, 115u8];
    assert(items@ =~= lit_items());
    push_all(&mut message, items.as_slice());
    CleanResponse { success: true, message, manifest_id: Some(copy_bytes(&m.id)) }
}

/// The successful answer to a restore request.
pub fn restore_response(id: &Vec<u8>) -> (r: CleanResponse)
    ensures
        r.success,
        r.message@ == msg_restored(id@),
        r.manifest_id matches Some(i) && i@ == id@,
{
    let mut message: Vec<u8> = vec![
        82u8,
        101u8,
        115u8,
        116u8,
        111u8,
        114u8,
        101u8,
        100u8,
        32u8,
        109u8,
        97u8,
        110u8,
        105u8,
        102u8,
        101u8,
        115u8,
        116u8,
        58u8,
        32u8,
    ];
    assert(message@ =~= lit_restored());
    push_all(&mut message, id.as_slice());
    CleanResponse { success: true, message, manifest_id: Some(copy_bytes(id)) }
}

/// Every pending manifest id, as one response.
pub fn list_response(ids: Vec<Vec<u8>>) -> (r: ListResponse)
    ensures
        r.manifests@ == ids@,
{
    ListResponse { manifests: ids }
}

} // verus!
