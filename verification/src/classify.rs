//! Path classification: ordered substring rules sort a path into one of
//! three buckets. Do-not-touch patterns are checked first and win over
//! auto-safe patterns; a path matching neither list needs human review.

use vstd::prelude::*;
use crate::pathutil::contains_seq;
use crate::pathutil::contains_subseq;
use crate::pathutil::push_all;

verus! {

/// The three triage buckets for a path.
#[derive(Clone, Copy, Debug, PartialEq, Eq, Structural)]
pub enum Classification {
    AutoSafe,
    NeedsReview,
    DoNotTouch,
}

/// The bytes of `.tmp`.
pub open spec fn pat_tmp() -> Seq<u8> {
    seq![46u8, 116u8, 109u8, 112u8]
}

/// The bytes of `.temp`.
pub open spec fn pat_temp() -> Seq<u8> {
    seq![46u8, 116u8, 101u8, 109u8, 112u8]
}

/// The bytes of `.log`.
pub open spec fn pat_log() -> Seq<u8> {
    seq![46u8, 108u8, 111u8, 103u8]
}

/// The bytes of `.DS_Store`.
pub open spec fn pat_ds_store() -> Seq<u8> {
    seq![46u8, 68u8, 83u8, 95u8, 83u8, 116u8, 111u8, 114u8, 101u8]
}

/// The bytes of `.app`.
pub open spec fn pat_app() -> Seq<u8> {
    seq![46u8, 97u8, 112u8, 112u8]
}

/// The bytes of `/System/`.
pub open spec fn pat_system() -> Seq<u8> {
    seq![47u8, 83u8, 121u8, 115u8, 116u8, 101u8, 109u8, 47u8]
}

/// The bytes of `/Library/Frameworks/`.
pub open spec fn pat_frameworks() -> Seq<u8> {
    seq![
        47u8,
        76u8,
        105u8,
        98u8,
        114u8,
        97u8,
        114u8,
        121u8,
        47u8,
        70u8,
        114u8,
        97u8,
        109u8,
        101u8,
        119u8,
        111u8,
        114u8,
        107u8,
        115u8,
        47u8,
    ]
}

/// The bytes of `.tmp`.
fn bytes_tmp() -> (r: Vec<u8>)
    ensures
        r@ == pat_tmp(),
{
    let r: Vec<u8> = vec![46u8, 116u8, 109u8, 112u8];
    assert(r@ =~= pat_tmp());
    r
}

/// The bytes of `.temp`.
fn bytes_temp() -> (r: Vec<u8>)
    ensures
        r@ == pat_temp(),
{
    let r: Vec<u8> = vec![46u8, 116u8, 101u8, 109u8, 112u8];
    assert(r@ =~= pat_temp());
    r
}

/// The bytes of `.log`.
fn bytes_log() -> (r: Vec<u8>)
    ensures
        r@ == pat_log(),
{
    let r: Vec<u8> = vec![46u8, 108u8, 111u8, 103u8];
    assert(r@ =~= pat_log());
    r
}

/// The bytes of `.DS_Store`.
fn bytes_ds_store() -> (r: Vec<u8>)
    ensures
        r@ == pat_ds_store(),
{
    let r: Vec<u8> = vec![46u8, 68u8, 83u8, 95u8, 83u8, 116u8, 111u8, 114u8, 101u8];
    assert(r@ =~= pat_ds_store());
    r
}

/// The bytes of `.app`.
fn bytes_app() -> (r: Vec<u8>)
    ensures
        r@ == pat_app(),
{
    let r: Vec<u8> = vec![46u8, 97u8, 112u8, 112u8];
    assert(r@ =~= pat_app());
    r
}

/// The bytes of `/System/`.
fn bytes_system() -> (r: Vec<u8>)
    ensures
        r@ == pat_system(),
{
    let r: Vec<u8> = vec![47u8, 83u8, 121u8, 115u8, 116u8, 101u8, 109u8, 47u8];
    assert(r@ =~= pat_system());
    r
}

/// The bytes of `/Library/Frameworks/`.
fn bytes_frameworks() -> (r: Vec<u8>)
    ensures
        r@ == pat_frameworks(),
{
    let r: Vec<u8> = vec![
        47u8,
        76u8,
        105u8,
        98u8,
        114u8,
        97u8,
        114u8,
        121u8,
        47u8,
        70u8,
        114u8,
        97u8,
        109u8,
        101u8,
        119u8,
        111u8,
        114u8,
        107u8,
        115u8,
        47u8,
    ];
    assert(r@ =~= pat_frameworks());
    r
}

/// The path matches some do-not-touch pattern.
pub open spec fn spec_matches_do_not_touch(p: Seq<u8>) -> bool {
    contains_seq(p, pat_app()) || contains_seq(p, pat_system()) || contains_seq(
        p,
        pat_frameworks(),
    )
}

/// The path matches some auto-safe pattern.
pub open spec fn spec_matches_auto_safe(p: Seq<u8>) -> bool {
    contains_seq(p, pat_tmp()) || contains_seq(p, pat_temp()) || contains_seq(p, pat_log())
        || contains_seq(p, pat_ds_store())
}

/// The bucket a path belongs to: do-not-touch patterns take precedence
/// over auto-safe patterns; everything else needs review.
pub open spec fn spec_classify(p: Seq<u8>) -> Classification {
    if spec_matches_do_not_touch(p) {
        Classification::DoNotTouch
    } else if spec_matches_auto_safe(p) {
        Classification::AutoSafe
    } else {
        Classification::NeedsReview
    }
}

/// Sort one path into its bucket.
pub fn classify(path: &Vec<u8>) -> (c: Classification)
    ensures
        c == spec_classify(path@),
{
    if contains_subseq(path.as_slice(), bytes_app().as_slice()) || contains_subseq(
        path.as_slice(),
        bytes_system().as_slice(),
    ) || contains_subseq(path.as_slice(), bytes_frameworks().as_slice()) {
        Classification::DoNotTouch
    } else if contains_subseq(path.as_slice(), bytes_tmp().as_slice()) || contains_subseq(
        path.as_slice(),
        bytes_temp().as_slice(),
    ) || contains_subseq(path.as_slice(), bytes_log().as_slice()) || contains_subseq(
        path.as_slice(),
        bytes_ds_store().as_slice(),
    ) {
        Classification::AutoSafe
    } else {
        Classification::NeedsReview
    }
}

/// A path matching a do-not-touch pattern classifies as do-not-touch,
/// even when it also matches an auto-safe pattern.
pub proof fn lemma_do_not_touch_precedence(p: Seq<u8>)
    requires
        spec_matches_do_not_touch(p),
        spec_matches_auto_safe(p),
    ensures
        spec_classify(p) == Classification::DoNotTouch,
{
}

/// The bytes of `Contains: `, the prefix of every auto-safe reason.
pub open spec fn reason_prefix() -> Seq<u8> {
    seq![67u8, 111u8, 110u8, 116u8, 97u8, 105u8, 110u8, 115u8, 58u8, 32u8]
}

/// The first auto-safe pattern, in rule order, that the path matches.
pub open spec fn first_auto_pattern(p: Seq<u8>) -> Seq<u8> {
    if contains_seq(p, pat_tmp()) {
        pat_tmp()
    } else if contains_seq(p, pat_temp()) {
        pat_temp()
    } else if contains_seq(p, pat_log()) {
        pat_log()
    } else {
        pat_ds_store()
    }
}

/// The matched pattern behind an auto-safe classification, rendered as
/// `Contains: <pattern>`; `None` for every other classification, and for a
/// path that matches no auto-safe pattern.
pub fn reason(path: &Vec<u8>, class: Classification) -> (r: Option<Vec<u8>>)
    ensures
        (class == Classification::AutoSafe && spec_matches_auto_safe(path@)) <==> r is Some,
        r matches Some(m) ==> m@ == reason_prefix() + first_auto_pattern(path@),
{
    match class {
        Classification::AutoSafe => {
            let pat: Vec<u8> = if contains_subseq(path.as_slice(), bytes_tmp().as_slice()) {
                bytes_tmp()
            } else if contains_subseq(path.as_slice(), bytes_temp().as_slice()) {
                bytes_temp()
            } else if contains_subseq(path.as_slice(), bytes_log().as_slice()) {
                bytes_log()
            } else if contains_subseq(path.as_slice(), bytes_ds_store().as_slice()) {
                bytes_ds_store()
            } else {
                return None;
            };
            let mut m: Vec<u8> = vec![67u8, 111u8, 110u8, 116u8, 97u8, 105u8, 110u8, 115u8, 58u8, 32u8];
            assert(m@ =~= reason_prefix());
            push_all(&mut m, pat.as_slice());
            Some(m)
        },
        _ => None,
    }
}

} // verus!
