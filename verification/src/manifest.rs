//! The manifest of one quarantine operation and its durable record format.
//!
//! A manifest records, in move order, which original path was parked at
//! which quarantined path. Its durable record is a single line of JSON,
//! `{"id":"...","entries":[["original","quarantined"],...]}`, with `"` and
//! `\` escaped inside every string. The encoder and the parser are both
//! verified against the same specification of that format: the parser
//! accepts exactly the encoder's output, returns the one manifest it
//! encodes, and reports every other input as a corrupt record.

use vstd::prelude::*;
use crate::pathutil::push_all;

verus! {

/// `"` — delimits and is escaped inside record strings.
pub const QUOTE: u8 = 34;

/// `\` — the escape byte.
pub const BACKSLASH: u8 = 92;

/// `[`
pub const LBRACKET: u8 = 91;

/// `]`
pub const RBRACKET: u8 = 93;

/// `{`
pub const LBRACE: u8 = 123;

/// `}`
pub const RBRACE: u8 = 125;

/// `,`
pub const COMMA: u8 = 44;

/// `:`
pub const COLON: u8 = 58;

/// The durable record of one quarantine operation: a unique id and the
/// ordered (original path, quarantined path) pairs that were moved.
#[derive(Debug)]
pub struct Manifest {
    pub id: Vec<u8>,
    pub entries: Vec<(Vec<u8>, Vec<u8>)>,
}

/// Why a stored record or a store operation was rejected.
#[derive(Clone, Copy, Debug, PartialEq, Eq, Structural)]
pub enum Error {
    /// A filesystem read, write or move failed.
    IoFailure,
    /// No record exists under the requested id.
    NotFound,
    /// A record exists but does not parse back into a manifest.
    CorruptRecord,
    /// A restore could not move every entry back.
    RestoreFailed,
}

/// How one byte is written inside a record string: `"` and `\` get a
/// leading backslash, every other byte stands for itself.
pub open spec fn esc_byte(b: u8) -> Seq<u8> {
    if b == QUOTE || b == BACKSLASH {
        seq![BACKSLASH, b]
    } else {
        seq![b]
    }
}

/// A byte string with its quotes and backslashes escaped.
pub open spec fn esc(s: Seq<u8>) -> Seq<u8>
    decreases s.len(),
{
    if s.len() == 0 {
        Seq::empty()
    } else {
        esc(s.drop_last()) + esc_byte(s.last())
    }
}

/// A byte string as a quoted, escaped record string.
pub open spec fn enc_str(s: Seq<u8>) -> Seq<u8> {
    seq![QUOTE] + esc(s) + seq![QUOTE]
}

/// One manifest entry as a two-element array of record strings.
pub open spec fn enc_entry(e: (Seq<u8>, Seq<u8>)) -> Seq<u8> {
    seq![LBRACKET] + enc_str(e.0) + seq![COMMA] + enc_str(e.1) + seq![RBRACKET]
}

/// The first `j` entries of `es`, comma-separated.
pub open spec fn enc_upto(es: Seq<(Seq<u8>, Seq<u8>)>, j: int) -> Seq<u8>
    decreases j,
{
    if j <= 0 {
        Seq::empty()
    } else if j == 1 {
        enc_entry(es[0])
    } else {
        enc_upto(es, j - 1) + seq![COMMA] + enc_entry(es[j - 1])
    }
}

/// The bytes of `{"id":`.
pub open spec fn lit_open() -> Seq<u8> {
    seq![LBRACE, QUOTE, 105u8, 100u8, QUOTE, COLON]
}

/// The bytes of `,"entries":[`.
pub open spec fn lit_entries() -> Seq<u8> {
    seq![COMMA, QUOTE, 101u8, 110u8, 116u8, 114u8, 105u8, 101u8, 115u8, QUOTE, COLON, LBRACKET]
}

/// The bytes of `]}`.
pub open spec fn lit_close() -> Seq<u8> {
    seq![RBRACKET, RBRACE]
}

/// The one durable record of a manifest with id `id` and entries `es`.
pub open spec fn spec_encode(id: Seq<u8>, es: Seq<(Seq<u8>, Seq<u8>)>) -> Seq<u8> {
    lit_open() + enc_str(id) + lit_entries() + enc_upto(es, es.len() as int) + lit_close()
}

/// Append `s` to `out` in escaped form.
fn push_escaped(out: &mut Vec<u8>, s: &Vec<u8>)
    ensures
        final(out)@ == old(out)@ + esc(s@),
{
    let mut i: usize = 0;
    while i < s.len()
        invariant
            i <= s@.len(),
            out@ == old(out)@ + esc(s@.take(i as int)),
        decreases s@.len() - i,
    {
        let b = s[i];
        if b == QUOTE || b == BACKSLASH {
            out.push(BACKSLASH);
            out.push(b);
        } else {
            out.push(b);
        }
        i += 1;
        proof {
            assert(s@.take(i as int).drop_last() =~= s@.take(i - 1));
            assert(s@.take(i as int).last() == s@[i - 1]);
            assert(out@ =~= old(out)@ + esc(s@.take(i as int)));
        }
    }
    assert(s@.take(s@.len() as int) =~= s@);
}

/// Append `s` to `out` as a quoted record string.
fn push_quoted(out: &mut Vec<u8>, s: &Vec<u8>)
    ensures
        final(out)@ == old(out)@ + enc_str(s@),
{
    out.push(QUOTE);
    push_escaped(out, s);
    out.push(QUOTE);
    assert(out@ =~= old(out)@ + enc_str(s@));
}

/// Serialize a manifest into its durable record.
pub fn encode_manifest(m: &Manifest) -> (r: Vec<u8>)
    ensures
        r@ == spec_encode(m.id@, m.entries.deep_view()),
{
    let ghost ev = m.entries.deep_view();
    let mut out: Vec<u8> = vec![LBRACE, QUOTE, 105u8, 100u8, QUOTE, COLON];
    assert(out@ =~= lit_open());
    push_quoted(&mut out, &m.id);
    let tail: Vec<u8> = vec![
        COMMA,
        QUOTE,
        101u8,
        110u8,
        116u8,
        114u8,
        105u8,
        101u8,
        115u8,
        QUOTE,
        COLON,
        LBRACKET,
    ];
    assert(tail@ =~= lit_entries());
    push_all(&mut out, tail.as_slice());
    let ghost list_start = out@;
    let mut j: usize = 0;
    while j < m.entries.len()
        invariant
            ev == m.entries.deep_view(),
            j <= ev.len(),
            list_start == lit_open() + enc_str(m.id@) + lit_entries(),
            out@ == list_start + enc_upto(ev, j as int),
        decreases ev.len() - j,
    {
        if j > 0 {
            out.push(COMMA);
        }
        out.push(LBRACKET);
        push_quoted(&mut out, &m.entries[j].0);
        out.push(COMMA);
        push_quoted(&mut out, &m.entries[j].1);
        out.push(RBRACKET);
        proof {
            assert(ev[j as int] == (m.entries@[j as int].0@, m.entries@[j as int].1@));
            assert(out@ =~= list_start + enc_upto(ev, j + 1));
        }
        j += 1;
    }
    out.push(RBRACKET);
    out.push(RBRACE);
    assert(out@ =~= spec_encode(m.id@, ev));
    out
}

/// An escaped string decomposes around the unit that escapes byte `k`.
proof fn lemma_esc_unit_at(u: Seq<u8>, k: int)
    requires
        0 <= k < u.len(),
    ensures
        esc(u) == esc(u.take(k)) + esc_byte(u[k]) + esc(u.skip(k + 1)),
    decreases u.len(),
{
    if k == u.len() - 1 {
        assert(u.drop_last() =~= u.take(k));
        assert(u.skip(k + 1) =~= Seq::<u8>::empty());
        assert(esc(u) =~= esc(u.take(k)) + esc_byte(u[k]) + esc(u.skip(k + 1)));
    } else {
        lemma_esc_unit_at(u.drop_last(), k);
        assert(u.drop_last().take(k) =~= u.take(k));
        assert(u.drop_last().skip(k + 1) =~= u.skip(k + 1).drop_last());
        assert(u.skip(k + 1).len() > 0);
        assert(u.skip(k + 1).last() == u.last());
        assert(esc(u.skip(k + 1)) == esc(u.skip(k + 1).drop_last()) + esc_byte(u.last()));
        assert(esc(u) =~= esc(u.take(k)) + esc_byte(u[k]) + esc(u.skip(k + 1)));
    }
}

/// `t` is written at position `pos` of `s` as a quoted record string.
pub open spec fn enc_str_at(s: Seq<u8>, pos: int, t: Seq<u8>) -> bool {
    0 <= pos && pos + enc_str(t).len() <= s.len() && s.subrange(pos, pos + enc_str(t).len())
        == enc_str(t)
}

/// What the record holds just past the first `k` escape units of the
/// quoted string written at `pos`: the next unit's bytes while `k` units
/// remain, the closing quote once all of `t` is consumed.
proof fn lemma_witness_byte(data: Seq<u8>, pos: int, u: Seq<u8>, k: int)
    requires
        enc_str_at(data, pos, u),
        0 <= k <= u.len(),
    ensures
        k < u.len() ==> pos + 1 + esc(u.take(k)).len() + esc_byte(u[k]).len() + 1 <= data.len(),
        k < u.len() ==> esc(u.take(k)).len() + esc_byte(u[k]).len() <= esc(u).len(),
        k < u.len() ==> data[pos + 1 + esc(u.take(k)).len()] == esc_byte(u[k])[0],
        k < u.len() && esc_byte(u[k]).len() == 2 ==> data[pos + 2 + esc(u.take(k)).len()] == u[k],
        k == u.len() ==> esc(u.take(k)) == esc(u),
        k == u.len() ==> pos + 1 + esc(u).len() < data.len(),
        k == u.len() ==> data[pos + 1 + esc(u).len()] == QUOTE,
{
    let l = enc_str(u).len() as int;
    assert(forall|n: int|
        0 <= n < l ==> data.subrange(pos, pos + l)[n] == #[trigger] data[pos + n]);
    assert(forall|n: int| 0 <= n < l ==> data[pos + n] == enc_str(u)[n]);
    if k < u.len() {
        lemma_esc_unit_at(u, k);
        let off = esc(u.take(k)).len() as int;
        assert(esc(u)[off] == esc_byte(u[k])[0]) by {
            assert(esc(u) == esc(u.take(k)) + esc_byte(u[k]) + esc(u.skip(k + 1)));
        }
        assert(enc_str(u)[1 + off] == esc(u)[off]);
        if esc_byte(u[k]).len() == 2 {
            assert(esc(u)[off + 1] == esc_byte(u[k])[1]) by {
                assert(esc(u) == esc(u.take(k)) + esc_byte(u[k]) + esc(u.skip(k + 1)));
            }
            assert(esc_byte(u[k])[1] == u[k]);
            assert(enc_str(u)[2 + off] == esc(u)[off + 1]);
        }
    } else {
        assert(u.take(k) =~= u);
        assert(enc_str(u)[1 + esc(u).len() as int] == QUOTE);
    }
}

/// Read one quoted record string starting at `pos`. Returns the unescaped
/// bytes and the position just past the closing quote. Exactly the quoted
/// strings the encoder writes are accepted, and the result is the one
/// string written there.
fn parse_str(data: &Vec<u8>, pos: usize) -> (r: Option<(Vec<u8>, usize)>)
    requires
        pos <= data@.len(),
    ensures
        r matches Some(p) ==> {
            &&& pos < p.1 <= data@.len()
            &&& p.1 == pos + enc_str(p.0@).len()
            &&& enc_str_at(data@, pos as int, p.0@)
            &&& forall|u: Seq<u8>| enc_str_at(data@, pos as int, u) ==> u == p.0@
        },
        r is None ==> forall|u: Seq<u8>| !enc_str_at(data@, pos as int, u),
{
    if pos == data.len() || data[pos] != QUOTE {
        proof {
            assert forall|u: Seq<u8>| !enc_str_at(data@, pos as int, u) by {
                if enc_str_at(data@, pos as int, u) {
                    let l = enc_str(u).len() as int;
                    assert(l >= 2);
                    assert(data@.subrange(pos as int, pos + l)[0] == data@[pos as int]);
                    assert(enc_str(u)[0] == QUOTE);
                }
            }
        }
        return None;
    }
    let mut i: usize = pos + 1;
    let mut out: Vec<u8> = Vec::new();
    loop
        invariant
            pos < data@.len(),
            data@[pos as int] == QUOTE,
            pos < i <= data@.len(),
            i == pos + 1 + esc(out@).len(),
            data@.subrange(pos + 1, i as int) == esc(out@),
            forall|u: Seq<u8>|
                enc_str_at(data@, pos as int, u) ==> out@.len() <= u.len() && out@ == u.take(
                    out@.len() as int,
                ),
        decreases data@.len() - i,
    {
        let ghost k = out@.len() as int;
        if i == data.len() {
            proof {
                assert forall|u: Seq<u8>| !enc_str_at(data@, pos as int, u) by {
                    if enc_str_at(data@, pos as int, u) {
                        lemma_witness_byte(data@, pos as int, u, k);
                        assert(esc(out@) == esc(u.take(k)));
                    }
                }
            }
            return None;
        }
        let b = data[i];
        if b == QUOTE {
            proof {
                assert forall|u: Seq<u8>| enc_str_at(data@, pos as int, u) implies u == out@ by {
                    lemma_witness_byte(data@, pos as int, u, k);
                    assert(esc(out@) == esc(u.take(k)));
                    if k < u.len() {
                        assert(data@[i as int] == esc_byte(u[k])[0]);
                        assert(esc_byte(u[k])[0] != QUOTE);
                    }
                    assert(u.take(u.len() as int) =~= u);
                }
                assert(data@.subrange(pos as int, i + 1) =~= enc_str(out@));
            }
            return Some((out, i + 1));
        } else if b == BACKSLASH {
            if i + 1 == data.len() {
                proof {
                    assert forall|u: Seq<u8>| !enc_str_at(data@, pos as int, u) by {
                        if enc_str_at(data@, pos as int, u) {
                            lemma_witness_byte(data@, pos as int, u, k);
                            assert(esc(out@) == esc(u.take(k)));
                            if k < u.len() {
                                assert(data@[i as int] == esc_byte(u[k])[0]);
                                assert(esc_byte(u[k]).len() == 2);
                            }
                        }
                    }
                }
                return None;
            }
            let c = data[i + 1];
            if c == QUOTE || c == BACKSLASH {
                proof {
                    assert forall|u: Seq<u8>|
                        enc_str_at(data@, pos as int, u) implies out@.push(c).len() <= u.len()
                        && out@.push(c) == u.take(out@.push(c).len() as int) by {
                        lemma_witness_byte(data@, pos as int, u, k);
                        assert(esc(out@) == esc(u.take(k)));
                        assert(k < u.len());
                        assert(data@[i as int] == esc_byte(u[k])[0]);
                        assert(esc_byte(u[k]).len() == 2);
                        assert(data@[i + 1] == u[k]);
                        assert(u.take(k + 1) =~= u.take(k).push(u[k]));
                        assert(out@.push(c) =~= u.take(k + 1));
                    }
                    assert(esc(out@.push(c)) == esc(out@) + esc_byte(c)) by {
                        assert(out@.push(c).drop_last() =~= out@);
                    }
                    assert(data@.subrange(pos + 1, i + 2) =~= esc(out@) + esc_byte(c));
                }
                out.push(c);
                i = i + 2;
            } else {
                proof {
                    assert forall|u: Seq<u8>| !enc_str_at(data@, pos as int, u) by {
                        if enc_str_at(data@, pos as int, u) {
                            lemma_witness_byte(data@, pos as int, u, k);
                            assert(esc(out@) == esc(u.take(k)));
                            if k < u.len() {
                                assert(data@[i as int] == esc_byte(u[k])[0]);
                                assert(esc_byte(u[k]).len() == 2);
                                assert(data@[i + 1] == u[k]);
                            }
                        }
                    }
                }
                return None;
            }
        } else {
            proof {
                assert forall|u: Seq<u8>|
                    enc_str_at(data@, pos as int, u) implies out@.push(b).len() <= u.len()
                    && out@.push(b) == u.take(out@.push(b).len() as int) by {
                    lemma_witness_byte(data@, pos as int, u, k);
                    assert(esc(out@) == esc(u.take(k)));
                    assert(k < u.len());
                    assert(data@[i as int] == esc_byte(u[k])[0]);
                    assert(u[k] == b);
                    assert(u.take(k + 1) =~= u.take(k).push(u[k]));
                    assert(out@.push(b) =~= u.take(k + 1));
                }
                assert(esc(out@.push(b)) == esc(out@) + esc_byte(b)) by {
                    assert(out@.push(b).drop_last() =~= out@);
                }
                assert(data@.subrange(pos + 1, i + 1) =~= esc(out@) + esc_byte(b));
            }
            out.push(b);
            i = i + 1;
        }
    }
}

/// `e` is written at position `pos` of `s` as a two-string array.
pub open spec fn enc_entry_at(s: Seq<u8>, pos: int, e: (Seq<u8>, Seq<u8>)) -> bool {
    0 <= pos && pos + enc_entry(e).len() <= s.len() && s.subrange(pos, pos + enc_entry(e).len())
        == enc_entry(e)
}

/// Where the pieces of an encoded entry sit inside the record.
proof fn lemma_entry_parts(data: Seq<u8>, pos: int, e: (Seq<u8>, Seq<u8>))
    requires
        enc_entry_at(data, pos, e),
    ensures
        data[pos] == LBRACKET,
        enc_str_at(data, pos + 1, e.0),
        data[pos + 1 + enc_str(e.0).len()] == COMMA,
        enc_str_at(data, pos + 2 + enc_str(e.0).len(), e.1),
        pos + enc_entry(e).len() == pos + 3 + enc_str(e.0).len() + enc_str(e.1).len(),
        data[pos + enc_entry(e).len() - 1] == RBRACKET,
{
    let l = enc_entry(e).len() as int;
    let l0 = enc_str(e.0).len() as int;
    let l1 = enc_str(e.1).len() as int;
    assert(l == 3 + l0 + l1);
    assert(forall|n: int|
        0 <= n < l ==> data.subrange(pos, pos + l)[n] == #[trigger] data[pos + n]);
    assert(forall|n: int| 0 <= n < l ==> data[pos + n] == enc_entry(e)[n]);
    assert(enc_entry(e)[0] == LBRACKET);
    assert(forall|n: int| 0 <= n < l0 ==> enc_entry(e)[1 + n] == enc_str(e.0)[n]);
    assert(data.subrange(pos + 1, pos + 1 + l0) =~= enc_str(e.0));
    assert(enc_entry(e)[1 + l0] == COMMA);
    assert(forall|n: int| 0 <= n < l1 ==> enc_entry(e)[2 + l0 + n] == enc_str(e.1)[n]);
    assert(data.subrange(pos + 2 + l0, pos + 2 + l0 + l1) =~= enc_str(e.1));
    assert(enc_entry(e)[l - 1] == RBRACKET);
}

/// Read one encoded entry starting at `pos`: a bracketed pair of record
/// strings. Exactly the entries the encoder writes are accepted.
fn parse_entry(data: &Vec<u8>, pos: usize) -> (r: Option<((Vec<u8>, Vec<u8>), usize)>)
    requires
        pos <= data@.len(),
    ensures
        r matches Some(p) ==> {
            &&& pos < p.1 <= data@.len()
            &&& p.1 == pos + enc_entry((p.0.0@, p.0.1@)).len()
            &&& enc_entry_at(data@, pos as int, (p.0.0@, p.0.1@))
            &&& forall|e: (Seq<u8>, Seq<u8>)|
                enc_entry_at(data@, pos as int, e) ==> e == (p.0.0@, p.0.1@)
        },
        r is None ==> forall|e: (Seq<u8>, Seq<u8>)| !enc_entry_at(data@, pos as int, e),
{
    if pos == data.len() || data[pos] != LBRACKET {
        proof {
            assert forall|e: (Seq<u8>, Seq<u8>)| !enc_entry_at(data@, pos as int, e) by {
                if enc_entry_at(data@, pos as int, e) {
                    lemma_entry_parts(data@, pos as int, e);
                }
            }
        }
        return None;
    }
    let first = parse_str(data, pos + 1);
    let (a, p1) = match first {
        Some(p) => p,
        None => {
            proof {
                assert forall|e: (Seq<u8>, Seq<u8>)| !enc_entry_at(data@, pos as int, e) by {
                    if enc_entry_at(data@, pos as int, e) {
                        lemma_entry_parts(data@, pos as int, e);
                    }
                }
            }
            return None;
        },
    };
    if p1 == data.len() || data[p1] != COMMA {
        proof {
            assert forall|e: (Seq<u8>, Seq<u8>)| !enc_entry_at(data@, pos as int, e) by {
                if enc_entry_at(data@, pos as int, e) {
                    lemma_entry_parts(data@, pos as int, e);
                    assert(e.0 == a@);
                }
            }
        }
        return None;
    }
    let second = parse_str(data, p1 + 1);
    let (b, p2) = match second {
        Some(p) => p,
        None => {
            proof {
                assert forall|e: (Seq<u8>, Seq<u8>)| !enc_entry_at(data@, pos as int, e) by {
                    if enc_entry_at(data@, pos as int, e) {
                        lemma_entry_parts(data@, pos as int, e);
                        assert(e.0 == a@);
                        assert(enc_str_at(data@, p1 + 1, e.1));
                    }
                }
            }
            return None;
        },
    };
    if p2 == data.len() || data[p2] != RBRACKET {
        proof {
            assert forall|e: (Seq<u8>, Seq<u8>)| !enc_entry_at(data@, pos as int, e) by {
                if enc_entry_at(data@, pos as int, e) {
                    lemma_entry_parts(data@, pos as int, e);
                    assert(e.0 == a@);
                    assert(enc_str_at(data@, p1 + 1, e.1));
                    assert(e.1 == b@);
                }
            }
        }
        return None;
    }
    proof {
        assert(data@.subrange(pos as int, p2 + 1) =~= enc_entry((a@, b@)));
        assert forall|e: (Seq<u8>, Seq<u8>)|
            enc_entry_at(data@, pos as int, e) implies e == (a@, b@) by {
            lemma_entry_parts(data@, pos as int, e);
            assert(e.0 == a@);
            assert(enc_str_at(data@, p1 + 1, e.1));
            assert(e.1 == b@);
        }
    }
    Some(((a, b), p2 + 1))
}

/// The entries of `es` from position `j` on, each preceded by a comma.
pub open spec fn enc_from(es: Seq<(Seq<u8>, Seq<u8>)>, j: int) -> Seq<u8>
    decreases es.len() - j,
{
    if j < 0 || j >= es.len() {
        Seq::empty()
    } else {
        seq![COMMA] + enc_entry(es[j]) + enc_from(es, j + 1)
    }
}

/// The encoded entry list splits after its first `k` entries.
proof fn lemma_upto_from(es: Seq<(Seq<u8>, Seq<u8>)>, k: int)
    requires
        1 <= k <= es.len(),
    ensures
        enc_upto(es, es.len() as int) == enc_upto(es, k) + enc_from(es, k),
    decreases es.len() - k,
{
    if k == es.len() {
        assert(enc_upto(es, es.len() as int) =~= enc_upto(es, k) + enc_from(es, k));
    } else {
        lemma_upto_from(es, k + 1);
        assert(enc_upto(es, k + 1) == enc_upto(es, k) + seq![COMMA] + enc_entry(es[k]));
        assert(enc_upto(es, k) + enc_from(es, k) =~= enc_upto(es, k + 1) + enc_from(es, k + 1));
    }
}

/// The first `j` encoded entries depend only on the first `j` entries.
proof fn lemma_upto_prefix(es1: Seq<(Seq<u8>, Seq<u8>)>, es2: Seq<(Seq<u8>, Seq<u8>)>, j: int)
    requires
        0 <= j <= es1.len(),
        j <= es2.len(),
        es1.take(j) == es2.take(j),
    ensures
        enc_upto(es1, j) == enc_upto(es2, j),
    decreases j,
{
    if j > 0 {
        assert(es1.take(j - 1) =~~= es1.take(j).take(j - 1));
        assert(es2.take(j - 1) =~~= es2.take(j).take(j - 1));
        lemma_upto_prefix(es1, es2, j - 1);
        assert(es1[j - 1] == es1.take(j)[j - 1]);
        assert(es2[j - 1] == es2.take(j)[j - 1]);
    }
}

/// Where the pieces of a whole encoded record sit.
proof fn lemma_record_parts(data: Seq<u8>, id: Seq<u8>, es: Seq<(Seq<u8>, Seq<u8>)>)
    requires
        data == spec_encode(id, es),
    ensures
        data.len() == 20 + enc_str(id).len() + enc_upto(es, es.len() as int).len(),
        data.subrange(0, 6) == lit_open(),
        enc_str_at(data, 6, id),
        data.subrange(
            6 + enc_str(id).len() as int,
            18 + enc_str(id).len() as int,
        ) == lit_entries(),
        data.subrange(18 + enc_str(id).len() as int, data.len() - 2) == enc_upto(
            es,
            es.len() as int,
        ),
        data[data.len() - 2] == RBRACKET,
        data[data.len() - 1] == RBRACE,
{
    let l0 = enc_str(id).len() as int;
    let ll = enc_upto(es, es.len() as int).len() as int;
    assert(lit_open().len() == 6);
    assert(lit_entries().len() == 12);
    assert(lit_close().len() == 2);
    assert(data.len() == 20 + l0 + ll);
    assert(data.subrange(0, 6) =~= lit_open());
    assert(data.subrange(6, 6 + l0) =~= enc_str(id));
    assert(data.subrange(6 + l0, 18 + l0) =~= lit_entries());
    assert(data.subrange(18 + l0, data.len() - 2) =~= enc_upto(es, es.len() as int));
    assert(data[data.len() - 2] == lit_close()[0]);
    assert(data[data.len() - 1] == lit_close()[1]);
}

/// Inside a whole record, where entry `j` sits and what follows it.
proof fn lemma_list_entry_at(data: Seq<u8>, id: Seq<u8>, es: Seq<(Seq<u8>, Seq<u8>)>, j: int)
    requires
        data == spec_encode(id, es),
        0 <= j < es.len(),
    ensures
        enc_entry_at(
            data,
            18 + enc_str(id).len() + enc_upto(es, j).len() + (if j > 0 {
                1int
            } else {
                0int
            }),
            es[j],
        ),
        enc_upto(es, j + 1).len() == enc_upto(es, j).len() + (if j > 0 {
            1int
        } else {
            0int
        }) + enc_entry(es[j]).len(),
        j + 1 < es.len() ==> data[18 + enc_str(id).len() as int + enc_upto(es, j + 1).len() as int]
            == COMMA,
        j + 1 == es.len() ==> 18 + enc_str(id).len() + enc_upto(es, j + 1).len() == data.len() - 2,
{
    lemma_record_parts(data, id, es);
    let q0 = 18 + enc_str(id).len() as int;
    let full = enc_upto(es, es.len() as int);
    let start_rel = enc_upto(es, j).len() as int + (if j > 0 {
        1int
    } else {
        0int
    });
    assert(enc_upto(es, j + 1) == enc_upto(es, j) + (if j > 0 {
        seq![COMMA]
    } else {
        Seq::<u8>::empty()
    }) + enc_entry(es[j])) by {
        if j == 0 {
            assert(enc_upto(es, 1) == enc_entry(es[0]));
            assert(enc_upto(es, j) + Seq::<u8>::empty() + enc_entry(es[j]) =~= enc_entry(es[0]));
        }
    }
    lemma_upto_from(es, j + 1);
    assert(full == enc_upto(es, j) + (if j > 0 {
        seq![COMMA]
    } else {
        Seq::<u8>::empty()
    }) + enc_entry(es[j]) + enc_from(es, j + 1));
    let le = enc_entry(es[j]).len() as int;
    assert(forall|n: int|
        0 <= n < full.len() ==> data.subrange(q0, data.len() - 2)[n] == #[trigger] data[q0 + n]);
    assert(forall|n: int| 0 <= n < full.len() ==> data[q0 + n] == full[n]);
    assert(forall|n: int| 0 <= n < le ==> full[start_rel + n] == enc_entry(es[j])[n]);
    assert(data.subrange(q0 + start_rel, q0 + start_rel + le) =~= enc_entry(es[j]));
    assert(enc_entry_at(data, q0 + start_rel, es[j]));
    if j + 1 < es.len() {
        assert(full[start_rel + le] == enc_from(es, j + 1)[0]);
        assert(enc_from(es, j + 1)[0] == COMMA);
    } else {
        assert(enc_from(es, j + 1) =~= Seq::<u8>::empty());
        assert(full.len() == start_rel + le);
    }
}

/// Parse a durable record back into the manifest it encodes. Every byte
/// string the encoder can produce parses back to exactly the manifest that
/// produced it; every other input is reported as a corrupt record.
#[verifier::rlimit(100)]
pub fn parse_manifest(data: &Vec<u8>) -> (r: Result<Manifest, Error>)
    ensures
        r matches Ok(m) ==> data@ == spec_encode(m.id@, m.entries.deep_view()),
        r matches Ok(m) ==> forall|id: Seq<u8>, es: Seq<(Seq<u8>, Seq<u8>)>|
            data@ == spec_encode(id, es) ==> id == m.id@ && es == m.entries.deep_view(),
        r matches Err(e) ==> e == Error::CorruptRecord && forall|
            id: Seq<u8>,
            es: Seq<(Seq<u8>, Seq<u8>)>,
        | data@ != spec_encode(id, es),
{
    let n = data.len();
    if n < 6 || data[0] != LBRACE || data[1] != QUOTE || data[2] != 105 || data[3] != 100
        || data[4] != QUOTE || data[5] != COLON {
        proof {
            assert forall|id: Seq<u8>, es: Seq<(Seq<u8>, Seq<u8>)>|
                data@ != spec_encode(id, es) by {
                if data@ == spec_encode(id, es) {
                    lemma_record_parts(data@, id, es);
                    assert(forall|k: int|
                        0 <= k < 6 ==> data@.subrange(0, 6)[k] == #[trigger] data@[k]);
                    assert(data@[0] == lit_open()[0]);
                    assert(data@[1] == lit_open()[1]);
                    assert(data@[2] == lit_open()[2]);
                    assert(data@[3] == lit_open()[3]);
                    assert(data@[4] == lit_open()[4]);
                    assert(data@[5] == lit_open()[5]);
                }
            }
        }
        return Err(Error::CorruptRecord);
    }
    let id_parse = parse_str(data, 6);
    let (id_v, p1) = match id_parse {
        Some(p) => p,
        None => {
            proof {
                assert forall|id: Seq<u8>, es: Seq<(Seq<u8>, Seq<u8>)>|
                    data@ != spec_encode(id, es) by {
                    if data@ == spec_encode(id, es) {
                        lemma_record_parts(data@, id, es);
                    }
                }
            }
            return Err(Error::CorruptRecord);
        },
    };
    if n - p1 < 12 || data[p1] != COMMA || data[p1 + 1] != QUOTE || data[p1 + 2] != 101
        || data[p1 + 3] != 110 || data[p1 + 4] != 116 || data[p1 + 5] != 114
        || data[p1 + 6] != 105 || data[p1 + 7] != 101 || data[p1 + 8] != 115
        || data[p1 + 9] != QUOTE || data[p1 + 10] != COLON || data[p1 + 11] != LBRACKET {
        proof {
            assert forall|id: Seq<u8>, es: Seq<(Seq<u8>, Seq<u8>)>|
                data@ != spec_encode(id, es) by {
                if data@ == spec_encode(id, es) {
                    lemma_record_parts(data@, id, es);
                    assert(id == id_v@);
                    let q = 6 + enc_str(id).len() as int;
                    assert(q == p1);
                    assert(forall|k: int|
                        0 <= k < 12 ==> data@.subrange(q, q + 12)[k] == #[trigger] data@[q + k]);
                    assert(data@[q] == lit_entries()[0]);
                    assert(data@[q + 1] == lit_entries()[1]);
                    assert(data@[q + 2] == lit_entries()[2]);
                    assert(data@[q + 3] == lit_entries()[3]);
                    assert(data@[q + 4] == lit_entries()[4]);
                    assert(data@[q + 5] == lit_entries()[5]);
                    assert(data@[q + 6] == lit_entries()[6]);
                    assert(data@[q + 7] == lit_entries()[7]);
                    assert(data@[q + 8] == lit_entries()[8]);
                    assert(data@[q + 9] == lit_entries()[9]);
                    assert(data@[q + 10] == lit_entries()[10]);
                    assert(data@[q + 11] == lit_entries()[11]);
                }
            }
        }
        return Err(Error::CorruptRecord);
    }
    let p2 = p1 + 12;
    proof {
        assert(data@.subrange(p1 as int, p2 as int) =~= lit_entries());
        assert(data@.subrange(0, 6) =~= lit_open());
    }
    if p2 == n {
        proof {
            assert forall|id: Seq<u8>, es: Seq<(Seq<u8>, Seq<u8>)>|
                data@ != spec_encode(id, es) by {
                if data@ == spec_encode(id, es) {
                    lemma_record_parts(data@, id, es);
                    assert(id == id_v@);
                }
            }
        }
        return Err(Error::CorruptRecord);
    }
    if data[p2] == RBRACKET {
        // An empty entry list: the record must end right here.
        if n - p2 == 2 && data[p2 + 1] == RBRACE {
            let m = Manifest { id: id_v, entries: Vec::new() };
            proof {
                assert(m.entries.deep_view() =~= Seq::<(Seq<u8>, Seq<u8>)>::empty());
                assert(enc_upto(m.entries.deep_view(), 0) == Seq::<u8>::empty());
                assert(data@ =~= spec_encode(m.id@, m.entries.deep_view()));
                assert forall|id: Seq<u8>, es: Seq<(Seq<u8>, Seq<u8>)>|
                    data@ == spec_encode(id, es) implies id == m.id@ && es
                    == m.entries.deep_view() by {
                    lemma_record_parts(data@, id, es);
                    assert(id == id_v@);
                    if es.len() > 0 {
                        lemma_list_entry_at(data@, id, es, 0);
                        lemma_entry_parts(data@, p2 as int, es[0]);
                    }
                    assert(es =~~= m.entries.deep_view());
                }
            }
            return Ok(m);
        }
        proof {
            assert forall|id: Seq<u8>, es: Seq<(Seq<u8>, Seq<u8>)>|
                data@ != spec_encode(id, es) by {
                if data@ == spec_encode(id, es) {
                    lemma_record_parts(data@, id, es);
                    assert(id == id_v@);
                    if es.len() > 0 {
                        lemma_list_entry_at(data@, id, es, 0);
                        lemma_entry_parts(data@, p2 as int, es[0]);
                    }
                    assert(enc_upto(es, es.len() as int).len() == 0);
                    assert(data@.len() == 20 + enc_str(id).len());
                }
            }
        }
        return Err(Error::CorruptRecord);
    }
    match parse_entry_list(data, &id_v, p1, p2) {
        Ok(entries) => Ok(Manifest { id: id_v, entries }),
        Err(e) => Err(e),
    }
}

/// Parse the non-empty entry list of a record whose opening pieces have
/// already been read and checked: `p2` points at the first entry.
#[verifier::rlimit(100)]
fn parse_entry_list(data: &Vec<u8>, id_v: &Vec<u8>, p1: usize, p2: usize) -> (r: Result<
    Vec<(Vec<u8>, Vec<u8>)>,
    Error,
>)
    requires
        p1 == 6 + enc_str(id_v@).len(),
        p2 == p1 + 12,
        p2 < data@.len(),
        enc_str_at(data@, 6, id_v@),
        forall|u: Seq<u8>| enc_str_at(data@, 6, u) ==> u == id_v@,
        data@.subrange(0, 6) == lit_open(),
        data@.subrange(p1 as int, p2 as int) == lit_entries(),
        data@[p2 as int] != RBRACKET,
    ensures
        r matches Ok(v) ==> data@ == spec_encode(id_v@, v.deep_view()) && (forall|
            id: Seq<u8>,
            es: Seq<(Seq<u8>, Seq<u8>)>,
        | data@ == spec_encode(id, es) ==> id == id_v@ && es == v.deep_view()),
        r matches Err(e) ==> e == Error::CorruptRecord && forall|
            id: Seq<u8>,
            es: Seq<(Seq<u8>, Seq<u8>)>,
        | data@ != spec_encode(id, es),
{
    let n = data.len();
    let mut entries: Vec<(Vec<u8>, Vec<u8>)> = Vec::new();
    let mut p = p2;
    proof {
        assert(entries.deep_view() =~~= Seq::<(Seq<u8>, Seq<u8>)>::empty());
        assert(data@.subrange(p2 as int, p2 as int) =~= Seq::<u8>::empty());
        assert forall|id: Seq<u8>, es: Seq<(Seq<u8>, Seq<u8>)>|
            data@ == spec_encode(id, es) implies entries@.len() < es.len()
            && entries.deep_view() == es.take(entries@.len() as int) by {
            lemma_record_parts(data@, id, es);
            assert(id == id_v@);
            if es.len() == 0 {
                assert(enc_upto(es, 0).len() == 0);
                assert(data@.len() - 2 == p2);
                assert(data@[p2 as int] == RBRACKET);
            }
            assert(es.take(0) =~~= Seq::<(Seq<u8>, Seq<u8>)>::empty());
        }
    }
    loop
        invariant
            p1 == 6 + enc_str(id_v@).len(),
            p2 == p1 + 12,
            p2 <= p <= n,
            n == data@.len(),
            enc_str_at(data@, 6, id_v@),
            forall|u: Seq<u8>| enc_str_at(data@, 6, u) ==> u == id_v@,
            data@.subrange(0, 6) == lit_open(),
            data@.subrange(p1 as int, p2 as int) == lit_entries(),
            data@.subrange(p2 as int, p as int) == enc_upto(
                entries.deep_view(),
                entries@.len() as int,
            ) + (if entries@.len() > 0 {
                seq![COMMA]
            } else {
                Seq::<u8>::empty()
            }),
            forall|id: Seq<u8>, es: Seq<(Seq<u8>, Seq<u8>)>|
                data@ == spec_encode(id, es) ==> entries@.len() < es.len()
                    && entries.deep_view() == es.take(entries@.len() as int),
        decreases n - p,
    {
        let ghost j = entries@.len() as int;
        let ghost cur = entries.deep_view();
        let entry_parse = parse_entry(data, p);
        let (e, pn) = match entry_parse {
            Some(q) => q,
            None => {
                proof {
                    assert forall|id: Seq<u8>, es: Seq<(Seq<u8>, Seq<u8>)>|
                        data@ != spec_encode(id, es) by {
                        if data@ == spec_encode(id, es) {
                            lemma_record_parts(data@, id, es);
                            assert(id == id_v@);
                            assert(cur.take(j) =~~= cur);
                            assert(es.take(j).take(j) =~~= es.take(j));
                            lemma_upto_prefix(cur, es, j);
                            lemma_list_entry_at(data@, id, es, j);
                        }
                    }
                }
                return Err(Error::CorruptRecord);
            },
        };
        let ghost ee = (e.0@, e.1@);
        entries.push(e);
        let ghost cur2 = entries.deep_view();
        proof {
            assert(cur2 =~~= cur.push(ee));
            assert(cur2.take(j) =~~= cur);
            assert(cur.take(j) =~~= cur);
            lemma_upto_prefix(cur, cur2, j);
            assert(enc_upto(cur2, j + 1) == enc_upto(cur2, j) + (if j > 0 {
                seq![COMMA]
            } else {
                Seq::<u8>::empty()
            }) + enc_entry(ee)) by {
                if j == 0 {
                    assert(enc_upto(cur2, 1) == enc_entry(cur2[0]));
                    assert(enc_upto(cur2, 0) + Seq::<u8>::empty() + enc_entry(ee) =~= enc_entry(
                        cur2[0],
                    ));
                }
            }
            assert(data@.subrange(p2 as int, pn as int) =~= enc_upto(cur2, j + 1));
            assert forall|id: Seq<u8>, es: Seq<(Seq<u8>, Seq<u8>)>|
                data@ == spec_encode(id, es) implies j + 1 <= es.len() && cur2 == es.take(j + 1)
                && 18 + enc_str(id).len() + enc_upto(es, j + 1).len() == pn by {
                lemma_record_parts(data@, id, es);
                assert(id == id_v@);
                assert(cur.take(j) =~~= cur);
                assert(es.take(j).take(j) =~~= es.take(j));
                lemma_upto_prefix(cur, es, j);
                lemma_list_entry_at(data@, id, es, j);
                assert(ee == es[j]);
                assert(cur2 =~~= es.take(j + 1));
                assert(cur2.take(j + 1) =~~= cur2);
                assert(es.take(j + 1).take(j + 1) =~~= es.take(j + 1));
                lemma_upto_prefix(cur2, es, j + 1);
            }
        }
        if pn == n {
            proof {
                assert forall|id: Seq<u8>, es: Seq<(Seq<u8>, Seq<u8>)>|
                    data@ != spec_encode(id, es) by {
                    if data@ == spec_encode(id, es) {
                        lemma_record_parts(data@, id, es);
                        if j + 1 < es.len() {
                            lemma_list_entry_at(data@, id, es, j + 1);
                        }
                    }
                }
            }
            return Err(Error::CorruptRecord);
        }
        let b2 = data[pn];
        if b2 == COMMA {
            proof {
                assert forall|id: Seq<u8>, es: Seq<(Seq<u8>, Seq<u8>)>|
                    data@ == spec_encode(id, es) implies entries@.len() < es.len()
                    && entries.deep_view() == es.take(entries@.len() as int) by {
                    lemma_record_parts(data@, id, es);
                    if j + 1 == es.len() {
                        lemma_list_entry_at(data@, id, es, j);
                        assert(data@[pn as int] == RBRACKET);
                    } else {
                        lemma_list_entry_at(data@, id, es, j);
                    }
                }
                assert(data@.subrange(p2 as int, pn + 1) =~= enc_upto(cur2, j + 1) + seq![COMMA]);
            }
            p = pn + 1;
        } else if b2 == RBRACKET {
            if n - pn == 2 && data[pn + 1] == RBRACE {
                proof {
                    assert(data@ =~= spec_encode(id_v@, entries.deep_view()));
                    assert forall|id: Seq<u8>, es: Seq<(Seq<u8>, Seq<u8>)>|
                        data@ == spec_encode(id, es) implies id == id_v@ && es
                        == entries.deep_view() by {
                        lemma_record_parts(data@, id, es);
                        assert(id == id_v@);
                        if j + 1 < es.len() {
                            lemma_list_entry_at(data@, id, es, j);
                            assert(data@[pn as int] == COMMA);
                        }
                        assert(j + 1 == es.len());
                        assert(es.take(j + 1) =~~= es);
                        assert(es =~~= cur2);
                    }
                }
                return Ok(entries);
            }
            proof {
                assert forall|id: Seq<u8>, es: Seq<(Seq<u8>, Seq<u8>)>|
                    data@ != spec_encode(id, es) by {
                    if data@ == spec_encode(id, es) {
                        lemma_record_parts(data@, id, es);
                        if j + 1 < es.len() {
                            lemma_list_entry_at(data@, id, es, j);
                            assert(data@[pn as int] == COMMA);
                        }
                        assert(j + 1 == es.len());
                        assert(18 + enc_str(id).len() + enc_upto(es, j + 1).len() == data@.len()
                            - 2);
                    }
                }
            }
            return Err(Error::CorruptRecord);
        } else {
            proof {
                assert forall|id: Seq<u8>, es: Seq<(Seq<u8>, Seq<u8>)>|
                    data@ != spec_encode(id, es) by {
                    if data@ == spec_encode(id, es) {
                        lemma_record_parts(data@, id, es);
                        lemma_list_entry_at(data@, id, es, j);
                        if j + 1 < es.len() {
                            assert(data@[pn as int] == COMMA);
                        } else {
                            assert(data@[pn as int] == RBRACKET);
                        }
                    }
                }
            }
            return Err(Error::CorruptRecord);
        }
    }
}

} // verus!
