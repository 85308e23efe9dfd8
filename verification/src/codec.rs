//! The state-file notation: a JSON document, tagged with its schema
//! version, holding the deployment records, the current pointer and the
//! target path.
//!
//! The current schema is `V1`; `V2` is the ancestor schema whose records
//! carry only a timestamp. The writer emits the canonical form of the
//! current schema only — no whitespace, ids in ascending canonical decimal,
//! timestamps in their canonical rendering. The reader is exact: it accepts
//! precisely the canonical documents of either schema (`loadable_doc`),
//! upgrades the ancestor's records on the way in, and treats everything
//! else — bad syntax, an unknown tag, leading-zero or reordered or
//! duplicate ids, a non-canonical timestamp, a broken current pointer, an
//! alien target — as corrupt, with no repair path. This is a deliberate
//! break with semantically equivalent JSON: a document with reordered keys,
//! whitespace, or another RFC 3339 rendering of the same instant does not
//! load, even though a generic JSON reader would accept it; only documents
//! in the canonical form of one of the two schemas are readable.

use vstd::prelude::*;

use crate::digits::dec_digits;
use crate::digits::dec_value;
use crate::digits::is_dec_digit;
use crate::digits::lemma_dec_digits_are_digits;
use crate::digits::lemma_dec_digits_len_u32;
use crate::digits::lemma_dec_value_of_digits;
use crate::digits::pow10;
use crate::digits::push_dec;
use crate::jsonesc::canonical_str_at;
use crate::jsonesc::escape;
use crate::jsonesc::parse_string;
use crate::jsonesc::push_escaped;
use crate::state::DeploymentRecord;
use crate::state::TargetState;
use crate::errors::Error;
use crate::time::TS_MAX;
use crate::time::rfc3339_of;

verus! {

/// `{"V` — the document opener, before the version digit.
pub open spec fn lit_doc_open() -> Seq<u8> {
    seq![123u8, 34u8, 86u8]
}

/// `":{"deployments":{` — after the version digit.
pub open spec fn lit_schema() -> Seq<u8> {
    seq![
        34u8,
        58u8,
        123u8,
        34u8,
        100u8,
        101u8,
        112u8,
        108u8,
        111u8,
        121u8,
        109u8,
        101u8,
        110u8,
        116u8,
        115u8,
        34u8,
        58u8,
        123u8,
    ]
}

/// `":{"time":"` — after a record's id key.
pub open spec fn lit_key_time() -> Seq<u8> {
    seq![34u8, 58u8, 123u8, 34u8, 116u8, 105u8, 109u8, 101u8, 34u8, 58u8, 34u8]
}

/// `,"message":"` — after a record's time string's closing quote.
pub open spec fn lit_message() -> Seq<u8> {
    seq![44u8, 34u8, 109u8, 101u8, 115u8, 115u8, 97u8, 103u8, 101u8, 34u8, 58u8, 34u8]
}

/// `,"original_id":` — after a record's message string's closing quote.
pub open spec fn lit_origid() -> Seq<u8> {
    seq![
        44u8,
        34u8,
        111u8,
        114u8,
        105u8,
        103u8,
        105u8,
        110u8,
        97u8,
        108u8,
        95u8,
        105u8,
        100u8,
        34u8,
        58u8,
    ]
}

/// `,"current":` — after the deployments object.
pub open spec fn lit_current() -> Seq<u8> {
    seq![44u8, 34u8, 99u8, 117u8, 114u8, 114u8, 101u8, 110u8, 116u8, 34u8, 58u8]
}

/// `,"target":"` — after the current pointer.
pub open spec fn lit_target() -> Seq<u8> {
    seq![44u8, 34u8, 116u8, 97u8, 114u8, 103u8, 101u8, 116u8, 34u8, 58u8, 34u8]
}

/// `null` — the current pointer of a never-deployed state.
pub open spec fn lit_null() -> Seq<u8> {
    seq![110u8, 117u8, 108u8, 108u8]
}

/// The current-schema notation of one record under its id key:
/// `"<id>":{"time":"…","message":"…","original_id":<n>}`.
pub open spec fn record_v1_bytes(id: u32, r: DeploymentRecord) -> Seq<u8> {
    seq![34u8] + dec_digits(id as nat) + lit_key_time() + rfc3339_of(r.time) + seq![34u8]
        + lit_message() + escape(r.message@) + seq![34u8] + lit_origid() + dec_digits(
        r.original_id as nat,
    ) + seq![125u8]
}

/// The ancestor-schema notation of one record: `"<id>":{"time":"…"}`.
pub open spec fn record_v2_bytes(id: u32, time: i64) -> Seq<u8> {
    seq![34u8] + dec_digits(id as nat) + lit_key_time() + rfc3339_of(time) + seq![34u8, 125u8]
}

/// A byte string fit to stand unescaped inside a JSON string: printable
/// ASCII without quote or backslash. The RFC 3339 notation of a supported
/// timestamp is such a string.
pub open spec fn plain_str(s: Seq<u8>) -> bool {
    &&& s.len() > 0
    &&& forall|i: int| 0 <= i < s.len() ==> 32 <= #[trigger] s[i] < 127 && s[i] != 34 && s[i] != 92
}

/// Appends `{"V` to `out`.
fn push_lit_doc_open(out: &mut Vec<u8>)
    ensures
        final(out)@ == old(out)@ + lit_doc_open(),
{
    out.push(123);
    out.push(34);
    out.push(86);
    assert(out@ =~= old(out)@ + lit_doc_open());
}

/// Appends `":{"deployments":{` to `out`.
fn push_lit_schema(out: &mut Vec<u8>)
    ensures
        final(out)@ == old(out)@ + lit_schema(),
{
    out.push(34);
    out.push(58);
    out.push(123);
    out.push(34);
    out.push(100);
    out.push(101);
    out.push(112);
    out.push(108);
    out.push(111);
    out.push(121);
    out.push(109);
    out.push(101);
    out.push(110);
    out.push(116);
    out.push(115);
    out.push(34);
    out.push(58);
    out.push(123);
    assert(out@ =~= old(out)@ + lit_schema());
}

/// Appends `":{"time":"` to `out`.
fn push_lit_key_time(out: &mut Vec<u8>)
    ensures
        final(out)@ == old(out)@ + lit_key_time(),
{
    out.push(34);
    out.push(58);
    out.push(123);
    out.push(34);
    out.push(116);
    out.push(105);
    out.push(109);
    out.push(101);
    out.push(34);
    out.push(58);
    out.push(34);
    assert(out@ =~= old(out)@ + lit_key_time());
}

/// Appends `","message":"` to `out`.
fn push_lit_message(out: &mut Vec<u8>)
    ensures
        final(out)@ == old(out)@ + lit_message(),
{
    out.push(44);
    out.push(34);
    out.push(109);
    out.push(101);
    out.push(115);
    out.push(115);
    out.push(97);
    out.push(103);
    out.push(101);
    out.push(34);
    out.push(58);
    out.push(34);
    assert(out@ =~= old(out)@ + lit_message());
}

/// Appends `","original_id":` to `out`.
fn push_lit_origid(out: &mut Vec<u8>)
    ensures
        final(out)@ == old(out)@ + lit_origid(),
{
    out.push(44);
    out.push(34);
    out.push(111);
    out.push(114);
    out.push(105);
    out.push(103);
    out.push(105);
    out.push(110);
    out.push(97);
    out.push(108);
    out.push(95);
    out.push(105);
    out.push(100);
    out.push(34);
    out.push(58);
    assert(out@ =~= old(out)@ + lit_origid());
}

/// Appends `,"current":` to `out`.
fn push_lit_current(out: &mut Vec<u8>)
    ensures
        final(out)@ == old(out)@ + lit_current(),
{
    out.push(44);
    out.push(34);
    out.push(99);
    out.push(117);
    out.push(114);
    out.push(114);
    out.push(101);
    out.push(110);
    out.push(116);
    out.push(34);
    out.push(58);
    assert(out@ =~= old(out)@ + lit_current());
}

/// Appends `,"target":"` to `out`.
fn push_lit_target(out: &mut Vec<u8>)
    ensures
        final(out)@ == old(out)@ + lit_target(),
{
    out.push(44);
    out.push(34);
    out.push(116);
    out.push(97);
    out.push(114);
    out.push(103);
    out.push(101);
    out.push(116);
    out.push(34);
    out.push(58);
    out.push(34);
    assert(out@ =~= old(out)@ + lit_target());
}

/// The literal `":{"time":"` as a vector, for matching.
fn lit_key_time_vec() -> (r: Vec<u8>)
    ensures
        r@ == lit_key_time(),
{
    let mut v: Vec<u8> = Vec::new();
    push_lit_key_time(&mut v);
    assert(v@ =~= lit_key_time());
    v
}

/// The literal `","message":"` as a vector, for matching.
fn lit_message_vec() -> (r: Vec<u8>)
    ensures
        r@ == lit_message(),
{
    let mut v: Vec<u8> = Vec::new();
    push_lit_message(&mut v);
    assert(v@ =~= lit_message());
    v
}

/// The literal `","original_id":` as a vector, for matching.
fn lit_origid_vec() -> (r: Vec<u8>)
    ensures
        r@ == lit_origid(),
{
    let mut v: Vec<u8> = Vec::new();
    push_lit_origid(&mut v);
    assert(v@ =~= lit_origid());
    v
}

/// Matches the exact bytes of `lit` at `pos`.
pub fn expect_vec(data: &Vec<u8>, pos: usize, lit: &Vec<u8>) -> (r: Option<usize>)
    requires
        pos <= data@.len(),
    ensures
        r matches Some(end) ==> end == pos + lit@.len() && pos + lit@.len() <= data@.len()
            && data@.subrange(pos as int, end as int) == lit@,
        r is None ==> !(pos + lit@.len() <= data@.len() && data@.subrange(
            pos as int,
            pos + lit@.len(),
        ) == lit@),
{
    let k = lit.len();
    let n = data.len();
    if n - pos < k {
        proof {
            if pos + lit@.len() <= data@.len() {
                assert(false);
            }
        }
        return Option::None;
    }
    let mut i: usize = 0;
    while i < k
        invariant
            0 <= i <= k,
            k == lit@.len(),
            n == data@.len(),
            pos + k <= n,
            forall|q: int| 0 <= q < i ==> data@[pos + q] == lit@[q],
        decreases k - i,
    {
        if data[pos + i] != lit[i] {
            proof {
                if data@.subrange(pos as int, pos + lit@.len()) == lit@ {
                    assert(data@.subrange(pos as int, pos + lit@.len())[i as int] == data@[pos
                        + i]);
                }
            }
            return Option::None;
        }
        i = i + 1;
    }
    assert(data@.subrange(pos as int, pos + k) =~= lit@);
    Option::Some(pos + k)
}

/// At `pos`, `d` holds the digits of `n` followed by a non-digit or the
/// end of the data.
pub open spec fn canonical_num_at(d: Seq<u8>, pos: int, n: u32) -> bool {
    &&& 0 <= pos
    &&& pos + dec_digits(n as nat).len() <= d.len()
    &&& d.subrange(pos, pos + dec_digits(n as nat).len()) == dec_digits(n as nat)
    &&& (pos + dec_digits(n as nat).len() == d.len() || !is_dec_digit(
        d[pos + dec_digits(n as nat).len()],
    ))
}

/// Parses an unsigned decimal number at `pos`, consuming the maximal digit
/// run, which must be the canonical notation of the value: a run with a
/// leading zero is rejected. Exact on the canonical digits of any `u32`.
pub fn parse_u32(data: &Vec<u8>, pos: usize) -> (r: Option<(u32, usize)>)
    requires
        pos <= data@.len(),
    ensures
        r matches Some(p) ==> pos < p.1 <= data@.len() && data@.subrange(pos as int, p.1 as int)
            == dec_digits(p.0 as nat) && (p.1 == data@.len() || !is_dec_digit(data@[p.1 as int])),
        forall|m: u32|
            canonical_num_at(data@, pos as int, m) ==> (r matches Some(p) && p.0 == m && p.1 == pos
                + dec_digits(m as nat).len()),
{
    let n = data.len();
    let mut end: usize = pos;
    while end < n && 48 <= data[end] && data[end] <= 57
        invariant
            pos <= end <= n,
            n == data@.len(),
            forall|q: int| pos <= q < end ==> is_dec_digit(#[trigger] data@[q]),
        decreases n - end,
    {
        end = end + 1;
    }
    proof {
        assert forall|m: u32| canonical_num_at(data@, pos as int, m) implies end == pos
            + dec_digits(m as nat).len() by {
            let dd = dec_digits(m as nat);
            lemma_dec_digits_are_digits(m as nat);
            lemma_dec_digits_len_u32(m);
            if end < pos + dd.len() {
                assert(data@.subrange(pos as int, pos + dd.len())[end - pos] == data@[end as int]);
                assert(is_dec_digit(data@[end as int]));
                assert(end < n);
            }
            if end > pos + dd.len() {
                assert(is_dec_digit(data@[pos + dd.len()]));
            }
        }
    }
    if end == pos {
        proof {
            assert forall|m: u32| !canonical_num_at(data@, pos as int, m) by {
                if canonical_num_at(data@, pos as int, m) {
                    lemma_dec_digits_are_digits(m as nat);
                }
            }
        }
        return Option::None;
    }
    if end - pos > 10 {
        proof {
            assert forall|m: u32| !canonical_num_at(data@, pos as int, m) by {
                if canonical_num_at(data@, pos as int, m) {
                    lemma_dec_digits_len_u32(m);
                }
            }
        }
        return Option::None;
    }
    if end - pos > 1 && data[pos] == 48 {
        proof {
            assert forall|m: u32| !canonical_num_at(data@, pos as int, m) by {
                if canonical_num_at(data@, pos as int, m) {
                    crate::digits::lemma_dec_digits_no_leading_zero(m as nat);
                    assert(data@.subrange(pos as int, pos + dec_digits(m as nat).len())[0]
                        == data@[pos as int]);
                }
            }
        }
        return Option::None;
    }
    let mut acc: u64 = 0;
    let mut j: usize = pos;
    assert(data@.subrange(pos as int, pos as int) =~= Seq::<u8>::empty());
    while j < end
        invariant
            pos <= j <= end <= n,
            n == data@.len(),
            end - pos <= 10,
            forall|q: int| pos <= q < end ==> is_dec_digit(#[trigger] data@[q]),
            acc as nat == dec_value(data@.subrange(pos as int, j as int)),
            (acc as nat) < pow10((j - pos) as nat),
        decreases end - j,
    {
        proof {
            assert(pow10((j - pos) as nat) <= pow10(10)) by {
                lemma_pow10_le((j - pos) as nat, 10);
            }
            assert(pow10(10) == 10_000_000_000) by {
                reveal_with_fuel(pow10, 11);
            }
        }
        let d = data[j] - 48;
        acc = acc * 10 + (d as u64);
        proof {
            let pre = data@.subrange(pos as int, j as int);
            let now = data@.subrange(pos as int, j + 1);
            assert(now.drop_last() =~= pre);
            assert(now.last() == data@[j as int]);
        }
        j = j + 1;
    }
    if acc > 0xFFFF_FFFF {
        proof {
            assert forall|m: u32| !canonical_num_at(data@, pos as int, m) by {
                if canonical_num_at(data@, pos as int, m) {
                    assert(data@.subrange(pos as int, end as int) == dec_digits(m as nat));
                    lemma_dec_value_of_digits(m as nat);
                }
            }
        }
        return Option::None;
    }
    let v = acc as u32;
    proof {
        assert forall|m: u32| canonical_num_at(data@, pos as int, m) implies v == m by {
            assert(data@.subrange(pos as int, end as int) == dec_digits(m as nat));
            lemma_dec_value_of_digits(m as nat);
        }
        let run = data@.subrange(pos as int, end as int);
        assert(run.len() > 0);
        assert(run.len() > 1 ==> run[0] != 48) by {
            assert(run[0] == data@[pos as int]);
        }
        assert(forall|i: int| 0 <= i < run.len() ==> is_dec_digit(#[trigger] run[i])) by {
            assert(forall|i: int|
                0 <= i < run.len() ==> run[i] == #[trigger] data@[pos + i]);
        }
        crate::digits::lemma_canonical_digits(run);
    }
    Option::Some((v, end))
}

/// `pow10` is monotone in its exponent.
proof fn lemma_pow10_le(a: nat, b: nat)
    requires
        a <= b,
    ensures
        pow10(a) <= pow10(b),
    decreases b,
{
    if a < b {
        lemma_pow10_le(a, (b - 1) as nat);
        assert(pow10(b) == 10 * pow10((b - 1) as nat));
        assert(pow10((b - 1) as nat) >= 1) by {
            lemma_pow10_pos((b - 1) as nat);
        }
    }
}

/// `pow10` is positive.
proof fn lemma_pow10_pos(k: nat)
    ensures
        pow10(k) >= 1,
    decreases k,
{
    if k > 0 {
        lemma_pow10_pos((k - 1) as nat);
    }
}

/// At `pos`, `d` holds `b` (quote-free) followed by a closing quote.
pub open spec fn plain_run_at(d: Seq<u8>, pos: int, b: Seq<u8>) -> bool {
    &&& 0 <= pos
    &&& pos + b.len() + 1 <= d.len()
    &&& d.subrange(pos, pos + b.len() + 1) == b + seq![34u8]
    &&& forall|q: int| 0 <= q < b.len() ==> b[q] != 34
}

/// Scans a quote-free run up to and including the closing quote, for
/// string fields that never need escapes (timestamps).
pub fn scan_plain(data: &Vec<u8>, pos: usize) -> (r: Option<(Vec<u8>, usize)>)
    requires
        pos <= data@.len(),
    ensures
        r matches Some(p) ==> pos < p.1 <= data@.len() && data@.subrange(pos as int, p.1 as int)
            == p.0@ + seq![34u8] && (forall|q: int| 0 <= q < p.0@.len() ==> p.0@[q] != 34),
        forall|b: Seq<u8>|
            plain_run_at(data@, pos as int, b) ==> (r matches Some(p) && p.0@ == b && p.1 == pos
                + b.len() + 1),
{
    let n = data.len();
    let mut i: usize = pos;
    let mut out: Vec<u8> = Vec::new();
    assert(data@.subrange(pos as int, pos as int) =~= out@);
    while i < n && data[i] != 34
        invariant
            pos <= i <= n,
            n == data@.len(),
            out@ == data@.subrange(pos as int, i as int),
            out@.len() == i - pos,
            forall|q: int| 0 <= q < out@.len() ==> out@[q] != 34,
        decreases n - i,
    {
        out.push(data[i]);
        assert(out@ =~= data@.subrange(pos as int, i + 1));
        i = i + 1;
    }
    if i == n {
        proof {
            assert forall|b: Seq<u8>| !plain_run_at(data@, pos as int, b) by {
                if plain_run_at(data@, pos as int, b) {
                    if pos + b.len() < n {
                        assert(data@.subrange(pos as int, pos + b.len() + 1)[b.len() as int] == 34);
                    }
                }
            }
        }
        return Option::None;
    }
    let end = i + 1;
    proof {
        assert(data@.subrange(pos as int, end as int) =~= out@ + seq![34u8]);
        assert forall|b: Seq<u8>| plain_run_at(data@, pos as int, b) implies out@ == b && end == pos
            + b.len() + 1 by {
            if (i - pos) < b.len() {
                assert(data@.subrange(pos as int, pos + b.len() + 1)[i - pos] == b[i - pos]);
                assert(b[i - pos] != 34);
                assert(data@[i as int] == 34);
            }
            if (i - pos) > b.len() {
                assert(data@.subrange(pos as int, pos + b.len() + 1)[b.len() as int] == 34);
                assert(data@[pos + b.len()] == 34);
                assert(out@[b.len() as int] != 34);
                assert(out@[b.len() as int] == data@[pos + b.len()]);
            }
            assert(out@ =~= b);
        }
    }
    Option::Some((out, end))
}

/// Adjacent subranges concatenate.
proof fn lemma_sub_glue(d: Seq<u8>, a: int, m: int, b: int)
    requires
        0 <= a <= m <= b <= d.len(),
    ensures
        d.subrange(a, b) == d.subrange(a, m) + d.subrange(m, b),
{
    assert(d.subrange(a, b) =~= d.subrange(a, m) + d.subrange(m, b));
}

/// The pieces of one parsed current-schema record assemble to its
/// canonical notation.
proof fn lemma_record_v1_assemble(
    d: Seq<u8>,
    pos: int,
    p2: int,
    p3: int,
    p4: int,
    p5: int,
    p6: int,
    p7: int,
    p8: int,
    id: u32,
    time: i64,
    msg: Seq<u8>,
    oid: u32,
)
    requires
        0 <= pos < pos + 1 <= p2 <= p3 <= p4 <= p5 <= p6 <= p7 <= p8,
        p8 + 1 <= d.len(),
        d[pos] == 34,
        d.subrange(pos + 1, p2) == dec_digits(id as nat),
        d.subrange(p2, p3) == lit_key_time(),
        d.subrange(p3, p4) == rfc3339_of(time) + seq![34u8],
        d.subrange(p4, p5) == lit_message(),
        d.subrange(p5, p6) == escape(msg) + seq![34u8],
        d.subrange(p6, p7) == lit_origid(),
        d.subrange(p7, p8) == dec_digits(oid as nat),
        d[p8] == 125,
    ensures
        d.subrange(pos, p8 + 1) == seq![34u8] + dec_digits(id as nat) + lit_key_time()
            + rfc3339_of(time) + seq![34u8] + lit_message() + escape(msg) + seq![34u8]
            + lit_origid() + dec_digits(oid as nat) + seq![125u8],
{
    assert(d.subrange(pos, pos + 1) =~= seq![34u8]);
    lemma_sub_glue(d, pos, pos + 1, p2);
    lemma_sub_glue(d, pos, p2, p3);
    lemma_sub_glue(d, pos, p3, p4);
    assert(seq![34u8] + dec_digits(id as nat) + lit_key_time() + (rfc3339_of(time) + seq![34u8])
        =~= seq![34u8] + dec_digits(id as nat) + lit_key_time() + rfc3339_of(time) + seq![34u8]);
    lemma_sub_glue(d, pos, p4, p5);
    lemma_sub_glue(d, pos, p5, p6);
    assert(seq![34u8] + dec_digits(id as nat) + lit_key_time() + rfc3339_of(time) + seq![34u8]
        + lit_message() + (escape(msg) + seq![34u8]) =~= seq![34u8] + dec_digits(id as nat)
        + lit_key_time() + rfc3339_of(time) + seq![34u8] + lit_message() + escape(msg)
        + seq![34u8]);
    lemma_sub_glue(d, pos, p6, p7);
    lemma_sub_glue(d, pos, p7, p8);
    assert(d.subrange(p8, p8 + 1) =~= seq![125u8]);
    lemma_sub_glue(d, pos, p8, p8 + 1);
}

/// The pieces of one parsed ancestor-schema record assemble to its
/// canonical notation.
proof fn lemma_record_v2_assemble(
    d: Seq<u8>,
    pos: int,
    p2: int,
    p3: int,
    p4: int,
    id: u32,
    time: i64,
)
    requires
        0 <= pos < pos + 1 <= p2 <= p3 <= p4,
        p4 + 1 <= d.len(),
        d[pos] == 34,
        d.subrange(pos + 1, p2) == dec_digits(id as nat),
        d.subrange(p2, p3) == lit_key_time(),
        d.subrange(p3, p4) == rfc3339_of(time) + seq![34u8],
        d[p4] == 125,
    ensures
        d.subrange(pos, p4 + 1) == seq![34u8] + dec_digits(id as nat) + lit_key_time()
            + rfc3339_of(time) + seq![34u8, 125u8],
{
    assert(d.subrange(pos, pos + 1) =~= seq![34u8]);
    lemma_sub_glue(d, pos, pos + 1, p2);
    lemma_sub_glue(d, pos, p2, p3);
    lemma_sub_glue(d, pos, p3, p4);
    assert(d.subrange(p4, p4 + 1) =~= seq![125u8]);
    lemma_sub_glue(d, pos, p4, p4 + 1);
    assert(seq![34u8] + dec_digits(id as nat) + lit_key_time() + (rfc3339_of(time) + seq![34u8])
        + seq![125u8] =~= seq![34u8] + dec_digits(id as nat) + lit_key_time() + rfc3339_of(time)
        + seq![34u8, 125u8]);
}

/// The segment of a matched whole, extracted in place.
proof fn lemma_seg(d: Seq<u8>, pos: int, whole: Seq<u8>, off: int, seg: Seq<u8>)
    requires
        0 <= pos,
        pos + whole.len() <= d.len(),
        d.subrange(pos, pos + whole.len()) == whole,
        0 <= off,
        off + seg.len() <= whole.len(),
        whole.subrange(off, off + seg.len()) == seg,
    ensures
        d.subrange(pos + off, pos + off + seg.len()) == seg,
{
    assert(d.subrange(pos + off, pos + off + seg.len()) =~= seg) by {
        assert forall|q: int| 0 <= q < seg.len() implies d[pos + off + q] == seg[q] by {
            assert(d.subrange(pos, pos + whole.len())[off + q] == d[pos + off + q]);
            assert(whole.subrange(off, off + seg.len())[q] == whole[off + q]);
        }
    }
}

/// One byte of a matched whole, extracted in place.
proof fn lemma_seg_byte(d: Seq<u8>, pos: int, whole: Seq<u8>, off: int)
    requires
        0 <= pos,
        pos + whole.len() <= d.len(),
        d.subrange(pos, pos + whole.len()) == whole,
        0 <= off < whole.len(),
    ensures
        d[pos + off] == whole[off],
{
    assert(d.subrange(pos, pos + whole.len())[off] == d[pos + off]);
}

/// At `pos`, `d` holds the current-schema notation of the record `rec`
/// under the id `id`, with a renderable timestamp.
pub open spec fn canonical_rec_v1_at(d: Seq<u8>, pos: int, id: u32, rec: DeploymentRecord) -> bool {
    &&& 0 <= pos
    &&& pos + record_v1_bytes(id, rec).len() <= d.len()
    &&& d.subrange(pos, pos + record_v1_bytes(id, rec).len()) == record_v1_bytes(id, rec)
    &&& 0 <= rec.time < TS_MAX
    &&& plain_str(rfc3339_of(rec.time))
}

/// At `pos`, `d` holds the ancestor-schema notation of a record with
/// timestamp `time` under the id `id`.
pub open spec fn canonical_rec_v2_at(d: Seq<u8>, pos: int, id: u32, time: i64) -> bool {
    &&& 0 <= pos
    &&& pos + record_v2_bytes(id, time).len() <= d.len()
    &&& d.subrange(pos, pos + record_v2_bytes(id, time).len()) == record_v2_bytes(id, time)
    &&& 0 <= time < TS_MAX
    &&& plain_str(rfc3339_of(time))
}

/// Parses one current-schema record: it must be the canonical notation —
/// on success the consumed bytes are exactly `record_v1_bytes` of the
/// result, and the canonical notation of any record parses to it.
#[verifier::rlimit(60)]
pub fn parse_record_v1(data: &Vec<u8>, pos: usize) -> (r: Option<((u32, DeploymentRecord), usize)>)
    requires
        pos <= data@.len(),
    ensures
        r matches Some(p) ==> pos < p.1 <= data@.len() && 0 <= p.0.1.time < TS_MAX
            && data@.subrange(pos as int, p.1 as int) == record_v1_bytes(p.0.0, p.0.1)
            && plain_str(rfc3339_of(p.0.1.time)),
        forall|id: u32, rec: DeploymentRecord|
            canonical_rec_v1_at(data@, pos as int, id, rec) ==> (r matches Some(p) && p.0.0 == id
                && p.0.1.time == rec.time && p.0.1.message@ == rec.message@ && p.0.1.original_id
                == rec.original_id && p.1 == pos + record_v1_bytes(id, rec).len()),
{
    let n = data.len();
    proof {
        assert forall|id: u32, rec: DeploymentRecord|
            canonical_rec_v1_at(data@, pos as int, id, rec) implies {
            let a = dec_digits(id as nat).len() as int;
            let t = rfc3339_of(rec.time).len() as int;
            let e = escape(rec.message@).len() as int;
            let b = dec_digits(rec.original_id as nat).len() as int;
            &&& data@[pos as int] == 34
            &&& canonical_num_at(data@, pos + 1, id)
            &&& data@.subrange(pos + 1 + a, pos + 12 + a) == lit_key_time()
            &&& plain_run_at(data@, pos + 12 + a, rfc3339_of(rec.time))
            &&& data@.subrange(pos + 13 + a + t, pos + 25 + a + t) == lit_message()
            &&& canonical_str_at(data@, pos + 25 + a + t, rec.message@)
            &&& data@.subrange(pos + 26 + a + t + e, pos + 41 + a + t + e) == lit_origid()
            &&& canonical_num_at(data@, pos + 41 + a + t + e, rec.original_id)
            &&& data@[pos + 41 + a + t + e + b] == 125
            &&& pos + 42 + a + t + e + b <= data@.len()
        } by {
            let ppos = pos as int;
            let r0 = record_v1_bytes(id, rec);
            let di = dec_digits(id as nat);
            let tb = rfc3339_of(rec.time);
            let em = escape(rec.message@);
            let db = dec_digits(rec.original_id as nat);
            let a = di.len() as int;
            let t = tb.len() as int;
            let e = em.len() as int;
            let b = db.len() as int;
            assert(r0.len() == 42 + a + t + e + b);
            lemma_seg_byte(data@, ppos, r0, 0);
            assert(r0.subrange(1, 1 + a) =~= di);
            lemma_seg(data@, ppos, r0, 1, di);
            lemma_seg_byte(data@, ppos, r0, 1 + a);
            assert(r0[1 + a] == 34);
            lemma_dec_digits_are_digits(id as nat);
            assert(canonical_num_at(data@, ppos + 1, id));
            assert(r0.subrange(1 + a, 12 + a) =~= lit_key_time());
            lemma_seg(data@, ppos, r0, 1 + a, lit_key_time());
            assert(r0.subrange(12 + a, 13 + a + t) =~= tb + seq![34u8]);
            lemma_seg(data@, ppos, r0, 12 + a, tb + seq![34u8]);
            assert(plain_run_at(data@, ppos + 12 + a, tb));
            assert(r0.subrange(13 + a + t, 25 + a + t) =~= lit_message());
            lemma_seg(data@, ppos, r0, 13 + a + t, lit_message());
            assert(r0.subrange(25 + a + t, 26 + a + t + e) =~= em + seq![34u8]);
            lemma_seg(data@, ppos, r0, 25 + a + t, em + seq![34u8]);
            assert(canonical_str_at(data@, ppos + 25 + a + t, rec.message@));
            assert(r0.subrange(26 + a + t + e, 41 + a + t + e) =~= lit_origid());
            lemma_seg(data@, ppos, r0, 26 + a + t + e, lit_origid());
            assert(r0.subrange(41 + a + t + e, 41 + a + t + e + b) =~= db);
            lemma_seg(data@, ppos, r0, 41 + a + t + e, db);
            lemma_seg_byte(data@, ppos, r0, 41 + a + t + e + b);
            assert(r0[41 + a + t + e + b] == 125);
            lemma_dec_digits_are_digits(rec.original_id as nat);
            assert(canonical_num_at(data@, ppos + 41 + a + t + e, rec.original_id));
        }
    }
    if pos >= n || data[pos] != 34 {
        return Option::None;
    }
    let p1 = pos + 1;
    let id: u32;
    let p2: usize;
    match parse_u32(data, p1) {
        Option::Some(x) => {
            id = x.0;
            p2 = x.1;
        },
        Option::None => {
            return Option::None;
        },
    }
    let ltk = lit_key_time_vec();
    let p3: usize;
    match expect_vec(data, p2, &ltk) {
        Option::Some(x) => {
            p3 = x;
        },
        Option::None => {
            return Option::None;
        },
    }
    let timeb: Vec<u8>;
    let p4: usize;
    match scan_plain(data, p3) {
        Option::Some(x) => {
            timeb = x.0;
            p4 = x.1;
        },
        Option::None => {
            return Option::None;
        },
    }
    let time: i64;
    match crate::time::parse_rfc3339(&timeb) {
        Option::Some(t) => {
            time = t;
        },
        Option::None => {
            return Option::None;
        },
    }
    let canon = crate::time::format_rfc3339(time);
    if !bytes_eq(&timeb, &canon) {
        // Only the canonical rendering of the instant is accepted.
        return Option::None;
    }
    let lm = lit_message_vec();
    let p5: usize;
    match expect_vec(data, p4, &lm) {
        Option::Some(x) => {
            p5 = x;
        },
        Option::None => {
            return Option::None;
        },
    }
    let msg: Vec<u8>;
    let p6: usize;
    match parse_string(data, p5) {
        Option::Some(x) => {
            msg = x.0;
            p6 = x.1;
        },
        Option::None => {
            return Option::None;
        },
    }
    let lo = lit_origid_vec();
    let p7: usize;
    match expect_vec(data, p6, &lo) {
        Option::Some(x) => {
            p7 = x;
        },
        Option::None => {
            return Option::None;
        },
    }
    let oid: u32;
    let p8: usize;
    match parse_u32(data, p7) {
        Option::Some(x) => {
            oid = x.0;
            p8 = x.1;
        },
        Option::None => {
            return Option::None;
        },
    }
    if p8 >= n || data[p8] != 125 {
        return Option::None;
    }
    let rec = DeploymentRecord { time, message: msg, original_id: oid };
    proof {
        assert(timeb@ == rfc3339_of(time));
        lemma_record_v1_assemble(
            data@,
            pos as int,
            p2 as int,
            p3 as int,
            p4 as int,
            p5 as int,
            p6 as int,
            p7 as int,
            p8 as int,
            id,
            time,
            msg@,
            oid,
        );
        assert(record_v1_bytes(id, rec) == seq![34u8] + dec_digits(id as nat) + lit_key_time()
            + rfc3339_of(time) + seq![34u8] + lit_message() + escape(msg@) + seq![34u8]
            + lit_origid() + dec_digits(oid as nat) + seq![125u8]);
        assert(plain_str(rfc3339_of(time))) by {
            assert(canon@ == rfc3339_of(time));
        }
    }
    Option::Some(((id, rec), p8 + 1))
}

/// Parses one ancestor-schema record: it must be the canonical notation —
/// on success the consumed bytes are exactly `record_v2_bytes` of the
/// result, and the canonical notation of any record parses to it.
#[verifier::rlimit(30)]
pub fn parse_record_v2(data: &Vec<u8>, pos: usize) -> (r: Option<((u32, i64), usize)>)
    requires
        pos <= data@.len(),
    ensures
        r matches Some(p) ==> pos < p.1 <= data@.len() && 0 <= p.0.1 < TS_MAX
            && data@.subrange(pos as int, p.1 as int) == record_v2_bytes(p.0.0, p.0.1)
            && plain_str(rfc3339_of(p.0.1)),
        forall|id: u32, time: i64|
            canonical_rec_v2_at(data@, pos as int, id, time) ==> (r matches Some(p) && p.0.0 == id
                && p.0.1 == time && p.1 == pos + record_v2_bytes(id, time).len()),
{
    let n = data.len();
    proof {
        assert forall|id: u32, time: i64|
            canonical_rec_v2_at(data@, pos as int, id, time) implies {
            let a = dec_digits(id as nat).len() as int;
            let t = rfc3339_of(time).len() as int;
            &&& data@[pos as int] == 34
            &&& canonical_num_at(data@, pos + 1, id)
            &&& data@.subrange(pos + 1 + a, pos + 12 + a) == lit_key_time()
            &&& plain_run_at(data@, pos + 12 + a, rfc3339_of(time))
            &&& data@[pos + 13 + a + t] == 125
            &&& pos + 14 + a + t <= data@.len()
        } by {
            let ppos = pos as int;
            let r0 = record_v2_bytes(id, time);
            let di = dec_digits(id as nat);
            let tb = rfc3339_of(time);
            let a = di.len() as int;
            let t = tb.len() as int;
            assert(r0.len() == 14 + a + t);
            lemma_seg_byte(data@, ppos, r0, 0);
            assert(r0.subrange(1, 1 + a) =~= di);
            lemma_seg(data@, ppos, r0, 1, di);
            lemma_seg_byte(data@, ppos, r0, 1 + a);
            assert(r0[1 + a] == 34);
            lemma_dec_digits_are_digits(id as nat);
            assert(canonical_num_at(data@, ppos + 1, id));
            assert(r0.subrange(1 + a, 12 + a) =~= lit_key_time());
            lemma_seg(data@, ppos, r0, 1 + a, lit_key_time());
            assert(r0.subrange(12 + a, 13 + a + t) =~= tb + seq![34u8]);
            lemma_seg(data@, ppos, r0, 12 + a, tb + seq![34u8]);
            assert(plain_run_at(data@, ppos + 12 + a, tb));
            lemma_seg_byte(data@, ppos, r0, 13 + a + t);
            assert(r0[13 + a + t] == 125);
        }
    }
    if pos >= n || data[pos] != 34 {
        return Option::None;
    }
    let id: u32;
    let p2: usize;
    match parse_u32(data, pos + 1) {
        Option::Some(x) => {
            id = x.0;
            p2 = x.1;
        },
        Option::None => {
            return Option::None;
        },
    }
    let ltk = lit_key_time_vec();
    let p3: usize;
    match expect_vec(data, p2, &ltk) {
        Option::Some(x) => {
            p3 = x;
        },
        Option::None => {
            return Option::None;
        },
    }
    let timeb: Vec<u8>;
    let p4: usize;
    match scan_plain(data, p3) {
        Option::Some(x) => {
            timeb = x.0;
            p4 = x.1;
        },
        Option::None => {
            return Option::None;
        },
    }
    let time: i64;
    match crate::time::parse_rfc3339(&timeb) {
        Option::Some(t) => {
            time = t;
        },
        Option::None => {
            return Option::None;
        },
    }
    let canon = crate::time::format_rfc3339(time);
    if !bytes_eq(&timeb, &canon) {
        // Only the canonical rendering of the instant is accepted.
        return Option::None;
    }
    if p4 >= n || data[p4] != 125 {
        return Option::None;
    }
    proof {
        assert(timeb@ == rfc3339_of(time));
        lemma_record_v2_assemble(data@, pos as int, p2 as int, p3 as int, p4 as int, id, time);
        assert(record_v2_bytes(id, time) == seq![34u8] + dec_digits(id as nat) + lit_key_time()
            + rfc3339_of(time) + seq![34u8, 125u8]);
        assert(plain_str(rfc3339_of(time))) by {
            assert(canon@ == rfc3339_of(time));
        }
    }
    Option::Some(((id, time), p4 + 1))
}

/// The notation of the record entries, joined with commas, in sequence
/// order.
pub open spec fn entries_v1_bytes(es: Seq<(u32, DeploymentRecord)>) -> Seq<u8>
    decreases es.len(),
{
    if es.len() == 0 {
        Seq::empty()
    } else if es.len() == 1 {
        record_v1_bytes(es[0].0, es[0].1)
    } else {
        record_v1_bytes(es[0].0, es[0].1) + seq![44u8] + entries_v1_bytes(es.skip(1))
    }
}

/// The ancestor-schema notation of the record entries.
pub open spec fn entries_v2_bytes(es: Seq<(u32, i64)>) -> Seq<u8>
    decreases es.len(),
{
    if es.len() == 0 {
        Seq::empty()
    } else if es.len() == 1 {
        record_v2_bytes(es[0].0, es[0].1)
    } else {
        record_v2_bytes(es[0].0, es[0].1) + seq![44u8] + entries_v2_bytes(es.skip(1))
    }
}

/// Every entry's timestamp is in range and renders as a plain string.
pub open spec fn entries_ok_v1(es: Seq<(u32, DeploymentRecord)>) -> bool {
    forall|k: int|
        0 <= k < es.len() ==> 0 <= #[trigger] es[k].1.time < TS_MAX && plain_str(
            rfc3339_of(es[k].1.time),
        )
}

/// Every ancestor entry's timestamp is in range and renders plainly.
pub open spec fn entries_ok_v2(es: Seq<(u32, i64)>) -> bool {
    forall|k: int|
        0 <= k < es.len() ==> 0 <= #[trigger] es[k].1 < TS_MAX && plain_str(rfc3339_of(es[k].1))
}

/// At `pos`, `d` holds the entries of `es` followed by the object's
/// closing brace.
pub open spec fn canonical_entries_v1_at(
    d: Seq<u8>,
    pos: int,
    es: Seq<(u32, DeploymentRecord)>,
) -> bool {
    &&& 0 <= pos
    &&& pos + entries_v1_bytes(es).len() + 1 <= d.len()
    &&& d.subrange(pos, pos + entries_v1_bytes(es).len() + 1) == entries_v1_bytes(es)
        + seq![125u8]
    &&& entries_ok_v1(es)
}

/// At `pos`, `d` holds the ancestor entries of `es` and the closing brace.
pub open spec fn canonical_entries_v2_at(d: Seq<u8>, pos: int, es: Seq<(u32, i64)>) -> bool {
    &&& 0 <= pos
    &&& pos + entries_v2_bytes(es).len() + 1 <= d.len()
    &&& d.subrange(pos, pos + entries_v2_bytes(es).len() + 1) == entries_v2_bytes(es)
        + seq![125u8]
    &&& entries_ok_v2(es)
}

/// Entry sequences that agree field by field.
pub open spec fn same_entries(
    a: Seq<(u32, DeploymentRecord)>,
    b: Seq<(u32, DeploymentRecord)>,
) -> bool {
    &&& a.len() == b.len()
    &&& forall|k: int|
        0 <= k < a.len() ==> #[trigger] a[k].0 == b[k].0 && a[k].1.time == b[k].1.time
            && a[k].1.message@ == b[k].1.message@ && a[k].1.original_id == b[k].1.original_id
}

/// Appending an entry appends its notation, after a comma when entries
/// already stand there.
proof fn lemma_entries_v1_push(es: Seq<(u32, DeploymentRecord)>, e: (u32, DeploymentRecord))
    ensures
        entries_v1_bytes(es.push(e)) == if es.len() == 0 {
            record_v1_bytes(e.0, e.1)
        } else {
            entries_v1_bytes(es) + seq![44u8] + record_v1_bytes(e.0, e.1)
        },
    decreases es.len(),
{
    if es.len() == 0 {
        assert(es.push(e)[0] == e);
        assert(entries_v1_bytes(es.push(e)) == record_v1_bytes(e.0, e.1));
    } else {
        lemma_entries_v1_push(es.skip(1), e);
        assert(es.push(e).skip(1) =~= es.skip(1).push(e));
        assert(es.push(e)[0] == es[0]);
        assert(entries_v1_bytes(es.push(e)) =~= entries_v1_bytes(es) + seq![44u8]
            + record_v1_bytes(e.0, e.1));
    }
}

/// The same, for the ancestor schema.
proof fn lemma_entries_v2_push(es: Seq<(u32, i64)>, e: (u32, i64))
    ensures
        entries_v2_bytes(es.push(e)) == if es.len() == 0 {
            record_v2_bytes(e.0, e.1)
        } else {
            entries_v2_bytes(es) + seq![44u8] + record_v2_bytes(e.0, e.1)
        },
    decreases es.len(),
{
    if es.len() == 0 {
        assert(es.push(e)[0] == e);
        assert(entries_v2_bytes(es.push(e)) == record_v2_bytes(e.0, e.1));
    } else {
        lemma_entries_v2_push(es.skip(1), e);
        assert(es.push(e).skip(1) =~= es.skip(1).push(e));
        assert(es.push(e)[0] == es[0]);
        assert(entries_v2_bytes(es.push(e)) =~= entries_v2_bytes(es) + seq![44u8]
            + record_v2_bytes(e.0, e.1));
    }
}

/// The notation splits at any entry boundary.
proof fn lemma_entries_v1_split(es: Seq<(u32, DeploymentRecord)>, k: int)
    requires
        0 <= k < es.len(),
    ensures
        entries_v1_bytes(es) == entries_v1_bytes(es.take(k)) + (if k > 0 {
            seq![44u8]
        } else {
            Seq::<u8>::empty()
        }) + entries_v1_bytes(es.skip(k)),
    decreases k,
{
    if k == 0 {
        assert(es.take(0) =~= Seq::<(u32, DeploymentRecord)>::empty());
        assert(es.skip(0) =~= es);
        assert(entries_v1_bytes(es.take(0)) + Seq::<u8>::empty() + entries_v1_bytes(es.skip(0))
            =~= entries_v1_bytes(es));
    } else {
        lemma_entries_v1_split(es, k - 1);
        let prev = es.take(k - 1);
        let cur = es.take(k);
        assert(cur =~= prev.push(es[k - 1]));
        lemma_entries_v1_push(prev, es[k - 1]);
        assert(es.skip(k - 1).len() == es.len() - (k - 1));
        assert(es.skip(k - 1)[0] == es[k - 1]);
        assert(es.skip(k - 1).skip(1) =~= es.skip(k));
        assert(entries_v1_bytes(es.skip(k - 1)) == record_v1_bytes(es[k - 1].0, es[k - 1].1)
            + seq![44u8] + entries_v1_bytes(es.skip(k)));
        assert(entries_v1_bytes(es) =~= entries_v1_bytes(cur) + seq![44u8] + entries_v1_bytes(
            es.skip(k),
        ));
    }
}

/// The same, for the ancestor schema.
proof fn lemma_entries_v2_split(es: Seq<(u32, i64)>, k: int)
    requires
        0 <= k < es.len(),
    ensures
        entries_v2_bytes(es) == entries_v2_bytes(es.take(k)) + (if k > 0 {
            seq![44u8]
        } else {
            Seq::<u8>::empty()
        }) + entries_v2_bytes(es.skip(k)),
    decreases k,
{
    if k == 0 {
        assert(es.take(0) =~= Seq::<(u32, i64)>::empty());
        assert(es.skip(0) =~= es);
        assert(entries_v2_bytes(es.take(0)) + Seq::<u8>::empty() + entries_v2_bytes(es.skip(0))
            =~= entries_v2_bytes(es));
    } else {
        lemma_entries_v2_split(es, k - 1);
        let prev = es.take(k - 1);
        let cur = es.take(k);
        assert(cur =~= prev.push(es[k - 1]));
        lemma_entries_v2_push(prev, es[k - 1]);
        assert(es.skip(k - 1).len() == es.len() - (k - 1));
        assert(es.skip(k - 1)[0] == es[k - 1]);
        assert(es.skip(k - 1).skip(1) =~= es.skip(k));
        assert(entries_v2_bytes(es.skip(k - 1)) == record_v2_bytes(es[k - 1].0, es[k - 1].1)
            + seq![44u8] + entries_v2_bytes(es.skip(k)));
        assert(entries_v2_bytes(es) =~= entries_v2_bytes(cur) + seq![44u8] + entries_v2_bytes(
            es.skip(k),
        ));
    }
}

/// Parses the deployments object's entries up to and including its closing
/// brace, in file order. Exact on the canonical notation of any entry
/// sequence.
#[verifier::rlimit(60)]
pub fn parse_entries_v1(data: &Vec<u8>, pos: usize) -> (r: Option<
    (Vec<(u32, DeploymentRecord)>, usize),
>)
    requires
        pos <= data@.len(),
    ensures
        r matches Some(p) ==> pos < p.1 <= data@.len() && data@.subrange(pos as int, p.1 as int)
            == entries_v1_bytes(p.0@) + seq![125u8] && entries_ok_v1(p.0@),
        forall|es: Seq<(u32, DeploymentRecord)>|
            canonical_entries_v1_at(data@, pos as int, es) ==> (r is Some && same_entries(
                r.unwrap().0@,
                es,
            ) && r.unwrap().1 == pos + entries_v1_bytes(es).len() + 1),
{
    let n = data.len();
    if pos >= n {
        return Option::None;
    }
    if data[pos] == 125 {
        proof {
            assert forall|es: Seq<(u32, DeploymentRecord)>|
                canonical_entries_v1_at(data@, pos as int, es) implies es.len() == 0 by {
                if es.len() > 0 {
                    let whole = entries_v1_bytes(es) + seq![125u8];
                    lemma_seg_byte(data@, pos as int, whole, 0);
                    assert(whole[0] == 34);
                }
            }
        }
        let empty: Vec<(u32, DeploymentRecord)> = Vec::new();
        proof {
            assert(data@.subrange(pos as int, pos + 1) =~= entries_v1_bytes(empty@)
                + seq![125u8]);
        }
        return Option::Some((empty, pos + 1));
    }
    let mut acc: Vec<(u32, DeploymentRecord)> = Vec::new();
    let mut i: usize = pos;
    proof {
        assert forall|es: Seq<(u32, DeploymentRecord)>|
            canonical_entries_v1_at(data@, pos as int, es) implies es.len() > 0 by {
            if es.len() == 0 {
                let whole = entries_v1_bytes(es) + seq![125u8];
                lemma_seg_byte(data@, pos as int, whole, 0);
            }
        }
        assert(same_entries(acc@, Seq::<(u32, DeploymentRecord)>::empty()));
        assert(data@.subrange(pos as int, pos as int) =~= entries_v1_bytes(acc@) + Seq::<
            u8,
        >::empty());
    }
    loop
        invariant
            pos <= i <= n,
            n == data@.len(),
            entries_ok_v1(acc@),
            data@.subrange(pos as int, i as int) == entries_v1_bytes(acc@) + (if acc@.len() > 0 {
                seq![44u8]
            } else {
                Seq::<u8>::empty()
            }),
            forall|es: Seq<(u32, DeploymentRecord)>|
                canonical_entries_v1_at(data@, pos as int, es) ==> {
                    let k = acc@.len() as int;
                    &&& k < es.len()
                    &&& same_entries(acc@, es.take(k))
                    &&& i as int == pos + entries_v1_bytes(es.take(k)).len() + (if k > 0 {
                        1int
                    } else {
                        0int
                    })
                },
        decreases n - i,
    {
        proof {
            assert forall|es: Seq<(u32, DeploymentRecord)>|
                canonical_entries_v1_at(data@, pos as int, es) implies {
                let k = acc@.len() as int;
                &&& canonical_rec_v1_at(data@, i as int, es[k].0, es[k].1)
                &&& data@[i + record_v1_bytes(es[k].0, es[k].1).len()] == (if k + 1 < es.len() {
                    44u8
                } else {
                    125u8
                })
                &&& i + record_v1_bytes(es[k].0, es[k].1).len() < pos + entries_v1_bytes(es).len()
                    + 1
            } by {
                let k = acc@.len() as int;
                let whole = entries_v1_bytes(es) + seq![125u8];
                lemma_entries_v1_split(es, k);
                let glue: int = if k > 0 {
                    1int
                } else {
                    0int
                };
                let prefix = entries_v1_bytes(es.take(k)).len() + glue;
                let suf = es.skip(k);
                assert(suf[0] == es[k]);
                let rb = record_v1_bytes(es[k].0, es[k].1);
                if suf.len() == 1 {
                    assert(entries_v1_bytes(suf) == rb);
                } else {
                    assert(suf.skip(1).len() > 0);
                    assert(entries_v1_bytes(suf) == rb + seq![44u8] + entries_v1_bytes(
                        suf.skip(1),
                    ));
                    assert(entries_v1_bytes(suf.skip(1)).len() > 0) by {
                        assert(entries_v1_bytes(suf.skip(1)).len() >= record_v1_bytes(
                            suf.skip(1)[0].0,
                            suf.skip(1)[0].1,
                        ).len());
                        crate::digits::lemma_dec_digits_are_digits(suf.skip(1)[0].0 as nat);
                    }
                }
                assert(whole.subrange(prefix, prefix + rb.len()) =~= rb);
                lemma_seg(data@, pos as int, whole, prefix, rb);
                assert(es[k].1.time < TS_MAX && plain_str(rfc3339_of(es[k].1.time)));
                assert(canonical_rec_v1_at(data@, i as int, es[k].0, es[k].1));
                lemma_seg_byte(data@, pos as int, whole, prefix + rb.len());
                if suf.len() == 1 {
                    assert(whole[prefix + rb.len()] == 125);
                } else {
                    assert(whole[prefix + rb.len()] == 44);
                }
            }
        }
        let id: u32;
        let rec: DeploymentRecord;
        let p: usize;
        match parse_record_v1(data, i) {
            Option::Some(x) => {
                id = x.0.0;
                rec = x.0.1;
                p = x.1;
            },
            Option::None => {
                return Option::None;
            },
        }
        if p >= n {
            return Option::None;
        }
        let c = data[p];
        let ghost pre = acc@;
        acc.push((id, rec));
        proof {
            assert forall|es: Seq<(u32, DeploymentRecord)>|
                canonical_entries_v1_at(data@, pos as int, es) implies {
                let k = acc@.len() as int;
                &&& k <= es.len()
                &&& same_entries(acc@, es.take(k))
                &&& p as int == pos + entries_v1_bytes(es.take(k)).len()
            } by {
                let k0 = pre.len() as int;
                assert(acc@ =~= pre.push((id, rec)));
                assert(same_entries(acc@, es.take(k0 + 1))) by {
                    assert(es.take(k0 + 1) =~= es.take(k0).push(es[k0]));
                }
                lemma_entries_v1_push(es.take(k0), es[k0]);
                assert(es.take(k0).push(es[k0]) =~= es.take(k0 + 1));
                assert(entries_v1_bytes(es.take(k0 + 1)).len() == entries_v1_bytes(
                    es.take(k0),
                ).len() + (if k0 > 0 {
                    1int
                } else {
                    0int
                }) + record_v1_bytes(es[k0].0, es[k0].1).len());
            }
            assert(acc@ =~= pre.push((id, rec)));
            lemma_entries_v1_push(pre, (id, rec));
            lemma_sub_glue(data@, pos as int, i as int, p as int);
            assert(data@.subrange(pos as int, p as int) =~= entries_v1_bytes(acc@));
            assert(entries_ok_v1(acc@)) by {
                assert forall|k: int|
                    0 <= k < acc@.len() implies 0 <= #[trigger] acc@[k].1.time < TS_MAX
                    && plain_str(rfc3339_of(acc@[k].1.time)) by {
                    if k < pre.len() {
                        assert(acc@[k] == pre[k]);
                        assert(0 <= pre[k].1.time < TS_MAX && plain_str(
                            rfc3339_of(pre[k].1.time),
                        ));
                    } else {
                        assert(acc@[k] == (id, rec));
                    }
                }
            }
        }
        if c == 44 {
            i = p + 1;
            proof {
                assert forall|es: Seq<(u32, DeploymentRecord)>|
                    canonical_entries_v1_at(data@, pos as int, es) implies acc@.len() < es.len() by {
                    let k = acc@.len() as int;
                    if k == es.len() {
                        assert(data@[p as int] == 125);
                    }
                }
                lemma_sub_glue(data@, pos as int, p as int, p + 1);
                assert(data@.subrange(p as int, p + 1) =~= seq![44u8]);
                assert(data@.subrange(pos as int, p + 1) =~= entries_v1_bytes(acc@)
                    + seq![44u8]);
            }
        } else if c == 125 {
            proof {
                assert forall|es: Seq<(u32, DeploymentRecord)>|
                    #![trigger canonical_entries_v1_at(data@, pos as int, es)]
                    canonical_entries_v1_at(data@, pos as int, es) implies same_entries(acc@, es)
                    && p + 1 == pos + entries_v1_bytes(es).len() + 1 by {
                    let k = acc@.len() as int;
                    if k < es.len() {
                        assert(data@[p as int] == 44);
                    }
                    assert(es.take(es.len() as int) =~= es);
                }
                lemma_sub_glue(data@, pos as int, p as int, p + 1);
                assert(data@.subrange(p as int, p + 1) =~= seq![125u8]);
                assert(data@.subrange(pos as int, p + 1) =~= entries_v1_bytes(acc@)
                    + seq![125u8]);
            }
            return Option::Some((acc, p + 1));
        } else {
            return Option::None;
        }
    }
}

/// Parses the ancestor-schema deployments object's entries, in file order.
#[verifier::rlimit(60)]
pub fn parse_entries_v2(data: &Vec<u8>, pos: usize) -> (r: Option<(Vec<(u32, i64)>, usize)>)
    requires
        pos <= data@.len(),
    ensures
        r matches Some(p) ==> pos < p.1 <= data@.len() && data@.subrange(pos as int, p.1 as int)
            == entries_v2_bytes(p.0@) + seq![125u8] && entries_ok_v2(p.0@),
        forall|es: Seq<(u32, i64)>|
            canonical_entries_v2_at(data@, pos as int, es) ==> (r matches Some(p) && p.0@ == es
                && p.1 == pos + entries_v2_bytes(es).len() + 1),
{
    let n = data.len();
    if pos >= n {
        return Option::None;
    }
    if data[pos] == 125 {
        proof {
            assert forall|es: Seq<(u32, i64)>|
                canonical_entries_v2_at(data@, pos as int, es) implies es.len() == 0 by {
                if es.len() > 0 {
                    let whole = entries_v2_bytes(es) + seq![125u8];
                    lemma_seg_byte(data@, pos as int, whole, 0);
                    assert(whole[0] == 34);
                }
            }
            assert forall|es: Seq<(u32, i64)>|
                canonical_entries_v2_at(data@, pos as int, es) && es.len() == 0 implies Seq::<
                (u32, i64),
            >::empty() == es by {
                assert(Seq::<(u32, i64)>::empty() =~= es);
            }
        }
        let empty: Vec<(u32, i64)> = Vec::new();
        proof {
            assert(data@.subrange(pos as int, pos + 1) =~= entries_v2_bytes(empty@)
                + seq![125u8]);
        }
        return Option::Some((empty, pos + 1));
    }
    let mut acc: Vec<(u32, i64)> = Vec::new();
    let mut i: usize = pos;
    proof {
        assert forall|es: Seq<(u32, i64)>|
            canonical_entries_v2_at(data@, pos as int, es) implies es.len() > 0 by {
            if es.len() == 0 {
                let whole = entries_v2_bytes(es) + seq![125u8];
                lemma_seg_byte(data@, pos as int, whole, 0);
            }
        }
        assert(acc@ =~= Seq::<(u32, i64)>::empty());
        assert(data@.subrange(pos as int, pos as int) =~= entries_v2_bytes(acc@) + Seq::<
            u8,
        >::empty());
    }
    loop
        invariant
            pos <= i <= n,
            n == data@.len(),
            entries_ok_v2(acc@),
            data@.subrange(pos as int, i as int) == entries_v2_bytes(acc@) + (if acc@.len() > 0 {
                seq![44u8]
            } else {
                Seq::<u8>::empty()
            }),
            forall|es: Seq<(u32, i64)>|
                canonical_entries_v2_at(data@, pos as int, es) ==> {
                    let k = acc@.len() as int;
                    &&& k < es.len()
                    &&& acc@ == es.take(k)
                    &&& i as int == pos + entries_v2_bytes(es.take(k)).len() + (if k > 0 {
                        1int
                    } else {
                        0int
                    })
                },
        decreases n - i,
    {
        proof {
            assert forall|es: Seq<(u32, i64)>|
                canonical_entries_v2_at(data@, pos as int, es) implies {
                let k = acc@.len() as int;
                &&& canonical_rec_v2_at(data@, i as int, es[k].0, es[k].1)
                &&& data@[i + record_v2_bytes(es[k].0, es[k].1).len()] == (if k + 1 < es.len() {
                    44u8
                } else {
                    125u8
                })
                &&& i + record_v2_bytes(es[k].0, es[k].1).len() < pos + entries_v2_bytes(es).len()
                    + 1
            } by {
                let k = acc@.len() as int;
                let whole = entries_v2_bytes(es) + seq![125u8];
                lemma_entries_v2_split(es, k);
                let glue: int = if k > 0 {
                    1int
                } else {
                    0int
                };
                let prefix = entries_v2_bytes(es.take(k)).len() + glue;
                let suf = es.skip(k);
                assert(suf[0] == es[k]);
                let rb = record_v2_bytes(es[k].0, es[k].1);
                if suf.len() == 1 {
                    assert(entries_v2_bytes(suf) == rb);
                } else {
                    assert(entries_v2_bytes(suf) == rb + seq![44u8] + entries_v2_bytes(
                        suf.skip(1),
                    ));
                    assert(entries_v2_bytes(suf.skip(1)).len() > 0) by {
                        assert(entries_v2_bytes(suf.skip(1)).len() >= record_v2_bytes(
                            suf.skip(1)[0].0,
                            suf.skip(1)[0].1,
                        ).len());
                        crate::digits::lemma_dec_digits_are_digits(suf.skip(1)[0].0 as nat);
                    }
                }
                assert(whole.subrange(prefix, prefix + rb.len()) =~= rb);
                lemma_seg(data@, pos as int, whole, prefix, rb);
                assert(es[k].1 < TS_MAX && plain_str(rfc3339_of(es[k].1)));
                assert(canonical_rec_v2_at(data@, i as int, es[k].0, es[k].1));
                lemma_seg_byte(data@, pos as int, whole, prefix + rb.len());
                if suf.len() == 1 {
                    assert(whole[prefix + rb.len()] == 125);
                } else {
                    assert(whole[prefix + rb.len()] == 44);
                }
            }
        }
        let id: u32;
        let time: i64;
        let p: usize;
        match parse_record_v2(data, i) {
            Option::Some(x) => {
                id = x.0.0;
                time = x.0.1;
                p = x.1;
            },
            Option::None => {
                return Option::None;
            },
        }
        if p >= n {
            return Option::None;
        }
        let c = data[p];
        let ghost pre = acc@;
        acc.push((id, time));
        proof {
            assert forall|es: Seq<(u32, i64)>|
                canonical_entries_v2_at(data@, pos as int, es) implies {
                let k = acc@.len() as int;
                &&& k <= es.len()
                &&& acc@ == es.take(k)
                &&& p as int == pos + entries_v2_bytes(es.take(k)).len()
            } by {
                let k0 = pre.len() as int;
                assert(acc@ =~= pre.push((id, time)));
                assert(acc@ =~= es.take(k0 + 1)) by {
                    assert(es.take(k0 + 1) =~= es.take(k0).push(es[k0]));
                    assert((id, time) == es[k0]);
                }
                lemma_entries_v2_push(es.take(k0), es[k0]);
                assert(es.take(k0).push(es[k0]) =~= es.take(k0 + 1));
                assert(entries_v2_bytes(es.take(k0 + 1)).len() == entries_v2_bytes(
                    es.take(k0),
                ).len() + (if k0 > 0 {
                    1int
                } else {
                    0int
                }) + record_v2_bytes(es[k0].0, es[k0].1).len());
            }
            assert(acc@ =~= pre.push((id, time)));
            lemma_entries_v2_push(pre, (id, time));
            lemma_sub_glue(data@, pos as int, i as int, p as int);
            assert(data@.subrange(pos as int, p as int) =~= entries_v2_bytes(acc@));
            assert(entries_ok_v2(acc@)) by {
                assert forall|k: int|
                    0 <= k < acc@.len() implies 0 <= #[trigger] acc@[k].1 < TS_MAX && plain_str(
                    rfc3339_of(acc@[k].1),
                ) by {
                    if k < pre.len() {
                        assert(acc@[k] == pre[k]);
                        assert(0 <= pre[k].1 < TS_MAX && plain_str(rfc3339_of(pre[k].1)));
                    } else {
                        assert(acc@[k] == (id, time));
                    }
                }
            }
        }
        if c == 44 {
            i = p + 1;
            proof {
                assert forall|es: Seq<(u32, i64)>|
                    canonical_entries_v2_at(data@, pos as int, es) implies acc@.len() < es.len() by {
                    let k = acc@.len() as int;
                    if k == es.len() {
                        assert(data@[p as int] == 125);
                    }
                }
                lemma_sub_glue(data@, pos as int, p as int, p + 1);
                assert(data@.subrange(p as int, p + 1) =~= seq![44u8]);
                assert(data@.subrange(pos as int, p + 1) =~= entries_v2_bytes(acc@)
                    + seq![44u8]);
            }
        } else if c == 125 {
            proof {
                assert forall|es: Seq<(u32, i64)>|
                    canonical_entries_v2_at(data@, pos as int, es) implies acc@ == es && p + 1
                    == pos + entries_v2_bytes(es).len() + 1 by {
                    let k = acc@.len() as int;
                    if k < es.len() {
                        assert(data@[p as int] == 44);
                    }
                    assert(es.take(es.len() as int) =~= es);
                }
                lemma_sub_glue(data@, pos as int, p as int, p + 1);
                assert(data@.subrange(p as int, p + 1) =~= seq![125u8]);
                assert(data@.subrange(pos as int, p + 1) =~= entries_v2_bytes(acc@)
                    + seq![125u8]);
            }
            return Option::Some((acc, p + 1));
        } else {
            return Option::None;
        }
    }
}

/// The notation of the current pointer: `null`, or the id in decimal.
pub open spec fn current_bytes(c: Option<u32>) -> Seq<u8> {
    match c {
        Option::None => lit_null(),
        Option::Some(x) => dec_digits(x as nat),
    }
}

/// The current-schema document for the state `s`.
pub open spec fn state_doc_bytes(s: TargetState) -> Seq<u8> {
    lit_doc_open() + seq![49u8] + lit_schema() + entries_v1_bytes(s.deployments@) + seq![125u8]
        + lit_current() + current_bytes(s.current) + lit_target() + escape(s.target@) + seq![
        34u8,
        125u8,
        125u8,
    ]
}

/// The ancestor-schema document over its own record shape.
pub open spec fn state_doc_v2_bytes(es: Seq<(u32, i64)>, cur: Option<u32>, target: Seq<u8>) -> Seq<
    u8,
> {
    lit_doc_open() + seq![50u8] + lit_schema() + entries_v2_bytes(es) + seq![125u8] + lit_current()
        + current_bytes(cur) + lit_target() + escape(target) + seq![34u8, 125u8, 125u8]
}

/// `d` is the canonical current-schema document of `s`, every timestamp
/// renderable.
pub open spec fn canonical_doc_v1(d: Seq<u8>, s: TargetState) -> bool {
    d == state_doc_bytes(s) && entries_ok_v1(s.deployments@)
}

/// `d` is the canonical ancestor-schema document of the given parts.
pub open spec fn canonical_doc_v2(
    d: Seq<u8>,
    es: Seq<(u32, i64)>,
    cur: Option<u32>,
    target: Seq<u8>,
) -> bool {
    d == state_doc_v2_bytes(es, cur, target) && entries_ok_v2(es)
}

/// The whole current-schema document, from its parts.
pub open spec fn doc_parts_v1(
    entries: Seq<(u32, DeploymentRecord)>,
    cur: Option<u32>,
    tgt: Seq<u8>,
) -> Seq<u8> {
    lit_doc_open() + seq![49u8] + lit_schema() + entries_v1_bytes(entries) + seq![125u8]
        + lit_current() + current_bytes(cur) + lit_target() + escape(tgt) + seq![
        34u8,
        125u8,
        125u8,
    ]
}

/// The whole ancestor-schema document, from its parts.
pub open spec fn doc_parts_v2(entries: Seq<(u32, i64)>, cur: Option<u32>, tgt: Seq<u8>) -> Seq<
    u8,
> {
    lit_doc_open() + seq![50u8] + lit_schema() + entries_v2_bytes(entries) + seq![125u8]
        + lit_current() + current_bytes(cur) + lit_target() + escape(tgt) + seq![
        34u8,
        125u8,
        125u8,
    ]
}

/// The bytes `data` are a document this library loads as the state `st`:
/// the canonical current-schema document of `st`, or the canonical
/// ancestor-schema document that upgrades to `st` — every record's message
/// empty and its original id its own.
pub open spec fn loadable_doc(data: Seq<u8>, st: TargetState) -> bool {
    ||| data == state_doc_bytes(st)
    ||| {
        &&& data == state_doc_v2_bytes(
            st.deployments@.map_values(|p: (u32, DeploymentRecord)| (p.0, p.1.time)),
            st.current,
            st.target@,
        )
        &&& forall|k: int|
            0 <= k < st.deployments@.len() ==> (#[trigger] st.deployments@[k]).1.message@
                == Seq::<u8>::empty() && st.deployments@[k].1.original_id
                == st.deployments@[k].0
    }
}

/// The canonical ancestor-schema document whose upgrade is `s`.
pub open spec fn ancestor_doc_of(s: TargetState) -> Seq<u8> {
    state_doc_v2_bytes(
        s.deployments@.map_values(|p: (u32, DeploymentRecord)| (p.0, p.1.time)),
        s.current,
        s.target@,
    )
}

/// `s` has the shape an ancestor-schema document upgrades to: every
/// record's message empty and its original id its own.
pub open spec fn upgraded_shape(s: TargetState) -> bool {
    forall|k: int|
        0 <= k < s.deployments@.len() ==> (#[trigger] s.deployments@[k]).1.message@ == Seq::<
            u8,
        >::empty() && s.deployments@[k].1.original_id == s.deployments@[k].0
}

/// `d` is the canonical ancestor-schema document that loads as `s`.
pub open spec fn canonical_ancestor_doc(d: Seq<u8>, s: TargetState) -> bool {
    &&& d == ancestor_doc_of(s)
    &&& upgraded_shape(s)
    &&& entries_ok_v2(s.deployments@.map_values(|p: (u32, DeploymentRecord)| (p.0, p.1.time)))
}

/// The pieces of one parsed document assemble to the whole.
proof fn lemma_doc_assemble(
    d: Seq<u8>,
    pe: int,
    pc2: int,
    pcur: int,
    pt: int,
    q: int,
    vb: u8,
    ents: Seq<u8>,
    cb: Seq<u8>,
    tgt: Seq<u8>,
)
    requires
        22 <= pe <= pc2 <= pcur <= pt <= q,
        q + 2 == d.len(),
        d.subrange(0, 3) == lit_doc_open(),
        d[3] == vb,
        d.subrange(4, 22) == lit_schema(),
        d.subrange(22, pe) == ents + seq![125u8],
        d.subrange(pe, pc2) == lit_current(),
        d.subrange(pc2, pcur) == cb,
        d.subrange(pcur, pt) == lit_target(),
        d.subrange(pt, q) == escape(tgt) + seq![34u8],
        d[q] == 125,
        d[q + 1] == 125,
    ensures
        d == lit_doc_open() + seq![vb] + lit_schema() + ents + seq![125u8] + lit_current() + cb
            + lit_target() + escape(tgt) + seq![34u8, 125u8, 125u8],
{
    assert(d.subrange(3, 4) =~= seq![vb]);
    lemma_sub_glue(d, 0, 3, 4);
    lemma_sub_glue(d, 0, 4, 22);
    lemma_sub_glue(d, 0, 22, pe);
    assert(lit_doc_open() + seq![vb] + lit_schema() + (ents + seq![125u8]) =~= lit_doc_open()
        + seq![vb] + lit_schema() + ents + seq![125u8]);
    lemma_sub_glue(d, 0, pe, pc2);
    lemma_sub_glue(d, 0, pc2, pcur);
    lemma_sub_glue(d, 0, pcur, pt);
    lemma_sub_glue(d, 0, pt, q);
    assert(lit_doc_open() + seq![vb] + lit_schema() + ents + seq![125u8] + lit_current() + cb
        + lit_target() + (escape(tgt) + seq![34u8]) =~= lit_doc_open() + seq![vb] + lit_schema()
        + ents + seq![125u8] + lit_current() + cb + lit_target() + escape(tgt) + seq![34u8]);
    assert(d.subrange(q, q + 2) =~= seq![125u8, 125u8]);
    lemma_sub_glue(d, 0, q, q + 2);
    assert(lit_doc_open() + seq![vb] + lit_schema() + ents + seq![125u8] + lit_current() + cb
        + lit_target() + escape(tgt) + seq![34u8] + seq![125u8, 125u8] =~= lit_doc_open()
        + seq![vb] + lit_schema() + ents + seq![125u8] + lit_current() + cb + lit_target()
        + escape(tgt) + seq![34u8, 125u8, 125u8]);
    assert(d.subrange(0, q + 2) =~= d);
}

/// The literal `,"current":` as a vector, for matching.
fn lit_current_vec() -> (r: Vec<u8>)
    ensures
        r@ == lit_current(),
{
    let mut v: Vec<u8> = Vec::new();
    push_lit_current(&mut v);
    assert(v@ =~= lit_current());
    v
}

/// The literal `,"target":"` as a vector, for matching.
fn lit_target_vec() -> (r: Vec<u8>)
    ensures
        r@ == lit_target(),
{
    let mut v: Vec<u8> = Vec::new();
    push_lit_target(&mut v);
    assert(v@ =~= lit_target());
    v
}

/// The literal `{"V` as a vector, for matching.
fn lit_doc_open_vec() -> (r: Vec<u8>)
    ensures
        r@ == lit_doc_open(),
{
    let mut v: Vec<u8> = Vec::new();
    push_lit_doc_open(&mut v);
    assert(v@ =~= lit_doc_open());
    v
}

/// The literal `":{"deployments":{` as a vector, for matching.
fn lit_schema_vec() -> (r: Vec<u8>)
    ensures
        r@ == lit_schema(),
{
    let mut v: Vec<u8> = Vec::new();
    push_lit_schema(&mut v);
    assert(v@ =~= lit_schema());
    v
}

/// The literal `null` as a vector, for matching.
fn lit_null_vec() -> (r: Vec<u8>)
    ensures
        r@ == lit_null(),
{
    let mut v: Vec<u8> = Vec::new();
    v.push(110);
    v.push(117);
    v.push(108);
    v.push(108);
    assert(v@ =~= lit_null());
    v
}

/// Parses a whole state document of either schema, upgrading ancestor
/// records to the current shape (empty message, the record's own id as its
/// original id). Exact on the canonical document of either schema.
#[verifier::rlimit(100)]
pub fn parse_state_doc(data: &Vec<u8>) -> (r: Option<
    (Vec<(u32, DeploymentRecord)>, Option<u32>, Vec<u8>),
>)
    ensures
        r matches Some(t) ==> forall|k: int|
            0 <= k < t.0@.len() ==> 0 <= #[trigger] t.0@[k].1.time < TS_MAX,
        forall|s: TargetState|
            #![trigger canonical_doc_v1(data@, s)]
            canonical_doc_v1(data@, s) ==> (r is Some && same_entries(
                r.unwrap().0@,
                s.deployments@,
            ) && r.unwrap().1 == s.current && r.unwrap().2@ == s.target@),
        forall|es: Seq<(u32, i64)>, cur: Option<u32>, tgt: Seq<u8>|
            #![trigger canonical_doc_v2(data@, es, cur, tgt)]
            canonical_doc_v2(data@, es, cur, tgt) ==> (r is Some && r.unwrap().0@.len() == es.len()
                && (forall|k: int|
                0 <= k < es.len() ==> (#[trigger] r.unwrap().0@[k]).0 == es[k].0
                    && r.unwrap().0@[k].1.time == es[k].1 && r.unwrap().0@[k].1.message@
                    == Seq::<u8>::empty() && r.unwrap().0@[k].1.original_id == es[k].0)
                && r.unwrap().1 == cur && r.unwrap().2@ == tgt),
        r matches Some(t) ==> (data@ == doc_parts_v1(t.0@, t.1, t.2@) && entries_ok_v1(t.0@)) || (
        exists|raw0: Seq<(u32, i64)>|
            {
                &&& data@ == #[trigger] doc_parts_v2(raw0, t.1, t.2@)
                &&& entries_ok_v2(raw0)
                &&& t.0@.len() == raw0.len()
                &&& (forall|k: int|
                    0 <= k < raw0.len() ==> (#[trigger] t.0@[k]).0 == raw0[k].0 && t.0@[k].1.time
                        == raw0[k].1 && t.0@[k].1.message@ == Seq::<u8>::empty()
                        && t.0@[k].1.original_id == raw0[k].0)
            }),
{
    let n = data.len();
    proof {
        assert forall|s: TargetState| #[trigger]
            canonical_doc_v1(data@, s) implies {
            let eb = entries_v1_bytes(s.deployments@);
            let cb = current_bytes(s.current);
            let et = escape(s.target@);
            let pe: int = 23 + eb.len() as int;
            let pc2: int = pe + 11;
            let pcur: int = pc2 + cb.len() as int;
            let pt: int = pcur + 11;
            &&& data@.len() == pt + et.len() + 3
            &&& data@.subrange(0, 3) == lit_doc_open()
            &&& data@[3] == 49
            &&& data@.subrange(4, 22) == lit_schema()
            &&& canonical_entries_v1_at(data@, 22, s.deployments@)
            &&& data@.subrange(pe as int, pc2 as int) == lit_current()
            &&& (s.current is None ==> data@.subrange(pc2 as int, pc2 + 4) == lit_null())
            &&& (s.current is Some ==> canonical_num_at(data@, pc2 as int, s.current.unwrap())
                && is_dec_digit(data@[pc2 as int]))
            &&& data@.subrange(pt - 11, pt as int) == lit_target()
            &&& canonical_str_at(data@, pt as int, s.target@)
            &&& data@[pt + et.len() + 1] == 125
            &&& data@[pt + et.len() + 2] == 125
        } by {
            let d = data@;
            let eb = entries_v1_bytes(s.deployments@);
            let cb = current_bytes(s.current);
            let et = escape(s.target@);
            let pe: int = 23 + eb.len() as int;
            let pc2: int = pe + 11;
            let pcur: int = pc2 + cb.len() as int;
            let pt: int = pcur + 11;
            assert(d.len() == pt + et.len() + 3);
            assert(d.subrange(0, 3) =~= lit_doc_open());
            assert(d.subrange(4, 22) =~= lit_schema());
            assert(d.subrange(22, 22 + eb.len() as int + 1) =~= eb + seq![125u8]);
            assert(d.subrange(pe as int, pc2 as int) =~= lit_current());
            match s.current {
                Option::None => {
                    assert(d.subrange(pc2 as int, pc2 + 4) =~= lit_null());
                },
                Option::Some(c) => {
                    assert(d.subrange(pc2 as int, pc2 + cb.len()) =~= dec_digits(c as nat));
                    lemma_dec_digits_are_digits(c as nat);
                    assert(d[pc2 + cb.len()] == 44);
                    assert(is_dec_digit(d[pc2 as int])) by {
                        assert(d[pc2 as int] == d.subrange(pc2 as int, pc2 + cb.len())[0]);
                    }
                },
            }
            assert(d.subrange(pt - 11, pt as int) =~= lit_target());
            assert(d.subrange(pt as int, pt + et.len() + 1) =~= et + seq![34u8]);
        }
        assert forall|es: Seq<(u32, i64)>, cur: Option<u32>, tgt: Seq<u8>| #[trigger]
            canonical_doc_v2(data@, es, cur, tgt) implies {
            let eb = entries_v2_bytes(es);
            let cb = current_bytes(cur);
            let et = escape(tgt);
            let pe: int = 23 + eb.len() as int;
            let pc2: int = pe + 11;
            let pcur: int = pc2 + cb.len() as int;
            let pt: int = pcur + 11;
            &&& data@.len() == pt + et.len() + 3
            &&& data@.subrange(0, 3) == lit_doc_open()
            &&& data@[3] == 50
            &&& data@.subrange(4, 22) == lit_schema()
            &&& canonical_entries_v2_at(data@, 22, es)
            &&& data@.subrange(pe as int, pc2 as int) == lit_current()
            &&& (cur is None ==> data@.subrange(pc2 as int, pc2 + 4) == lit_null())
            &&& (cur is Some ==> canonical_num_at(data@, pc2 as int, cur.unwrap())
                && is_dec_digit(data@[pc2 as int]))
            &&& data@.subrange(pt - 11, pt as int) == lit_target()
            &&& canonical_str_at(data@, pt as int, tgt)
            &&& data@[pt + et.len() + 1] == 125
            &&& data@[pt + et.len() + 2] == 125
        } by {
            let d = data@;
            let eb = entries_v2_bytes(es);
            let cb = current_bytes(cur);
            let et = escape(tgt);
            let pe: int = 23 + eb.len() as int;
            let pc2: int = pe + 11;
            let pcur: int = pc2 + cb.len() as int;
            let pt: int = pcur + 11;
            assert(d.len() == pt + et.len() + 3);
            assert(d.subrange(0, 3) =~= lit_doc_open());
            assert(d.subrange(4, 22) =~= lit_schema());
            assert(d.subrange(22, 22 + eb.len() as int + 1) =~= eb + seq![125u8]);
            assert(d.subrange(pe as int, pc2 as int) =~= lit_current());
            match cur {
                Option::None => {
                    assert(d.subrange(pc2 as int, pc2 + 4) =~= lit_null());
                },
                Option::Some(c) => {
                    assert(d.subrange(pc2 as int, pc2 + cb.len()) =~= dec_digits(c as nat));
                    lemma_dec_digits_are_digits(c as nat);
                    assert(d[pc2 + cb.len()] == 44);
                    assert(is_dec_digit(d[pc2 as int])) by {
                        assert(d[pc2 as int] == d.subrange(pc2 as int, pc2 + cb.len())[0]);
                    }
                },
            }
            assert(d.subrange(pt - 11, pt as int) =~= lit_target());
            assert(d.subrange(pt as int, pt + et.len() + 1) =~= et + seq![34u8]);
        }
    }
    let ldo = lit_doc_open_vec();
    if n < 4 {
        return Option::None;
    }
    match expect_vec(data, 0, &ldo) {
        Option::Some(_) => {},
        Option::None => {
            return Option::None;
        },
    }
    let version = data[3];
    if version != 49 && version != 50 {
        return Option::None;
    }
    let ls = lit_schema_vec();
    match expect_vec(data, 4, &ls) {
        Option::Some(_) => {},
        Option::None => {
            return Option::None;
        },
    }
    let entries: Vec<(u32, DeploymentRecord)>;
    let pe: usize;
    let ghost mut rawseq: Seq<(u32, i64)> = Seq::empty();
    if version == 49 {
        match parse_entries_v1(data, 22) {
            Option::Some(x) => {
                entries = x.0;
                pe = x.1;
            },
            Option::None => {
                return Option::None;
            },
        }
    } else {
        let raw: Vec<(u32, i64)>;
        match parse_entries_v2(data, 22) {
            Option::Some(x) => {
                raw = x.0;
                pe = x.1;
            },
            Option::None => {
                return Option::None;
            },
        }
        let mut upgraded: Vec<(u32, DeploymentRecord)> = Vec::new();
        let mut k: usize = 0;
        while k < raw.len()
            invariant
                0 <= k <= raw@.len(),
                upgraded@.len() == k,
                forall|q: int| 0 <= q < raw@.len() ==> 0 <= #[trigger] raw@[q].1 < TS_MAX,
                forall|q: int|
                    0 <= q < k ==> (#[trigger] upgraded@[q]).0 == raw@[q].0 && upgraded@[q].1.time
                        == raw@[q].1 && upgraded@[q].1.message@ == Seq::<u8>::empty()
                        && upgraded@[q].1.original_id == raw@[q].0,
            decreases raw@.len() - k,
        {
            let (id, time) = raw[k];
            let msg: Vec<u8> = Vec::new();
            upgraded.push((id, DeploymentRecord { time, message: msg, original_id: id }));
            k = k + 1;
        }
        entries = upgraded;
        proof {
            rawseq = raw@;
        }
    }
    let lc = lit_current_vec();
    let pc2: usize;
    match expect_vec(data, pe, &lc) {
        Option::Some(x) => {
            pc2 = x;
        },
        Option::None => {
            return Option::None;
        },
    }
    let cur: Option<u32>;
    let pcur: usize;
    if pc2 >= n {
        return Option::None;
    }
    if data[pc2] == 110 {
        let ln = lit_null_vec();
        match expect_vec(data, pc2, &ln) {
            Option::Some(x) => {
                cur = Option::None;
                pcur = x;
            },
            Option::None => {
                return Option::None;
            },
        }
    } else {
        match parse_u32(data, pc2) {
            Option::Some(x) => {
                cur = Option::Some(x.0);
                pcur = x.1;
            },
            Option::None => {
                return Option::None;
            },
        }
    }
    let lt = lit_target_vec();
    let pt: usize;
    match expect_vec(data, pcur, &lt) {
        Option::Some(x) => {
            pt = x;
        },
        Option::None => {
            return Option::None;
        },
    }
    let target: Vec<u8>;
    let q: usize;
    match parse_string(data, pt) {
        Option::Some(x) => {
            target = x.0;
            q = x.1;
        },
        Option::None => {
            return Option::None;
        },
    }
    if n - q != 2 {
        return Option::None;
    }
    if data[q] != 125 || data[q + 1] != 125 {
        return Option::None;
    }
    proof {
        let d = data@;
        let cb = current_bytes(cur);
        assert(d.subrange(pc2 as int, pcur as int) == cb);
        if version == 49 {
            lemma_doc_assemble(
                d,
                pe as int,
                pc2 as int,
                pcur as int,
                pt as int,
                q as int,
                49u8,
                entries_v1_bytes(entries@),
                cb,
                target@,
            );
            assert(data@ =~= doc_parts_v1(entries@, cur, target@));
        } else {
            lemma_doc_assemble(
                d,
                pe as int,
                pc2 as int,
                pcur as int,
                pt as int,
                q as int,
                50u8,
                entries_v2_bytes(rawseq),
                cb,
                target@,
            );
            assert(data@ =~= doc_parts_v2(rawseq, cur, target@));
            assert(entries_ok_v2(rawseq) && entries@.len() == rawseq.len() && (forall|k: int|
                0 <= k < rawseq.len() ==> (#[trigger] entries@[k]).0 == rawseq[k].0
                    && entries@[k].1.time == rawseq[k].1 && entries@[k].1.message@ == Seq::<
                    u8,
                >::empty() && entries@[k].1.original_id == rawseq[k].0));
        }
    }
    Option::Some((entries, cur, target))
}

/// Byte-string equality.
pub fn bytes_eq(a: &Vec<u8>, b: &Vec<u8>) -> (r: bool)
    ensures
        r == (a@ == b@),
{
    if a.len() != b.len() {
        return false;
    }
    let n = a.len();
    let mut i: usize = 0;
    while i < n
        invariant
            0 <= i <= n,
            n == a@.len() == b@.len(),
            forall|q: int| 0 <= q < i ==> a@[q] == b@[q],
        decreases n - i,
    {
        if a[i] != b[i] {
            return false;
        }
        i = i + 1;
    }
    proof {
        assert(a@ =~= b@);
    }
    true
}

/// States that agree field by field.
pub open spec fn same_state(a: TargetState, b: TargetState) -> bool {
    &&& same_entries(a.deployments@, b.deployments@)
    &&& a.current == b.current
    &&& a.target@ == b.target@
}

/// Appends the canonical notation of one record under its id key.
fn push_record_v1(out: &mut Vec<u8>, id: u32, rec: &DeploymentRecord)
    requires
        0 <= rec.time < TS_MAX,
    ensures
        final(out)@ == old(out)@ + record_v1_bytes(id, *rec),
        plain_str(rfc3339_of(rec.time)),
{
    out.push(34);
    push_dec(out, id);
    push_lit_key_time(out);
    let tb = crate::time::format_rfc3339(rec.time);
    crate::paths::extend_bytes(out, &tb, 0, tb.len());
    assert(tb@.subrange(0, tb@.len() as int) =~= tb@);
    out.push(34);
    push_lit_message(out);
    push_escaped(out, &rec.message);
    out.push(34);
    push_lit_origid(out);
    push_dec(out, rec.original_id);
    out.push(125);
    assert(out@ =~= old(out)@ + record_v1_bytes(id, *rec));
}

/// Serializes `s` as the canonical current-schema document. This is the
/// only form the library ever writes: re-reading it with `load_from_bytes`
/// gives `s` back. Persisting these bytes overwrites the sidecar file in
/// place — a crash mid-write can corrupt it; that is a known limitation of
/// the design, not remediated here.
pub fn dump_state(s: &TargetState) -> (r: Vec<u8>)
    requires
        s.times_ok(),
    ensures
        r@ == state_doc_bytes(*s),
        entries_ok_v1(s.deployments@),
        canonical_doc_v1(r@, *s),
{
    let mut out: Vec<u8> = Vec::new();
    push_lit_doc_open(&mut out);
    out.push(49);
    push_lit_schema(&mut out);
    let ghost prefix = lit_doc_open() + seq![49u8] + lit_schema();
    assert(out@ =~= prefix + entries_v1_bytes(s.deployments@.take(0)));
    let m = s.deployments.len();
    let mut k: usize = 0;
    while k < m
        invariant
            0 <= k <= m,
            m == s.deployments@.len(),
            s.times_ok(),
            out@ == prefix + entries_v1_bytes(s.deployments@.take(k as int)),
            entries_ok_v1(s.deployments@.take(k as int)),
        decreases m - k,
    {
        let ghost taken = s.deployments@.take(k as int);
        if k > 0 {
            out.push(44);
        }
        let id = s.deployments[k].0;
        assert(0 <= s.deployments@[k as int].1.time < TS_MAX);
        push_record_v1(&mut out, id, &s.deployments[k].1);
        proof {
            let e = s.deployments@[k as int];
            lemma_entries_v1_push(taken, e);
            assert(taken.push(e) =~= s.deployments@.take(k + 1));
            assert(out@ =~= prefix + entries_v1_bytes(s.deployments@.take(k + 1)));
            assert(entries_ok_v1(s.deployments@.take(k + 1)));
        }
        k = k + 1;
    }
    assert(s.deployments@.take(m as int) =~= s.deployments@);
    out.push(125);
    push_lit_current(&mut out);
    match s.current {
        Option::None => {
            out.push(110);
            out.push(117);
            out.push(108);
            out.push(108);
            assert(out@ =~= prefix + entries_v1_bytes(s.deployments@) + seq![125u8] + lit_current()
                + current_bytes(s.current));
        },
        Option::Some(c) => {
            push_dec(&mut out, c);
            assert(out@ =~= prefix + entries_v1_bytes(s.deployments@) + seq![125u8] + lit_current()
                + current_bytes(s.current));
        },
    }
    push_lit_target(&mut out);
    push_escaped(&mut out, &s.target);
    out.push(34);
    out.push(125);
    out.push(125);
    assert(out@ =~= state_doc_bytes(*s));
    out
}

/// Whether the deployment ids are strictly increasing.
fn check_sorted(entries: &Vec<(u32, DeploymentRecord)>) -> (r: bool)
    ensures
        r == (forall|a: int, b: int|
            0 <= a < b < entries@.len() ==> (#[trigger] entries@[a]).0 < (#[trigger] entries@[b]).0),
{
    let n = entries.len();
    if n == 0 {
        return true;
    }
    let mut i: usize = 1;
    while i < n
        invariant
            1 <= i <= n,
            n == entries@.len(),
            forall|a: int, b: int|
                0 <= a < b < i ==> (#[trigger] entries@[a]).0 < (#[trigger] entries@[b]).0,
        decreases n - i,
    {
        if entries[i - 1].0 >= entries[i].0 {
            return false;
        }
        proof {
            assert forall|a: int, b: int|
                0 <= a < b < i + 1 implies (#[trigger] entries@[a]).0 < (#[trigger] entries@[b]).0 by {
                if b == i {
                    if a < i - 1 {
                        assert(entries@[a].0 < entries@[i - 1].0);
                    }
                }
            }
        }
        i = i + 1;
    }
    true
}

/// Whether `c` is one of the entry ids.
fn check_has_id(entries: &Vec<(u32, DeploymentRecord)>, c: u32) -> (r: bool)
    ensures
        r == exists|k: int| 0 <= k < entries@.len() && (#[trigger] entries@[k]).0 == c,
{
    let n = entries.len();
    let mut i: usize = 0;
    while i < n
        invariant
            0 <= i <= n,
            n == entries@.len(),
            forall|k: int| 0 <= k < i ==> (#[trigger] entries@[k]).0 != c,
        decreases n - i,
    {
        if entries[i].0 == c {
            return true;
        }
        i = i + 1;
    }
    false
}

/// The ancestor entries have strictly increasing ids.
pub open spec fn v2_sorted(es: Seq<(u32, i64)>) -> bool {
    forall|a: int, b: int| 0 <= a < b < es.len() ==> (#[trigger] es[a]).0 < (#[trigger] es[b]).0
}

/// The ancestor current pointer is sound: absent exactly on an empty
/// history, and naming a present id otherwise.
pub open spec fn v2_current_ok(es: Seq<(u32, i64)>, cur: Option<u32>) -> bool {
    match cur {
        Option::None => es.len() == 0,
        Option::Some(c) => exists|k: int| 0 <= k < es.len() && (#[trigger] es[k]).0 == c,
    }
}

/// Loads a state from the bytes of its file, whichever schema wrote them,
/// upgrading ancestor records on the way in. Everything that is not a
/// well-formed document for `target` is corrupt: there is no repair path.
///
/// Re-reading what `dump_state` wrote gives the same state back, and a
/// well-formed ancestor document loads as its upgraded self: together with
/// `dump_state` this is the migration law — migrating the current schema
/// is the identity, and an upgraded state re-saves in the current schema.
#[verifier::rlimit(30)]
pub fn load_from_bytes(data: &Vec<u8>, target: &Vec<u8>) -> (r: Result<TargetState, Error>)
    ensures
        r matches Ok(s) ==> s.wf() && s.target@ == target@ && loadable_doc(data@, s),
        r is Err ==> r == Result::<TargetState, Error>::Err(Error::StateCorrupt),
        forall|s: TargetState|
            #![trigger canonical_doc_v1(data@, s)]
            canonical_doc_v1(data@, s) && s.wf() && s.target@ == target@ ==> (r is Ok
                && same_state(r.unwrap(), s)),
        forall|s: TargetState|
            #![trigger canonical_ancestor_doc(data@, s)]
            canonical_ancestor_doc(data@, s) && s.wf() && s.target@ == target@ ==> (r is Ok
                && same_state(r.unwrap(), s)),
        forall|es: Seq<(u32, i64)>, cur: Option<u32>, tgt: Seq<u8>|
            #![trigger canonical_doc_v2(data@, es, cur, tgt)]
            canonical_doc_v2(data@, es, cur, tgt) && v2_sorted(es) && v2_current_ok(es, cur) && tgt
                == target@ ==> (r is Ok && r.unwrap().current == cur && r.unwrap().target@ == tgt
                && r.unwrap().deployments@.len() == es.len() && (forall|k: int|
                0 <= k < es.len() ==> (#[trigger] r.unwrap().deployments@[k]).0 == es[k].0
                    && r.unwrap().deployments@[k].1.time == es[k].1
                    && r.unwrap().deployments@[k].1.message@ == Seq::<u8>::empty()
                    && r.unwrap().deployments@[k].1.original_id == es[k].0)),
{
    proof {
        assert forall|s: TargetState|
            canonical_ancestor_doc(data@, s) && s.wf() && s.target@ == target@ implies {
            let mapped = s.deployments@.map_values(|p: (u32, DeploymentRecord)| (p.0, p.1.time));
            &&& canonical_doc_v2(data@, mapped, s.current, s.target@)
            &&& v2_sorted(mapped)
            &&& v2_current_ok(mapped, s.current)
        } by {
            let mapped = s.deployments@.map_values(|p: (u32, DeploymentRecord)| (p.0, p.1.time));
            assert(canonical_doc_v2(data@, mapped, s.current, s.target@));
            assert forall|a: int, b: int|
                0 <= a < b < mapped.len() implies (#[trigger] mapped[a]).0 < (
            #[trigger] mapped[b]).0 by {
                assert(mapped[a].0 == s.deployments@[a].0);
                assert(mapped[b].0 == s.deployments@[b].0);
                assert(s.ids()[a] == s.deployments@[a].0);
                assert(s.ids()[b] == s.deployments@[b].0);
            }
            match s.current {
                Option::None => {
                    assert(mapped.len() == s.deployments@.len());
                },
                Option::Some(c) => {
                    let k = choose|k: int| 0 <= k < s.ids().len() && s.ids()[k] == c;
                    assert(s.deployments@[k].0 == c);
                    assert(mapped[k].0 == c);
                },
            }
        }
    }
    let parsed = parse_state_doc(data);
    let entries: Vec<(u32, DeploymentRecord)>;
    let cur: Option<u32>;
    let tgt: Vec<u8>;
    match parsed {
        Option::Some(t) => {
            entries = t.0;
            cur = t.1;
            tgt = t.2;
        },
        Option::None => {
            return Result::Err(Error::StateCorrupt);
        },
    }
    proof {
        assert forall|s: TargetState|
            canonical_doc_v1(data@, s) && s.wf() && s.target@ == target@ implies {
            &&& tgt@ == target@
            &&& (forall|a: int, b: int|
                0 <= a < b < entries@.len() ==> (#[trigger] entries@[a]).0 < (
                #[trigger] entries@[b]).0)
            &&& match cur {
                Option::None => entries@.len() == 0,
                Option::Some(c) => exists|k: int|
                    0 <= k < entries@.len() && (#[trigger] entries@[k]).0 == c,
            }
        } by {
            assert forall|a: int, b: int|
                0 <= a < b < entries@.len() implies (#[trigger] entries@[a]).0 < (
            #[trigger] entries@[b]).0 by {
                assert(entries@[a].0 == s.deployments@[a].0);
                assert(entries@[b].0 == s.deployments@[b].0);
                assert(s.ids()[a] == s.deployments@[a].0);
                assert(s.ids()[b] == s.deployments@[b].0);
            }
            match s.current {
                Option::None => {},
                Option::Some(c) => {
                    let k = choose|k: int| 0 <= k < s.ids().len() && s.ids()[k] == c;
                    assert(s.deployments@[k].0 == c);
                    assert(entries@[k].0 == c);
                },
            }
        }
        assert forall|es: Seq<(u32, i64)>, cur0: Option<u32>, tgt0: Seq<u8>|
            canonical_doc_v2(data@, es, cur0, tgt0) && v2_sorted(es) && v2_current_ok(es, cur0)
            && tgt0 == target@ implies {
            &&& tgt@ == target@
            &&& (forall|a: int, b: int|
                0 <= a < b < entries@.len() ==> (#[trigger] entries@[a]).0 < (
                #[trigger] entries@[b]).0)
            &&& match cur {
                Option::None => entries@.len() == 0,
                Option::Some(c) => exists|k: int|
                    0 <= k < entries@.len() && (#[trigger] entries@[k]).0 == c,
            }
        } by {
            assert forall|a: int, b: int|
                0 <= a < b < entries@.len() implies (#[trigger] entries@[a]).0 < (
            #[trigger] entries@[b]).0 by {
                assert(entries@[a].0 == es[a].0);
                assert(entries@[b].0 == es[b].0);
            }
            match cur0 {
                Option::None => {},
                Option::Some(c) => {
                    let k = choose|k: int| 0 <= k < es.len() && (#[trigger] es[k]).0 == c;
                    assert(entries@[k].0 == c);
                },
            }
        }
    }
    if !bytes_eq(&tgt, target) {
        return Result::Err(Error::StateCorrupt);
    }
    if !check_sorted(&entries) {
        return Result::Err(Error::StateCorrupt);
    }
    let ok = match cur {
        Option::None => entries.len() == 0,
        Option::Some(c) => check_has_id(&entries, c),
    };
    if !ok {
        return Result::Err(Error::StateCorrupt);
    }
    let st = TargetState { deployments: entries, current: cur, target: tgt };
    proof {
        assert forall|s: TargetState|
            canonical_ancestor_doc(data@, s) && s.wf() && s.target@ == target@ implies same_state(
            st,
            s,
        ) by {
            let mapped = s.deployments@.map_values(|p: (u32, DeploymentRecord)| (p.0, p.1.time));
            assert forall|k: int|
                0 <= k < st.deployments@.len() implies (#[trigger] st.deployments@[k]).0
                == s.deployments@[k].0 && st.deployments@[k].1.time == s.deployments@[k].1.time
                && st.deployments@[k].1.message@ == s.deployments@[k].1.message@
                && st.deployments@[k].1.original_id == s.deployments@[k].1.original_id by {
                assert(mapped[k] == (s.deployments@[k].0, s.deployments@[k].1.time));
                assert(st.deployments@[k].0 == mapped[k].0);
                assert(st.deployments@[k].1.time == mapped[k].1);
                assert(st.deployments@[k].1.message@ == Seq::<u8>::empty());
                assert(st.deployments@[k].1.original_id == mapped[k].0);
            }
        }
        if data@ == doc_parts_v1(st.deployments@, st.current, st.target@) {
            assert(state_doc_bytes(st) =~= doc_parts_v1(st.deployments@, st.current, st.target@));
            assert(loadable_doc(data@, st));
        } else {
            let raw0 = choose|raw0: Seq<(u32, i64)>|
                {
                    &&& data@ == #[trigger] doc_parts_v2(raw0, st.current, st.target@)
                    &&& entries_ok_v2(raw0)
                    &&& st.deployments@.len() == raw0.len()
                    &&& (forall|k: int|
                        0 <= k < raw0.len() ==> (#[trigger] st.deployments@[k]).0 == raw0[k].0
                            && st.deployments@[k].1.time == raw0[k].1
                            && st.deployments@[k].1.message@ == Seq::<u8>::empty()
                            && st.deployments@[k].1.original_id == raw0[k].0)
                };
            let mapped = st.deployments@.map_values(
                |p: (u32, DeploymentRecord)| (p.0, p.1.time),
            );
            assert(mapped =~= raw0) by {
                assert forall|k: int| 0 <= k < mapped.len() implies mapped[k] == raw0[k] by {
                    assert(mapped[k] == (st.deployments@[k].0, st.deployments@[k].1.time));
                }
            }
            assert(state_doc_v2_bytes(mapped, st.current, st.target@) =~= doc_parts_v2(
                raw0,
                st.current,
                st.target@,
            ));
            assert(loadable_doc(data@, st));
        }
        assert forall|s: TargetState|
            canonical_doc_v1(data@, s) && s.wf() && s.target@ == target@ implies same_state(st, s) by {
            assert(st.ids() =~= s.ids()) by {
                assert forall|k: int| 0 <= k < st.ids().len() implies st.ids()[k] == s.ids()[k] by {
                    assert(st.deployments@[k].0 == s.deployments@[k].0);
                }
            }
        }
        assert(st.wf()) by {
            assert forall|a: int, b: int| 0 <= a < b < st.ids().len() implies st.ids()[a]
                < st.ids()[b] by {
                assert(st.deployments@[a].0 < st.deployments@[b].0);
            }
            match st.current {
                Option::None => {},
                Option::Some(c) => {
                    let k = choose|k: int|
                        0 <= k < st.deployments@.len() && (#[trigger] st.deployments@[k]).0 == c;
                    assert(st.ids()[k] == c);
                },
            }
        }
    }
    Result::Ok(st)
}

} // verus!
