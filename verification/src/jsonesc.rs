//! JSON string notation for byte strings: the canonical escaping the state
//! file uses, an emitter, and a parser that is exact on the canonical form.
//!
//! A byte is written as one of the two-byte escapes `\" \\ \n \r \t` where
//! one exists, as `\u00xx` for the other control bytes, and as itself
//! otherwise. The parser accepts exactly these forms and rejects raw
//! control bytes, as JSON does.

use vstd::prelude::*;

verus! {

/// Lower-case hex digit for a nibble.
pub open spec fn hex_digit(n: u8) -> u8 {
    if n < 10 {
        (48 + n) as u8
    } else {
        (87 + n) as u8
    }
}

/// The canonical notation of one byte inside a JSON string.
pub open spec fn esc_byte(b: u8) -> Seq<u8> {
    if b == 34 {
        seq![92u8, 34u8]
    } else if b == 92 {
        seq![92u8, 92u8]
    } else if b == 10 {
        seq![92u8, 110u8]
    } else if b == 13 {
        seq![92u8, 114u8]
    } else if b == 9 {
        seq![92u8, 116u8]
    } else if b < 32 {
        seq![92u8, 117u8, 48u8, 48u8, hex_digit(b / 16), hex_digit(b % 16)]
    } else {
        seq![b]
    }
}

/// The canonical notation of a byte string inside a JSON string.
pub open spec fn escape(s: Seq<u8>) -> Seq<u8>
    decreases s.len(),
{
    if s.len() == 0 {
        Seq::empty()
    } else {
        esc_byte(s[0]) + escape(s.skip(1))
    }
}

/// At `pos`, `d` holds the canonical notation of `m` followed by the
/// closing quote.
pub open spec fn canonical_str_at(d: Seq<u8>, pos: int, m: Seq<u8>) -> bool {
    &&& 0 <= pos
    &&& pos + escape(m).len() + 1 <= d.len()
    &&& d.subrange(pos, pos + escape(m).len() + 1) == escape(m) + seq![34u8]
}

/// Escaping distributes over concatenation.
pub proof fn lemma_escape_append(a: Seq<u8>, b: Seq<u8>)
    ensures
        escape(a + b) == escape(a) + escape(b),
    decreases a.len(),
{
    if a.len() == 0 {
        assert(a + b =~= b);
        assert(escape(a) + escape(b) =~= escape(b));
    } else {
        lemma_escape_append(a.skip(1), b);
        assert((a + b).skip(1) =~= a.skip(1) + b);
        assert(escape(a + b) =~= escape(a) + escape(b));
    }
}

/// Escaping a prefix and the rest separately gives the whole.
pub proof fn lemma_escape_split(m: Seq<u8>, j: int)
    requires
        0 <= j <= m.len(),
    ensures
        escape(m) == escape(m.take(j)) + escape(m.skip(j)),
{
    assert(m =~= m.take(j) + m.skip(j));
    lemma_escape_append(m.take(j), m.skip(j));
}

/// One byte appended to the string appends its notation.
pub proof fn lemma_escape_push(s: Seq<u8>, b: u8)
    ensures
        escape(s.push(b)) == escape(s) + esc_byte(b),
{
    lemma_escape_append(s, seq![b]);
    assert(s.push(b) =~= s + seq![b]);
    let single = seq![b];
    assert(single.skip(1) =~= Seq::<u8>::empty());
    assert(escape(single) == esc_byte(single[0]) + escape(single.skip(1)));
    assert(esc_byte(b) + escape(Seq::<u8>::empty()) =~= esc_byte(b));
}

/// Appends the canonical notation of `s` to `out`.
pub fn push_escaped(out: &mut Vec<u8>, s: &Vec<u8>)
    ensures
        final(out)@ == old(out)@ + escape(s@),
{
    let n = s.len();
    let mut i: usize = 0;
    assert(s@.take(0) =~= Seq::<u8>::empty());
    while i < n
        invariant
            0 <= i <= n,
            n == s@.len(),
            out@ == old(out)@ + escape(s@.take(i as int)),
        decreases n - i,
    {
        let b = s[i];
        if b == 34 {
            out.push(92);
            out.push(34);
        } else if b == 92 {
            out.push(92);
            out.push(92);
        } else if b == 10 {
            out.push(92);
            out.push(110);
        } else if b == 13 {
            out.push(92);
            out.push(114);
        } else if b == 9 {
            out.push(92);
            out.push(116);
        } else if b < 32 {
            out.push(92);
            out.push(117);
            out.push(48);
            out.push(48);
            let hi = b / 16;
            let lo = b % 16;
            out.push(if hi < 10 { 48 + hi } else { 87 + hi });
            out.push(if lo < 10 { 48 + lo } else { 87 + lo });
        } else {
            out.push(b);
        }
        proof {
            lemma_escape_push(s@.take(i as int), s@[i as int]);
            assert(s@.take(i + 1) =~= s@.take(i as int).push(s@[i as int]));
            assert(out@ =~= old(out)@ + escape(s@.take(i + 1)));
        }
        i = i + 1;
    }
    assert(s@.take(n as int) =~= s@);
}

/// Parses a JSON string body starting at `pos` (just past the opening
/// quote) up to and including the closing quote. On success the consumed
/// bytes are exactly the canonical notation of the result; on the canonical
/// notation of any `m` the parse succeeds and returns `m`.
pub fn parse_string(data: &Vec<u8>, pos: usize) -> (r: Option<(Vec<u8>, usize)>)
    requires
        pos <= data@.len(),
    ensures
        r matches Some(p) ==> pos < p.1 <= data@.len() && data@.subrange(pos as int, p.1 as int)
            == escape(p.0@) + seq![34u8],
        forall|m: Seq<u8>|
            canonical_str_at(data@, pos as int, m) ==> (r matches Some(p) && p.0@ == m && p.1
                == pos + escape(m).len() + 1),
{
    let n = data.len();
    let mut out: Vec<u8> = Vec::new();
    let mut i: usize = pos;
    assert(data@.subrange(pos as int, pos as int) =~= escape(out@));
    loop
        invariant
            pos <= i <= n,
            n == data@.len(),
            data@.subrange(pos as int, i as int) == escape(out@),
            forall|m: Seq<u8>|
                canonical_str_at(data@, pos as int, m) ==> out@.len() <= m.len() && out@
                    == m.take(out@.len() as int),
        decreases n - i,
    {
        proof {
            assert forall|m: Seq<u8>| canonical_str_at(data@, pos as int, m) implies {
                let j = out@.len() as int;
                escape(m) == escape(out@) + escape(m.skip(j)) && (j < m.len() ==> escape(
                    m.skip(j),
                ) == esc_byte(m[j]) + escape(m.skip(j + 1)))
            } by {
                let j = out@.len() as int;
                lemma_escape_split(m, j);
                if j < m.len() {
                    assert(m.skip(j)[0] == m[j]);
                    assert(m.skip(j).skip(1) =~= m.skip(j + 1));
                }
            }
        }
        if i >= n {
            // Ran off the end before a closing quote: not a string.
            proof {
                assert forall|m: Seq<u8>| !canonical_str_at(data@, pos as int, m) by {
                    if canonical_str_at(data@, pos as int, m) {
                        assert(escape(out@).len() <= escape(m).len());
                    }
                }
            }
            return Option::None;
        }
        let b = data[i];
        proof {
            assert forall|m: Seq<u8>|
                canonical_str_at(data@, pos as int, m) && out@.len() < m.len() implies data@[i as int]
                == esc_byte(m[out@.len() as int])[0] by {
                let j = out@.len() as int;
                let whole = escape(m) + seq![34u8];
                assert(data@.subrange(pos as int, pos + escape(m).len() + 1)[i - pos] == data@[i as int]);
                assert(whole[i - pos] == escape(m)[i - pos]);
                assert(escape(m)[i - pos] == esc_byte(m[j])[0]);
            }
            assert forall|m: Seq<u8>|
                canonical_str_at(data@, pos as int, m) && out@.len() == m.len() implies data@[i as int]
                == 34u8 by {
                let whole = escape(m) + seq![34u8];
                assert(data@.subrange(pos as int, pos + escape(m).len() + 1)[i - pos] == data@[i as int]);
            }
        }
        if b == 34 {
            // Closing quote.
            let end = i + 1;
            proof {
                assert(data@.subrange(pos as int, end as int) =~= escape(out@) + seq![34u8]);
                assert forall|m: Seq<u8>| canonical_str_at(data@, pos as int, m) implies out@ == m
                    && end == pos + escape(m).len() + 1 by {
                    let j = out@.len() as int;
                    if j < m.len() {
                        let eb = esc_byte(m[j]);
                        assert(eb[0] != 34);
                    }
                    assert(out@ =~= m);
                }
            }
            return Option::Some((out, end));
        } else if b == 92 {
            // An escape sequence.
            if i + 1 >= n {
                proof {
                    assert forall|m: Seq<u8>| !canonical_str_at(data@, pos as int, m) by {
                        if canonical_str_at(data@, pos as int, m) {
                            let j = out@.len() as int;
                            assert(j < m.len());
                            let eb = esc_byte(m[j]);
                            assert(escape(m).len() >= escape(out@).len() + eb.len());
                        }
                    }
                }
                return Option::None;
            }
            proof {
                assert forall|m: Seq<u8>|
                    canonical_str_at(data@, pos as int, m) implies out@.len() < m.len() && {
                    let eb = esc_byte(m[out@.len() as int]);
                    eb.len() >= 2 && i + eb.len() <= n && forall|q: int|
                        0 <= q < eb.len() ==> data@[i + q] == eb[q]
                } by {
                    let j = out@.len() as int;
                    if j == m.len() {
                        assert(data@[i as int] == 34u8);
                    }
                    let eb = esc_byte(m[j]);
                    assert(eb[0] != 34);
                    assert(escape(m).len() >= escape(out@).len() + eb.len());
                    assert forall|q: int| 0 <= q < eb.len() implies data@[i + q] == eb[q] by {
                        assert(data@.subrange(pos as int, pos + escape(m).len() + 1)[i + q - pos]
                            == data@[i + q]);
                        assert((escape(m) + seq![34u8])[i + q - pos] == escape(m)[i + q - pos]);
                        assert(escape(m) == escape(out@) + (esc_byte(m[j]) + escape(
                            m.skip(j + 1),
                        )));
                        assert(escape(m)[i + q - pos] == eb[q]);
                    }
                }
            }
            let c = data[i + 1];
            let decoded: u8;
            let consumed: usize;
            if c == 34 {
                decoded = 34;
                consumed = 2;
            } else if c == 92 {
                decoded = 92;
                consumed = 2;
            } else if c == 110 {
                decoded = 10;
                consumed = 2;
            } else if c == 114 {
                decoded = 13;
                consumed = 2;
            } else if c == 116 {
                decoded = 9;
                consumed = 2;
            } else if c == 117 {
                // \u00xx for a control byte without a shorter escape. For
                // every canonical notation in progress the escaped byte is
                // in the `\u` class, so its six bytes stand here in full.
                proof {
                    assert forall|m: Seq<u8>|
                        canonical_str_at(data@, pos as int, m) implies esc_byte(
                        m[out@.len() as int],
                    ).len() == 6 && m[out@.len() as int] < 32 && m[out@.len() as int] != 9
                        && m[out@.len() as int] != 10 && m[out@.len() as int] != 13 by {
                        let j = out@.len() as int;
                        let eb = esc_byte(m[j]);
                        assert(eb[1] == 117);
                    }
                }
                if n - i < 6 {
                    proof {
                        assert forall|m: Seq<u8>| !canonical_str_at(data@, pos as int, m) by {
                            if canonical_str_at(data@, pos as int, m) {
                                let j = out@.len() as int;
                                assert(esc_byte(m[j]).len() == 6);
                            }
                        }
                    }
                    return Option::None;
                }
                let d0 = data[i + 2];
                let d1 = data[i + 3];
                let h1 = data[i + 4];
                let h2 = data[i + 5];
                proof {
                    assert forall|m: Seq<u8>|
                        canonical_str_at(data@, pos as int, m) implies d0 == 48 && d1 == 48 && h1
                        == hex_digit(m[out@.len() as int] / 16) && h2 == hex_digit(
                        m[out@.len() as int] % 16,
                    ) && 48 <= h1 <= 49 by {
                        let j = out@.len() as int;
                        let eb = esc_byte(m[j]);
                        assert(eb =~= seq![
                            92u8,
                            117u8,
                            48u8,
                            48u8,
                            hex_digit(m[j] / 16),
                            hex_digit(m[j] % 16),
                        ]);
                        assert(data@[i + 2] == eb[2]);
                        assert(data@[i + 3] == eb[3]);
                        assert(data@[i + 4] == eb[4]);
                        assert(data@[i + 5] == eb[5]);
                        assert(m[j] / 16 < 2);
                    }
                }
                let hi: u8;
                let lo: u8;
                if d0 == 48 && d1 == 48 && 48 <= h1 && h1 <= 57 {
                    hi = h1 - 48;
                } else {
                    // Canonical high nibbles are the digits 0 and 1.
                    return Option::None;
                }
                if 48 <= h2 && h2 <= 57 {
                    lo = h2 - 48;
                } else if 97 <= h2 && h2 <= 102 {
                    lo = h2 - 87;
                } else {
                    return Option::None;
                }
                let v = hi * 16 + lo;
                proof {
                    assert forall|m: Seq<u8>|
                        canonical_str_at(data@, pos as int, m) implies m[out@.len() as int]
                        == v by {
                        let j = out@.len() as int;
                        let b0 = m[j];
                        assert(hex_digit(b0 / 16) == h1 && hex_digit(b0 % 16) == h2);
                        assert(b0 / 16 == hi);
                        assert(b0 % 16 == lo) by {
                            if b0 % 16 < 10 {
                                assert(hex_digit(b0 % 16) == 48 + b0 % 16);
                            } else {
                                assert(hex_digit(b0 % 16) == 87 + b0 % 16);
                            }
                        };
                        assert(b0 == b0 / 16 * 16 + b0 % 16);
                    }
                }
                if v >= 32 || v == 9 || v == 10 || v == 13 {
                    // Not the canonical notation of any byte.
                    return Option::None;
                }
                decoded = v;
                consumed = 6;
            } else {
                // Unknown escape class.
                proof {
                    assert forall|m: Seq<u8>| !canonical_str_at(data@, pos as int, m) by {
                        if canonical_str_at(data@, pos as int, m) {
                            let j = out@.len() as int;
                            let eb = esc_byte(m[j]);
                            assert(eb[1] == 34 || eb[1] == 92 || eb[1] == 110 || eb[1] == 114
                                || eb[1] == 116 || eb[1] == 117);
                            assert(eb[1] == data@[i + 1]);
                        }
                    }
                }
                return Option::None;
            }
            proof {
                assert(esc_byte(decoded).len() == consumed);
                assert forall|q: int| 0 <= q < consumed implies esc_byte(decoded)[q] == data@[i
                    + q] by {
                    if consumed == 6 {
                        assert(esc_byte(decoded) =~= seq![
                            92u8,
                            117u8,
                            48u8,
                            48u8,
                            hex_digit(decoded / 16),
                            hex_digit(decoded % 16),
                        ]);
                    }
                }
                lemma_escape_push(out@, decoded);
                assert(data@.subrange(pos as int, (i + consumed) as int) =~= escape(out@)
                    + esc_byte(decoded));
                assert forall|m: Seq<u8>|
                    canonical_str_at(data@, pos as int, m) implies out@.push(decoded).len()
                    <= m.len() && out@.push(decoded) == m.take(out@.push(decoded).len() as int) by {
                    let j = out@.len() as int;
                    let eb = esc_byte(m[j]);
                    assert(eb[0] == data@[i as int] && eb[0] == 92);
                    assert(forall|q: int| 0 <= q < eb.len() ==> data@[i + q] == eb[q]);
                    assert(eb[1] == data@[i + 1]);
                    assert(m[j] == decoded) by {
                        if eb[1] == 117 {
                            assert(eb =~= seq![
                                92u8,
                                117u8,
                                48u8,
                                48u8,
                                hex_digit(m[j] / 16),
                                hex_digit(m[j] % 16),
                            ]);
                            assert(hex_digit(m[j] / 16) == data@[i + 4]);
                            assert(hex_digit(m[j] % 16) == data@[i + 5]);
                            assert(hex_digit(decoded / 16) == data@[i + 4]);
                            assert(hex_digit(decoded % 16) == data@[i + 5]);
                        }
                    }
                    assert(out@.push(decoded) =~= m.take(j + 1));
                }
            }
            out.push(decoded);
            i = i + consumed;
        } else if b < 32 {
            // A raw control byte is not valid string content.
            proof {
                assert forall|m: Seq<u8>| !canonical_str_at(data@, pos as int, m) by {
                    if canonical_str_at(data@, pos as int, m) {
                        let j = out@.len() as int;
                        assert(j < m.len());
                        let eb = esc_byte(m[j]);
                        assert(eb[0] == data@[i as int]);
                    }
                }
            }
            return Option::None;
        } else {
            // A plain byte stands for itself.
            proof {
                lemma_escape_push(out@, b);
                assert(data@.subrange(pos as int, (i + 1) as int) =~= escape(out@) + esc_byte(b));
                assert forall|m: Seq<u8>|
                    canonical_str_at(data@, pos as int, m) implies out@.push(b).len() <= m.len()
                    && out@.push(b) == m.take(out@.push(b).len() as int) by {
                    let j = out@.len() as int;
                    let eb = esc_byte(m[j]);
                    assert(eb[0] == data@[i as int]);
                    assert(m[j] == b);
                    assert(out@.push(b) =~= m.take(j + 1));
                }
            }
            out.push(b);
            i = i + 1;
        }
    }
}

} // verus!
