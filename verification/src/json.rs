//! Byte-level building blocks of the wire payload text.
//!
//! Payloads travel as UTF-8 JSON. This module defines, over byte
//! sequences, the canonical string escaping and decimal number layout
//! that the codec emits, the matching parsers, and the round-trip
//! lemmas tying the two together.

use vstd::prelude::*;

verus! {

/// Lower-case hexadecimal digit for a value below 16.
pub open spec fn hex_digit(n: u8) -> u8
    recommends
        n < 16,
{
    if n < 10 {
        (0x30 + n) as u8
    } else {
        (0x57 + n) as u8
    }
}

/// Canonical escape of one byte inside a JSON string literal:
/// `"` and `\` get a backslash, control bytes become `\u00xy`,
/// everything else (multi-byte UTF-8 included) passes through.
pub open spec fn esc_byte(b: u8) -> Seq<u8> {
    if b == 0x22 {
        seq![0x5cu8, 0x22u8]
    } else if b == 0x5c {
        seq![0x5cu8, 0x5cu8]
    } else if b < 0x20 {
        seq![0x5cu8, 0x75u8, 0x30u8, 0x30u8, hex_digit(b / 16), hex_digit(b % 16)]
    } else {
        seq![b]
    }
}

/// Canonical escape of a whole byte string.
pub open spec fn escape(s: Seq<u8>) -> Seq<u8>
    decreases s.len(),
{
    if s.len() == 0 {
        Seq::empty()
    } else {
        esc_byte(s[0]) + escape(s.subrange(1, s.len() as int))
    }
}

pub proof fn lemma_escape_push(s: Seq<u8>, b: u8)
    ensures
        escape(s.push(b)) == escape(s) + esc_byte(b),
    decreases s.len(),
{
    if s.len() == 0 {
        assert(s.push(b)[0] == b);
        let tail = s.push(b).subrange(1, s.push(b).len() as int);
        assert(tail =~= Seq::<u8>::empty());
        assert(escape(tail) == Seq::<u8>::empty());
        assert(escape(s.push(b)) == esc_byte(b) + escape(tail));
        assert(escape(s) == Seq::<u8>::empty());
        assert(escape(s.push(b)) =~= escape(s) + esc_byte(b));
    } else {
        assert(s.push(b).subrange(1, s.push(b).len() as int) =~= s.subrange(
            1,
            s.len() as int,
        ).push(b));
        lemma_escape_push(s.subrange(1, s.len() as int), b);
        assert(escape(s.push(b)) =~= escape(s) + esc_byte(b));
    }
}

/// Appends the canonical escape of `s` to `out`.
pub fn escape_into(out: &mut Vec<u8>, s: &Vec<u8>)
    ensures
        final(out)@ == old(out)@ + escape(s@),
{
    let mut i: usize = 0;
    proof {
        assert(s@.subrange(0, 0) =~= Seq::<u8>::empty());
        assert(out@ =~= out@ + escape(s@.subrange(0, 0)));
    }
    while i < s.len()
        invariant
            i <= s.len(),
            out@ == old(out)@ + escape(s@.subrange(0, i as int)),
        decreases s.len() - i,
    {
        let b = s[i];
        if b == 0x22 {
            out.push(0x5c);
            out.push(0x22);
        } else if b == 0x5c {
            out.push(0x5c);
            out.push(0x5c);
        } else if b < 0x20 {
            out.push(0x5c);
            out.push(0x75);
            out.push(0x30);
            out.push(0x30);
            let hi = b / 16;
            let lo = b % 16;
            out.push(if hi < 10 { 0x30 + hi } else { 0x57 + hi });
            out.push(if lo < 10 { 0x30 + lo } else { 0x57 + lo });
        } else {
            out.push(b);
        }
        proof {
            assert(s@.subrange(0, i + 1) =~= s@.subrange(0, i as int).push(s@[i as int]));
            lemma_escape_push(s@.subrange(0, i as int), s@[i as int]);
            assert(out@ =~= old(out)@ + escape(s@.subrange(0, i + 1)));
        }
        i = i + 1;
    }
    proof {
        assert(s@.subrange(0, s@.len() as int) =~= s@);
    }
}

/// Decimal layout of a number, most significant digit first.
pub open spec fn dec_u64(n: nat) -> Seq<u8>
    decreases n,
{
    if n < 10 {
        seq![(0x30 + n) as u8]
    } else {
        dec_u64(n / 10) + seq![(0x30 + (n % 10)) as u8]
    }
}

/// Appends the decimal digits of `n` to `out`.
pub fn push_dec_u64(out: &mut Vec<u8>, n: u64)
    ensures
        final(out)@ == old(out)@ + dec_u64(n as nat),
    decreases n,
{
    if n < 10 {
        out.push(0x30 + n as u8);
        assert(out@ =~= old(out)@ + dec_u64(n as nat));
    } else {
        push_dec_u64(out, n / 10);
        out.push(0x30 + (n % 10) as u8);
        assert(out@ =~= old(out)@ + dec_u64(n as nat));
    }
}

/// True when `lit` occurs in `s` starting at position `i`.
pub open spec fn match_at(s: Seq<u8>, i: int, lit: Seq<u8>) -> bool {
    &&& 0 <= i
    &&& i + lit.len() <= s.len()
    &&& s.subrange(i, i + lit.len()) == lit
}

/// Compares the bytes of `v` at `i` against `lit`.
pub fn lit_at(v: &Vec<u8>, i: usize, lit: &Vec<u8>) -> (r: bool)
    ensures
        r == match_at(v@, i as int, lit@),
{
    if i > v.len() || v.len() - i < lit.len() {
        return false;
    }
    let mut k: usize = 0;
    while k < lit.len()
        invariant
            i + lit.len() <= v.len(),
            k <= lit.len(),
            forall|t: int| 0 <= t < k ==> v@[i + t] == lit@[t],
        decreases lit.len() - k,
    {
        if v[i + k] != lit[k] {
            proof {
                assert(!match_at(v@, i as int, lit@)) by {
                    if match_at(v@, i as int, lit@) {
                        assert(v@.subrange(i as int, i + lit@.len())[k as int] == v@[i + k]);
                    }
                }
            }
            return false;
        }
        k = k + 1;
    }
    proof {
        assert(v@.subrange(i as int, i + lit@.len()) =~= lit@);
    }
    true
}

/// A lower-case hexadecimal digit byte.
pub open spec fn is_hex_lower(b: u8) -> bool {
    (0x30 <= b && b <= 0x39) || (0x61 <= b && b <= 0x66)
}

/// Value of a lower-case hexadecimal digit byte.
pub open spec fn hex_val(b: u8) -> u8
    recommends
        is_hex_lower(b),
{
    if b <= 0x39 {
        (b - 0x30) as u8
    } else {
        (b - 0x57) as u8
    }
}

/// Parses the body of a JSON string literal starting at `i` (the
/// opening quote already consumed), up to and including the closing
/// quote. Yields the unescaped bytes and the position after the
/// closing quote. Accepts exactly the escapes this codec emits.
pub open spec fn parse_str_body(s: Seq<u8>, i: int) -> Option<(Seq<u8>, int)>
    decreases s.len() - i,
        when 0 <= i <= s.len()
{
    if i >= s.len() {
        None
    } else if s[i] == 0x22 {
        Some((Seq::empty(), i + 1))
    } else if s[i] == 0x5c {
        if i + 1 < s.len() && (s[i + 1] == 0x22 || s[i + 1] == 0x5c) {
            match parse_str_body(s, i + 2) {
                Some((c, n)) => Some((seq![s[i + 1]] + c, n)),
                None => None,
            }
        } else if i + 5 < s.len() && s[i + 1] == 0x75 && s[i + 2] == 0x30 && s[i + 3] == 0x30
            && is_hex_lower(s[i + 4]) && is_hex_lower(s[i + 5]) && hex_val(s[i + 4]) * 16 + hex_val(
            s[i + 5],
        ) < 0x20 {
            match parse_str_body(s, i + 6) {
                Some((c, n)) => Some(
                    (seq![(hex_val(s[i + 4]) * 16 + hex_val(s[i + 5])) as u8] + c, n),
                ),
                None => None,
            }
        } else {
            None
        }
    } else if s[i] >= 0x20 {
        match parse_str_body(s, i + 1) {
            Some((c, n)) => Some((seq![s[i]] + c, n)),
            None => None,
        }
    } else {
        None
    }
}

pub proof fn lemma_parse_str_body_advances(s: Seq<u8>, i: int)
    requires
        0 <= i <= s.len(),
        parse_str_body(s, i) is Some,
    ensures
        i < (parse_str_body(s, i)->0).1 <= s.len(),
    decreases s.len() - i,
{
    if s[i] == 0x22 {
    } else if s[i] == 0x5c {
        if i + 1 < s.len() && (s[i + 1] == 0x22 || s[i + 1] == 0x5c) {
            lemma_parse_str_body_advances(s, i + 2);
        } else {
            lemma_parse_str_body_advances(s, i + 6);
        }
    } else {
        lemma_parse_str_body_advances(s, i + 1);
    }
}

/// Parsing the canonical escape of `b`, followed by a closing quote,
/// yields `b` back and stops right after that quote.
pub proof fn lemma_parse_escape(s: Seq<u8>, i: int, b: Seq<u8>)
    requires
        0 <= i,
        i + escape(b).len() + 1 <= s.len(),
        s.subrange(i, i + escape(b).len()) == escape(b),
        s[i + escape(b).len()] == 0x22,
    ensures
        parse_str_body(s, i) == Some((b, i + escape(b).len() + 1)),
    decreases b.len(),
{
    let l = escape(b).len() as int;
    if b.len() == 0 {
        assert(escape(b) == Seq::<u8>::empty());
        assert(s[i] == 0x22);
        assert(b =~= Seq::<u8>::empty());
    } else {
        let b0 = b[0];
        let rest = b.subrange(1, b.len() as int);
        let e0 = esc_byte(b0);
        assert(escape(b) == e0 + escape(rest));
        assert forall|k: int| 0 <= k < e0.len() implies s[i + k] == e0[k] by {
            assert(s.subrange(i, i + l)[k] == s[i + k]);
            assert(escape(b)[k] == e0[k]);
        }
        assert(s.subrange(i + e0.len(), i + l) =~= escape(rest)) by {
            assert forall|t: int| 0 <= t < escape(rest).len() implies s.subrange(
                i + e0.len(),
                i + l,
            )[t] == escape(rest)[t] by {
                assert(s.subrange(i + e0.len(), i + l)[t] == s[i + e0.len() + t]);
                assert(s.subrange(i, i + l)[e0.len() + t] == s[i + e0.len() + t]);
                assert(escape(b)[e0.len() + t] == escape(rest)[t]);
            }
        }
        if b0 == 0x22 || b0 == 0x5c {
            assert(s[i] == 0x5c && s[i + 1] == b0);
            lemma_parse_escape(s, i + 2, rest);
            assert(seq![s[i + 1]] + rest =~= b);
        } else if b0 < 0x20 {
            assert(s[i] == 0x5c && s[i + 1] == 0x75 && s[i + 2] == 0x30 && s[i + 3] == 0x30);
            let hi = (b0 / 16) as u8;
            let lo = (b0 % 16) as u8;
            assert(s[i + 4] == hex_digit(hi) && s[i + 5] == hex_digit(lo));
            assert(is_hex_lower(hex_digit(hi)) && hex_val(hex_digit(hi)) == hi);
            assert(is_hex_lower(hex_digit(lo)) && hex_val(hex_digit(lo)) == lo);
            assert(hex_val(s[i + 4]) * 16 + hex_val(s[i + 5]) == b0);
            lemma_parse_escape(s, i + 6, rest);
            assert(seq![(hex_val(s[i + 4]) * 16 + hex_val(s[i + 5])) as u8] + rest =~= b);
        } else {
            assert(s[i + 0] == e0[0]);
            assert(s[i] == b0);
            lemma_parse_escape(s, i + 1, rest);
            assert(seq![s[i]] + rest =~= b);
        }
    }
}

/// Parses a string body from `v` at position `i`, as `parse_str_body`
/// describes.
pub fn parse_str_exec(v: &Vec<u8>, i: usize) -> (r: Option<(Vec<u8>, usize)>)
    requires
        i <= v@.len(),
    ensures
        (r matches Some(p) ==> parse_str_body(v@, i as int) == Some((p.0@, p.1 as int)) && i < p.1
            <= v@.len()),
        r is None ==> parse_str_body(v@, i as int) is None,
{
    let ghost whole = parse_str_body(v@, i as int);
    let mut out: Vec<u8> = Vec::new();
    let mut j: usize = i;
    loop
        invariant
            i <= j <= v@.len(),
            whole == parse_str_body(v@, i as int),
            whole is Some <==> parse_str_body(v@, j as int) is Some,
            forall|c: Seq<u8>, n: int|
                parse_str_body(v@, j as int) == Some((c, n)) ==> whole == Some((out@ + c, n)),
        decreases v@.len() - j,
    {
        if j >= v.len() {
            return None;
        }
        let b = v[j];
        if b == 0x22 {
            proof {
                assert(parse_str_body(v@, j as int) == Some((Seq::<u8>::empty(), j + 1)));
                assert(out@ + Seq::<u8>::empty() =~= out@);
                lemma_parse_str_body_advances(v@, i as int);
            }
            return Some((out, j + 1));
        } else if b == 0x5c {
            if j + 1 < v.len() && (v[j + 1] == 0x22 || v[j + 1] == 0x5c) {
                let ghost prev_out = out@;
                out.push(v[j + 1]);
                proof {
                    assert forall|c: Seq<u8>, n: int|
                        parse_str_body(v@, j + 2) == Some((c, n)) implies whole == Some(
                        (out@ + c, n),
                    ) by {
                        assert(parse_str_body(v@, j as int) == Some((seq![v@[j + 1]] + c, n)));
                        assert(prev_out + (seq![v@[j + 1]] + c) =~= out@ + c);
                    }
                }
                j = j + 2;
            } else {
                let rem = v.len() - j;
                let ok = rem > 5 && v[j + 1] == 0x75 && v[j + 2] == 0x30 && v[j + 3] == 0x30;
                if ok {
                    let h1 = v[j + 4];
                    let h2 = v[j + 5];
                    let hx1 = (0x30 <= h1 && h1 <= 0x39) || (0x61 <= h1 && h1 <= 0x66);
                    let hx2 = (0x30 <= h2 && h2 <= 0x39) || (0x61 <= h2 && h2 <= 0x66);
                    if hx1 && hx2 {
                        let v1 = if h1 <= 0x39 {
                            h1 - 0x30
                        } else {
                            h1 - 0x57
                        };
                        let v2 = if h2 <= 0x39 {
                            h2 - 0x30
                        } else {
                            h2 - 0x57
                        };
                        let val = v1 * 16 + v2;
                        if val < 0x20 {
                            let ghost prev_out = out@;
                            out.push(val);
                            proof {
                                assert forall|c: Seq<u8>, n: int|
                                    parse_str_body(v@, j + 6) == Some((c, n)) implies whole
                                    == Some((out@ + c, n)) by {
                                    assert(parse_str_body(v@, j as int) == Some(
                                        (seq![val] + c, n),
                                    ));
                                    assert(prev_out + (seq![val] + c) =~= out@ + c);
                                }
                            }
                            j = j + 6;
                        } else {
                            proof {
                                assert(parse_str_body(v@, j as int) is None);
                            }
                            return None;
                        }
                    } else {
                        proof {
                            assert(parse_str_body(v@, j as int) is None);
                        }
                        return None;
                    }
                } else {
                    proof {
                        assert(parse_str_body(v@, j as int) is None);
                    }
                    return None;
                }
            }
        } else if b >= 0x20 {
            let ghost prev_out = out@;
            out.push(b);
            proof {
                assert forall|c: Seq<u8>, n: int|
                    parse_str_body(v@, j + 1) == Some((c, n)) implies whole == Some(
                    (out@ + c, n),
                ) by {
                    assert(parse_str_body(v@, j as int) == Some((seq![v@[j as int]] + c, n)));
                    assert(prev_out + (seq![v@[j as int]] + c) =~= out@ + c);
                }
            }
            j = j + 1;
        } else {
            proof {
                assert(parse_str_body(v@, j as int) is None);
            }
            return None;
        }
    }
}

/// A decimal digit byte.
pub open spec fn is_digit(b: u8) -> bool {
    0x30 <= b && b <= 0x39
}

/// First position at or after `i` that does not hold a digit.
pub open spec fn digits_end(s: Seq<u8>, i: int) -> int
    decreases s.len() - i,
        when 0 <= i <= s.len()
{
    if i < s.len() && is_digit(s[i]) {
        digits_end(s, i + 1)
    } else {
        i
    }
}

pub proof fn lemma_digits_end_bounds(s: Seq<u8>, i: int)
    requires
        0 <= i <= s.len(),
    ensures
        i <= digits_end(s, i) <= s.len(),
    decreases s.len() - i,
{
    if i < s.len() && is_digit(s[i]) {
        lemma_digits_end_bounds(s, i + 1);
    }
}

/// The number a digit string denotes.
pub open spec fn dec_val(ds: Seq<u8>) -> nat
    decreases ds.len(),
{
    if ds.len() == 0 {
        0
    } else {
        (dec_val(ds.drop_last()) * 10 + (ds.last() - 0x30)) as nat
    }
}

/// Parses a maximal digit run starting at `i` into its value.
pub open spec fn parse_num(s: Seq<u8>, i: int) -> Option<(nat, int)>
    recommends
        0 <= i <= s.len(),
{
    let e = digits_end(s, i);
    if e == i {
        None
    } else {
        Some((dec_val(s.subrange(i, e)), e))
    }
}

pub proof fn lemma_dec_val_push(ds: Seq<u8>, d: u8)
    requires
        is_digit(d),
    ensures
        dec_val(ds.push(d)) == dec_val(ds) * 10 + (d - 0x30),
{
    assert(ds.push(d).drop_last() =~= ds);
    assert(ds.push(d).last() == d);
}

/// Every byte the decimal layout emits is a digit.
pub proof fn lemma_dec_u64_digits(n: nat)
    ensures
        dec_u64(n).len() >= 1,
        forall|k: int| 0 <= k < dec_u64(n).len() ==> is_digit(#[trigger] dec_u64(n)[k]),
    decreases n,
{
    if n >= 10 {
        lemma_dec_u64_digits(n / 10);
        assert(forall|k: int|
            0 <= k < dec_u64(n / 10).len() ==> is_digit(#[trigger] dec_u64(n)[k]));
    }
}

/// A digit run bounded by a non-digit (or the end) determines `digits_end`.
pub proof fn lemma_digits_end_of_run(s: Seq<u8>, i: int, j: int)
    requires
        0 <= i <= j <= s.len(),
        forall|t: int| i <= t < j ==> is_digit(#[trigger] s[t]),
        j == s.len() || !is_digit(s[j]),
    ensures
        digits_end(s, i) == j,
    decreases j - i,
{
    if i < j {
        lemma_digits_end_of_run(s, i + 1, j);
    }
}

/// The decimal layout evaluates back to the number it came from.
pub proof fn lemma_dec_val_dec_u64(n: nat)
    ensures
        dec_val(dec_u64(n)) == n,
    decreases n,
{
    if n < 10 {
        let ds = dec_u64(n);
        assert(ds =~= seq![(0x30 + n) as u8]);
        assert(ds.len() == 1);
        assert(ds.drop_last() =~= Seq::<u8>::empty());
        assert(dec_val(ds.drop_last()) == 0);
        assert(ds.last() == (0x30 + n) as u8);
        assert(ds.last() - 0x30 == n);
        assert(dec_val(ds) == (0 * 10 + (ds.last() - 0x30)) as nat);
    } else {
        lemma_dec_val_dec_u64(n / 10);
        let d = (0x30 + (n % 10)) as u8;
        assert(dec_u64(n) =~= dec_u64(n / 10).push(d));
        lemma_dec_val_push(dec_u64(n / 10), d);
        assert(dec_val(dec_u64(n)) == (n / 10) * 10 + n % 10);
    }
}

/// Parsing the decimal layout of `n`, stopped by a non-digit or the
/// end, yields `n` back.
pub proof fn lemma_parse_num_of_dec(s: Seq<u8>, i: int, n: u64)
    requires
        0 <= i,
        i + dec_u64(n as nat).len() <= s.len(),
        s.subrange(i, i + dec_u64(n as nat).len()) == dec_u64(n as nat),
        i + dec_u64(n as nat).len() == s.len() || !is_digit(s[i + dec_u64(n as nat).len()]),
    ensures
        parse_num(s, i) == Some((n as nat, i + dec_u64(n as nat).len())),
{
    let l = dec_u64(n as nat).len() as int;
    lemma_dec_u64_digits(n as nat);
    assert forall|t: int| i <= t < i + l implies is_digit(#[trigger] s[t]) by {
        assert(s.subrange(i, i + l)[t - i] == s[t]);
        assert(is_digit(dec_u64(n as nat)[t - i]));
    }
    lemma_digits_end_of_run(s, i, i + l);
    lemma_dec_val_dec_u64(n as nat);
}

/// Parses a number from `v` at position `i`, as `parse_num` describes;
/// values that do not fit the counter width are rejected.
pub fn parse_num_exec(v: &Vec<u8>, i: usize) -> (r: Option<(u64, usize)>)
    requires
        i <= v@.len(),
    ensures
        (r matches Some(p) ==> parse_num(v@, i as int) == Some((p.0 as nat, p.1 as int)) && i
            < p.1 <= v@.len()),
        r is None ==> (parse_num(v@, i as int) is None || (parse_num(v@, i as int) matches Some(
            q,
        ) && q.0 > u64::MAX)),
{
    let mut j: usize = i;
    let mut acc: u64 = 0;
    let mut fits: bool = true;
    proof {
        assert(v@.subrange(i as int, i as int) =~= Seq::<u8>::empty());
    }
    while j < v.len() && v[j] >= 0x30 && v[j] <= 0x39
        invariant
            i <= j <= v@.len(),
            forall|t: int| i <= t < j ==> is_digit(#[trigger] v@[t]),
            fits ==> acc as nat == dec_val(v@.subrange(i as int, j as int)),
            !fits ==> dec_val(v@.subrange(i as int, j as int)) > u64::MAX,
        decreases v@.len() - j,
    {
        let d = v[j] - 0x30;
        let ghost ds = v@.subrange(i as int, j as int);
        proof {
            assert(v@.subrange(i as int, j + 1) =~= ds.push(v@[j as int]));
            lemma_dec_val_push(ds, v@[j as int]);
        }
        if fits && acc <= (u64::MAX - d as u64) / 10 {
            proof {
                let m = u64::MAX - d;
                assert(acc * 10 <= (m / 10) * 10);
                assert((m / 10) * 10 <= m);
            }
            acc = acc * 10 + d as u64;
        } else if fits {
            proof {
                let m = (u64::MAX - d) as int;
                assert(acc >= m / 10 + 1);
                assert(acc * 10 >= (m / 10 + 1) * 10);
                assert((m / 10) * 10 + 10 >= m + 1);
                assert(acc * 10 + d > u64::MAX);
            }
            fits = false;
        } else {
            proof {
                assert(dec_val(ds) * 10 >= dec_val(ds));
            }
        }
        j = j + 1;
    }
    proof {
        lemma_digits_end_of_run(v@, i as int, j as int);
    }
    if j == i {
        return None;
    }
    if fits {
        Some((acc, j))
    } else {
        None
    }
}

} // verus!
