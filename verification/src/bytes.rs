//! Byte-level text helpers for the command grammar: splitting a line on a
//! separator, and parsing unsigned integers and fixed-point decimals.
//!
//! Decimals are parsed straight into fixed point: the value of
//! `<digits>.<digits>` in steps of `crate::units::SCALE`, with the sign in
//! front. The accepted grammar is an optional sign followed by digits, a
//! dot with digits on at least one side, or both; fraction digits past the
//! sixth are cut off.

use vstd::prelude::*;

use crate::units::SCALE;

verus! {

/// An ASCII digit.
pub open spec fn spec_is_digit(c: u8) -> bool {
    48 <= c <= 57
}

/// Every byte is an ASCII digit.
pub open spec fn spec_all_digits(t: Seq<u8>) -> bool {
    forall|k: int| 0 <= k < t.len() ==> spec_is_digit(#[trigger] t[k])
}

/// The number a digit string denotes.
pub open spec fn spec_digits_val(t: Seq<u8>) -> int
    decreases t.len(),
{
    if t.len() == 0 {
        0
    } else {
        spec_digits_val(t.drop_last()) * 10 + (t.last() - 48)
    }
}

/// `10^k`.
pub open spec fn spec_pow10(k: nat) -> int
    decreases k,
{
    if k == 0 {
        1
    } else {
        10 * spec_pow10((k - 1) as nat)
    }
}

/// A digit string's value is non-negative.
pub proof fn lemma_digits_val_nonneg(t: Seq<u8>)
    requires
        spec_all_digits(t),
    ensures
        spec_digits_val(t) >= 0,
    decreases t.len(),
{
    if t.len() > 0 {
        assert(spec_all_digits(t.drop_last())) by {
            assert(forall|k: int|
                0 <= k < t.len() - 1 ==> #[trigger] t.drop_last()[k] == t[k]);
        }
        lemma_digits_val_nonneg(t.drop_last());
        assert(spec_digits_val(t.drop_last()) * 10 >= 0) by (nonlinear_arith)
            requires
                spec_digits_val(t.drop_last()) >= 0,
        ;
    }
}

/// A digit string of length `n` denotes less than `10^n`.
pub proof fn lemma_digits_val_bound(t: Seq<u8>)
    requires
        spec_all_digits(t),
    ensures
        spec_digits_val(t) < spec_pow10(t.len()),
    decreases t.len(),
{
    if t.len() > 0 {
        assert(spec_all_digits(t.drop_last())) by {
            assert(forall|k: int|
                0 <= k < t.len() - 1 ==> #[trigger] t.drop_last()[k] == t[k]);
        }
        lemma_digits_val_bound(t.drop_last());
        let p = spec_pow10((t.len() - 1) as nat);
        assert(spec_digits_val(t.drop_last()) * 10 <= (p - 1) * 10) by (nonlinear_arith)
            requires
                spec_digits_val(t.drop_last()) <= p - 1,
        ;
    }
}

/// A digit string denotes at least as much as any of its prefixes.
pub proof fn lemma_digits_val_prefix(t: Seq<u8>, j: int)
    requires
        spec_all_digits(t),
        0 <= j <= t.len(),
    ensures
        spec_digits_val(t.take(j)) <= spec_digits_val(t),
    decreases t.len(),
{
    if j == t.len() {
        assert(t.take(j) =~= t);
    } else {
        assert(spec_all_digits(t.drop_last())) by {
            assert(forall|k: int|
                0 <= k < t.len() - 1 ==> #[trigger] t.drop_last()[k] == t[k]);
        }
        assert(t.take(j) =~= t.drop_last().take(j));
        lemma_digits_val_prefix(t.drop_last(), j);
        lemma_digits_val_nonneg(t.drop_last());
        assert(spec_is_digit(t[t.len() - 1]));
        assert(spec_digits_val(t.drop_last()) * 10 >= spec_digits_val(t.drop_last()))
            by (nonlinear_arith)
            requires
                spec_digits_val(t.drop_last()) >= 0,
        ;
    }
}

/// `10^a * 10^b == 10^(a + b)`.
pub proof fn lemma_pow10_add(a: nat, b: nat)
    ensures
        spec_pow10(a) * spec_pow10(b) == spec_pow10(a + b),
    decreases a,
{
    if a == 0 {
        assert(1 * spec_pow10(b) == spec_pow10(b)) by (nonlinear_arith);
    } else {
        lemma_pow10_add((a - 1) as nat, b);
        assert((10 * spec_pow10((a - 1) as nat)) * spec_pow10(b) == 10 * (spec_pow10(
            (a - 1) as nat,
        ) * spec_pow10(b))) by (nonlinear_arith);
    }
}

/// The position of the first occurrence of `sep`, or the length if there
/// is none.
pub open spec fn spec_first_index(s: Seq<u8>, sep: u8) -> int
    decreases s.len(),
{
    if s.len() == 0 {
        0
    } else if s[0] == sep {
        0
    } else {
        1 + spec_first_index(s.skip(1), sep)
    }
}

/// What the first-index position means: nothing before it is the
/// separator, and the position itself holds the separator unless it is
/// the length.
pub proof fn lemma_first_index(s: Seq<u8>, sep: u8)
    ensures
        0 <= spec_first_index(s, sep) <= s.len(),
        forall|k: int| 0 <= k < spec_first_index(s, sep) ==> #[trigger] s[k] != sep,
        spec_first_index(s, sep) < s.len() ==> s[spec_first_index(s, sep)] == sep,
    decreases s.len(),
{
    if s.len() > 0 && s[0] != sep {
        lemma_first_index(s.skip(1), sep);
        assert forall|k: int| 0 <= k < spec_first_index(s, sep) implies #[trigger] s[k]
            != sep by {
            if k > 0 {
                assert(s.skip(1)[k - 1] != sep);
            }
        }
    }
}

/// Any position with no separator before it, and the separator at it or
/// the string's end behind it, is the first-index position.
pub proof fn lemma_first_index_unique(s: Seq<u8>, sep: u8, i: int)
    requires
        0 <= i <= s.len(),
        forall|k: int| 0 <= k < i ==> #[trigger] s[k] != sep,
        i < s.len() ==> s[i] == sep,
    ensures
        spec_first_index(s, sep) == i,
{
    lemma_first_index(s, sep);
    let fi = spec_first_index(s, sep);
    if fi < i {
        assert(s[fi] != sep);
    }
    if i < fi {
        assert(s[i] != sep);
    }
}

/// The tokens of `s` split on `sep`: always at least one token, with
/// empty tokens where separators touch.
pub open spec fn spec_split(s: Seq<u8>, sep: u8) -> Seq<Seq<u8>>
    decreases s.len(),
{
    if s.len() == 0 {
        seq![Seq::<u8>::empty()]
    } else if s[0] == sep {
        seq![Seq::<u8>::empty()].add(spec_split(s.skip(1), sep))
    } else {
        let r = spec_split(s.skip(1), sep);
        seq![seq![s[0]].add(r[0])].add(r.skip(1))
    }
}

/// Splitting yields at least one token.
pub proof fn lemma_split_len(s: Seq<u8>, sep: u8)
    ensures
        spec_split(s, sep).len() >= 1,
    decreases s.len(),
{
    if s.len() > 0 {
        lemma_split_len(s.skip(1), sep);
    }
}

/// Whether two byte strings hold the same bytes.
pub fn bytes_eq(a: &[u8], b: &[u8]) -> (r: bool)
    ensures
        r <==> a@ == b@,
{
    if a.len() != b.len() {
        return false;
    }
    let n = a.len();
    let mut i: usize = 0;
    while i < n
        invariant
            n == a@.len(),
            n == b@.len(),
            i <= n,
            forall|k: int| 0 <= k < i ==> a@[k] == b@[k],
        decreases n - i,
    {
        if a[i] != b[i] {
            return false;
        }
        i = i + 1;
    }
    proof {
        assert(a@ =~= b@);
    }
    true
}

/// An owned copy of a byte string.
pub fn copy_bytes(src: &[u8]) -> (r: Vec<u8>)
    ensures
        r@ == src@,
{
    let mut r: Vec<u8> = Vec::new();
    let n = src.len();
    let mut i: usize = 0;
    while i < n
        invariant
            n == src@.len(),
            i <= n,
            r@ == src@.take(i as int),
        decreases n - i,
    {
        r.push(src[i]);
        proof {
            assert(src@.take(i + 1) =~= src@.take(i as int).push(src@[i as int]));
        }
        i = i + 1;
    }
    proof {
        assert(src@.take(n as int) =~= src@);
    }
    r
}

/// The first token of `r` with `c` in front of it, and the rest of `r`.
pub open spec fn spec_prefix_first(c: Seq<u8>, r: Seq<Seq<u8>>) -> Seq<Seq<u8>>
    recommends
        r.len() >= 1,
{
    seq![c.add(r[0])].add(r.skip(1))
}

/// Splits a byte string into its tokens on the separator.
pub fn split_bytes(s: &[u8], sep: u8) -> (r: Vec<Vec<u8>>)
    ensures
        r@.len() == spec_split(s@, sep).len(),
        forall|k: int| 0 <= k < r@.len() ==> #[trigger] r@[k]@ == spec_split(s@, sep)[k],
{
    let mut toks: Vec<Vec<u8>> = Vec::new();
    let ghost mut gtoks: Seq<Seq<u8>> = Seq::empty();
    let mut cur: Vec<u8> = Vec::new();
    let n = s.len();
    let mut pos: usize = 0;
    proof {
        assert(s@.skip(0) =~= s@);
        lemma_split_len(s@, sep);
        assert(spec_split(s@, sep) =~~= gtoks.add(spec_prefix_first(cur@, spec_split(s@, sep))));
    }
    while pos < n
        invariant
            n == s@.len(),
            pos <= n,
            toks@.len() == gtoks.len(),
            forall|k: int| 0 <= k < gtoks.len() ==> #[trigger] toks@[k]@ == gtoks[k],
            spec_split(s@, sep) == gtoks.add(
                spec_prefix_first(cur@, spec_split(s@.skip(pos as int), sep)),
            ),
        decreases n - pos,
    {
        let c = s[pos];
        proof {
            assert(s@.skip(pos as int).len() > 0);
            assert(s@.skip(pos as int)[0] == s@[pos as int]);
            assert(s@.skip(pos as int).skip(1) =~= s@.skip(pos + 1));
            lemma_split_len(s@.skip(pos + 1), sep);
        }
        if c == sep {
            proof {
                let rest = spec_split(s@.skip(pos + 1), sep);
                assert(spec_split(s@.skip(pos as int), sep) == seq![Seq::<u8>::empty()].add(
                    rest,
                ));
                assert(spec_prefix_first(cur@, seq![Seq::<u8>::empty()].add(rest)) =~~= seq![
                    cur@,
                ].add(spec_prefix_first(Seq::<u8>::empty(), rest)));
                assert(gtoks.add(
                    seq![cur@].add(spec_prefix_first(Seq::<u8>::empty(), rest)),
                ) =~~= gtoks.push(cur@).add(spec_prefix_first(Seq::<u8>::empty(), rest)));
            }
            toks.push(cur);
            proof {
                gtoks = gtoks.push(toks@[toks@.len() - 1]@);
            }
            cur = Vec::new();
        } else {
            proof {
                let rest = spec_split(s@.skip(pos + 1), sep);
                assert(spec_split(s@.skip(pos as int), sep) == seq![seq![s@[pos as int]].add(
                    rest[0],
                )].add(rest.skip(1)));
                assert(spec_prefix_first(cur@, spec_split(s@.skip(pos as int), sep)) =~~= (
                spec_prefix_first(cur@.push(c), rest)));
            }
            cur.push(c);
        }
        pos = pos + 1;
    }
    proof {
        assert(s@.skip(n as int) =~= Seq::<u8>::empty());
        assert(spec_prefix_first(cur@, spec_split(Seq::<u8>::empty(), sep)) =~~= seq![cur@]);
        assert(spec_split(s@, sep) =~~= gtoks.push(cur@));
    }
    toks.push(cur);
    toks
}

/// The number an unsigned decimal token denotes: an optional leading plus
/// sign, then at least one digit, rejected if the value does not fit.
pub open spec fn spec_parse_u64(t: Seq<u8>) -> Option<u64> {
    let body = if t.len() > 0 && t[0] == 43 {
        t.skip(1)
    } else {
        t
    };
    if body.len() == 0 || !spec_all_digits(body) || spec_digits_val(body) > u64::MAX {
        None
    } else {
        Some(spec_digits_val(body) as u64)
    }
}

/// Parses an unsigned decimal integer as `str::parse::<u64>` reads it: an
/// optional `+`, then digits, with overflow rejected.
pub fn parse_u64(t: &[u8]) -> (r: Option<u64>)
    ensures
        r == spec_parse_u64(t@),
{
    let n = t.len();
    let start: usize = if n > 0 && t[0] == 43 {
        1
    } else {
        0
    };
    let ghost body = if start == 1 {
        t@.skip(1)
    } else {
        t@
    };
    proof {
        assert(body =~= t@.skip(start as int));
        assert(forall|k: int|
            0 <= k < body.len() ==> #[trigger] body[k] == t@[k + start]);
    }
    if n == start {
        return None;
    }
    let mut val: u64 = 0;
    let mut i: usize = start;
    proof {
        assert(body.take(0) =~= Seq::<u8>::empty());
    }
    while i < n
        invariant
            n == t@.len(),
            start <= i <= n,
            body == t@.skip(start as int),
            body == (if t@.len() > 0 && t@[0] == 43 {
                t@.skip(1)
            } else {
                t@
            }),
            body.len() == n - start,
            forall|k: int| 0 <= k < body.len() ==> #[trigger] body[k] == t@[k + start],
            forall|k: int| start <= k < i ==> spec_is_digit(#[trigger] t@[k]),
            val == spec_digits_val(body.take(i - start)),
        decreases n - i,
    {
        let c = t[i];
        if c < 48 || c > 57 {
            proof {
                assert(body[i - start] == c);
                assert(!spec_all_digits(body));
            }
            return None;
        }
        proof {
            assert(body.take(i + 1 - start).drop_last() =~= body.take(i - start));
            assert(body.take(i + 1 - start).last() == t@[i as int]);
            assert(spec_all_digits(body.take(i + 1 - start))) by {
                assert(forall|k: int|
                    0 <= k < i + 1 - start ==> #[trigger] body.take(i + 1 - start)[k] == t@[k
                        + start]);
            }
        }
        let d: u64 = (c - 48) as u64;
        let v10 = match val.checked_mul(10) {
            Some(v) => v,
            None => {
                proof {
                    if spec_all_digits(body) {
                        lemma_overflow_means_too_big(body, i + 1 - start);
                    }
                }
                return None;
            },
        };
        let v = match v10.checked_add(d) {
            Some(v) => v,
            None => {
                proof {
                    if spec_all_digits(body) {
                        lemma_overflow_means_too_big(body, i + 1 - start);
                    }
                }
                return None;
            },
        };
        val = v;
        i = i + 1;
    }
    proof {
        assert(body.take(n - start) =~= body);
        assert(spec_all_digits(body));
    }
    Some(val)
}

/// If some prefix of a digit string already denotes more than `u64::MAX`,
/// so does the whole string.
proof fn lemma_overflow_means_too_big(body: Seq<u8>, j: int)
    requires
        0 <= j <= body.len(),
        spec_all_digits(body.take(j)),
        spec_all_digits(body),
        spec_digits_val(body.take(j)) > u64::MAX,
    ensures
        spec_digits_val(body) > u64::MAX,
{
    lemma_digits_val_prefix(body, j);
}

/// The value of the fraction digits in steps of `SCALE`: the first six
/// digits, scaled so that one digit is a tenth.
pub open spec fn spec_frac_micro(f: Seq<u8>) -> int {
    let g = if f.len() >= 6 {
        f.take(6)
    } else {
        f
    };
    spec_digits_val(g) * spec_pow10((6 - g.len()) as nat)
}

/// The parsed magnitude turned into a signed fixed-point result, rejected
/// if it does not fit.
pub open spec fn spec_fixed_result(neg: bool, mag: int) -> Option<i64> {
    if mag > i64::MAX {
        None
    } else if neg {
        Some((-mag) as i64)
    } else {
        Some(mag as i64)
    }
}

/// The fixed-point value a signed decimal token denotes, in steps of
/// `SCALE`: an optional sign, then digits with an optional dot — digits on
/// at least one side of it — with fraction digits past the sixth cut off.
pub open spec fn spec_parse_fixed(t: Seq<u8>) -> Option<i64> {
    let neg = t.len() > 0 && t[0] == 45;
    let body = if t.len() > 0 && (t[0] == 45 || t[0] == 43) {
        t.skip(1)
    } else {
        t
    };
    let di = spec_first_index(body, 46);
    if di == body.len() {
        if body.len() == 0 || !spec_all_digits(body) {
            None
        } else {
            spec_fixed_result(neg, spec_digits_val(body) * (SCALE as int))
        }
    } else {
        let ip = body.take(di);
        let fp = body.skip(di + 1);
        if ip.len() == 0 && fp.len() == 0 {
            None
        } else if !spec_all_digits(ip) || !spec_all_digits(fp) {
            None
        } else {
            spec_fixed_result(
                neg,
                spec_digits_val(ip) * (SCALE as int) + spec_frac_micro(fp),
            )
        }
    }
}


/// `10^k` is positive.
pub proof fn lemma_pow10_pos(k: nat)
    ensures
        spec_pow10(k) >= 1,
    decreases k,
{
    if k > 0 {
        lemma_pow10_pos((k - 1) as nat);
    }
}

/// The fraction digits denote a value in `[0, SCALE)`.
pub proof fn lemma_frac_micro_bounds(f: Seq<u8>)
    requires
        spec_all_digits(f),
    ensures
        0 <= spec_frac_micro(f) < SCALE,
{
    let g = if f.len() >= 6 {
        f.take(6)
    } else {
        f
    };
    assert(spec_all_digits(g)) by {
        assert(forall|k: int| 0 <= k < g.len() ==> #[trigger] g[k] == f[k]);
    }
    lemma_digits_val_nonneg(g);
    lemma_digits_val_bound(g);
    lemma_pow10_pos(g.len());
    lemma_pow10_pos((6 - g.len()) as nat);
    lemma_pow10_add(g.len(), (6 - g.len()) as nat);
    assert(spec_pow10(6) == 1000000) by {
        reveal_with_fuel(spec_pow10, 7);
    }
    let dv = spec_digits_val(g);
    let p = spec_pow10(g.len());
    let q = spec_pow10((6 - g.len()) as nat);
    assert(dv * q >= 0) by (nonlinear_arith)
        requires
            dv >= 0,
            q >= 1,
    ;
    assert(dv * q <= (p - 1) * q) by (nonlinear_arith)
        requires
            dv <= p - 1,
            q >= 1,
    ;
    assert((p - 1) * q == p * q - q) by (nonlinear_arith);
}

/// A magnitude whose integer part alone exceeds the `u64` range exceeds
/// the fixed-point range too.
proof fn lemma_mag_overflow(dv: int)
    requires
        dv > u64::MAX,
    ensures
        dv * (SCALE as int) > i64::MAX,
{
    assert(dv * (SCALE as int) >= dv * 1) by (nonlinear_arith)
        requires
            dv >= 0,
            SCALE as int >= 1,
    ;
}

/// Parses a signed decimal straight into fixed point, in steps of
/// `SCALE`: an optional sign, digits with an optional dot — digits on at
/// least one side of it — with fraction digits past the sixth cut off and
/// a magnitude outside the `i64` range rejected.
#[verifier::rlimit(60)]
pub fn parse_fixed(t: &[u8]) -> (r: Option<i64>)
    ensures
        r == spec_parse_fixed(t@),
{
    let n = t.len();
    let neg = n > 0 && t[0] == 45;
    let start: usize = if n > 0 && (t[0] == 45 || t[0] == 43) {
        1
    } else {
        0
    };
    let ghost body = if start == 1 {
        t@.skip(1)
    } else {
        t@
    };
    proof {
        assert(body =~= t@.skip(start as int));
        assert(forall|k: int|
            0 <= k < body.len() ==> #[trigger] body[k] == t@[k + start]);
    }
    let mut dot: usize = start;
    while dot < n && t[dot] != 46
        invariant
            n == t@.len(),
            start <= dot <= n,
            forall|k: int| start <= k < dot ==> #[trigger] t@[k] != 46,
        decreases n - dot,
    {
        dot = dot + 1;
    }
    proof {
        assert forall|k: int| 0 <= k < dot - start implies #[trigger] body[k] != 46 by {
            assert(t@[k + start] != 46);
        }
        if (dot as int) < n {
            assert(body[dot - start] == t@[dot as int]);
        }
        lemma_first_index_unique(body, 46, dot - start);
    }
    let ghost di = dot - start as int;
    let ghost ip = body.take(di);
    if dot == n && n == start {
        // nothing but the sign
        return None;
    }
    if dot < n && dot == start && dot + 1 == n {
        // a lone dot
        return None;
    }
    let mut ipv: u64 = 0;
    let mut i: usize = start;
    proof {
        assert(body.take(0) =~= Seq::<u8>::empty());
    }
    while i < dot
        invariant
            n == t@.len(),
            start <= i <= dot <= n,
            di == dot - start,
            neg == (t@.len() > 0 && t@[0] == 45),
            body == (if t@.len() > 0 && (t@[0] == 45 || t@[0] == 43) {
                t@.skip(1)
            } else {
                t@
            }),
            di == spec_first_index(body, 46),
            (dot == n) <==> (di == body.len()),
            body == t@.skip(start as int),
            body.len() == n - start,
            ip == body.take(di),
            forall|k: int| 0 <= k < body.len() ==> #[trigger] body[k] == t@[k + start],
            forall|k: int| start <= k < i ==> spec_is_digit(#[trigger] t@[k]),
            ipv == spec_digits_val(body.take(i - start)),
        decreases dot - i,
    {
        let c = t[i];
        if c < 48 || c > 57 {
            proof {
                assert(body[i - start] == c);
                if dot == n {
                    assert(!spec_all_digits(body));
                } else {
                    assert(ip[i - start] == c);
                    assert(!spec_all_digits(ip));
                }
            }
            return None;
        }
        proof {
            assert(body.take(i + 1 - start).drop_last() =~= body.take(i - start));
            assert(body.take(i + 1 - start).last() == t@[i as int]);
            assert(spec_all_digits(body.take(i + 1 - start))) by {
                assert(forall|k: int|
                    0 <= k < i + 1 - start ==> #[trigger] body.take(i + 1 - start)[k] == t@[k
                        + start]);
            }
        }
        let d: u64 = (c - 48) as u64;
        let stepped = match ipv.checked_mul(10) {
            Some(v10) => v10.checked_add(d),
            None => None,
        };
        match stepped {
            Some(v) => {
                ipv = v;
            },
            None => {
                proof {
                    lemma_int_part_overflow(body, ip, di, i + 1 - start, dot == n);
                    if dot < n && spec_all_digits(body.skip(di + 1)) {
                        lemma_frac_micro_bounds(body.skip(di + 1));
                    }
                }
                return None;
            },
        }
        i = i + 1;
    }
    if dot == n {
        // no dot: the whole body is the integer part
        proof {
            assert(body.take(n - start) =~= body);
            assert(spec_all_digits(body)) by {
                assert(forall|k: int|
                    0 <= k < body.len() ==> #[trigger] body[k] == t@[k + start]);
            }
        }
        let magw: u128 = (ipv as u128) * 1_000_000u128;
        if magw > i64::MAX as u128 {
            return None;
        }
        let mag = magw as i64;
        if neg {
            return Some(-mag);
        } else {
            return Some(mag);
        }
    }
    // fraction part: every digit checked, the first six kept
    let ghost fp = body.skip(di + 1);
    proof {
        assert(forall|k: int|
            0 <= k < fp.len() ==> #[trigger] fp[k] == t@[k + dot + 1]);
        assert(body.take(dot - start) =~= ip);
        assert(spec_all_digits(ip)) by {
            assert(forall|k: int|
                0 <= k < ip.len() ==> #[trigger] ip[k] == t@[k + start]);
        }
    }
    let mut j: usize = dot + 1;
    while j < n
        invariant
            n == t@.len(),
            dot + 1 <= j <= n,
            di == dot - start,
            start <= dot < n,
            neg == (t@.len() > 0 && t@[0] == 45),
            body == (if t@.len() > 0 && (t@[0] == 45 || t@[0] == 43) {
                t@.skip(1)
            } else {
                t@
            }),
            di == spec_first_index(body, 46),
            (dot == n) <==> (di == body.len()),
            fp == body.skip(di + 1),
            body == t@.skip(start as int),
            body.len() == n - start,
            fp.len() == n - dot - 1,
            forall|k: int| 0 <= k < fp.len() ==> #[trigger] fp[k] == t@[k + dot + 1],
            forall|k: int| dot + 1 <= k < j ==> spec_is_digit(#[trigger] t@[k]),
        decreases n - j,
    {
        let c = t[j];
        if c < 48 || c > 57 {
            proof {
                assert(fp[j - dot - 1] == c);
                assert(!spec_all_digits(fp));
            }
            return None;
        }
        j = j + 1;
    }
    proof {
        assert(spec_all_digits(fp)) by {
            assert(forall|k: int|
                0 <= k < fp.len() ==> #[trigger] fp[k] == t@[k + dot + 1]);
        }
        lemma_frac_micro_bounds(fp);
    }
    let flen = n - dot - 1;
    let glen: usize = if flen >= 6 {
        6
    } else {
        flen
    };
    let ghost g = if fp.len() >= 6 {
        fp.take(6)
    } else {
        fp
    };
    proof {
        assert(g.len() == glen);
        assert(spec_all_digits(g)) by {
            assert(forall|k: int| 0 <= k < g.len() ==> #[trigger] g[k] == fp[k]);
        }
        assert(g.take(0) =~= Seq::<u8>::empty());
        assert(spec_pow10(5) == 100000) by {
            reveal_with_fuel(spec_pow10, 7);
        }
    }
    let mut fv: u64 = 0;
    let mut p: usize = 0;
    while p < glen
        invariant
            n == t@.len(),
            p <= glen <= 6,
            glen == g.len(),
            start <= dot < n,
            glen <= n - dot - 1,
            spec_all_digits(g),
            spec_pow10(5) == 100000,
            forall|k: int| 0 <= k < g.len() ==> #[trigger] g[k] == t@[k + dot + 1],
            fv == spec_digits_val(g.take(p as int)),
        decreases glen - p,
    {
        let c = t[dot + 1 + p];
        proof {
            assert(g[p as int] == c);
            assert(g.take(p + 1).drop_last() =~= g.take(p as int));
            assert(g.take(p + 1).last() == c);
            assert(spec_all_digits(g.take(p as int))) by {
                assert(forall|k: int|
                    0 <= k < p ==> #[trigger] g.take(p as int)[k] == g[k]);
            }
            lemma_digits_val_bound(g.take(p as int));
            lemma_pow10_monotone(p as nat, 5);
        }
        fv = fv * 10 + ((c - 48) as u64);
        p = p + 1;
    }
    let mult: u64 = if glen == 0 {
        1_000_000
    } else if glen == 1 {
        100_000
    } else if glen == 2 {
        10_000
    } else if glen == 3 {
        1_000
    } else if glen == 4 {
        100
    } else if glen == 5 {
        10
    } else {
        1
    };
    proof {
        assert(mult == spec_pow10((6 - glen) as nat)) by {
            reveal_with_fuel(spec_pow10, 8);
        }
        assert(g.take(glen as int) =~= g);
        lemma_digits_val_bound(g);
        lemma_digits_val_nonneg(g);
        assert(spec_pow10(6) == 1000000) by {
            reveal_with_fuel(spec_pow10, 7);
        }
        lemma_pow10_monotone(g.len(), 6);
    }
    let frac: u64 = fv * mult;
    proof {
        assert(frac == spec_frac_micro(fp));
    }
    let magw: u128 = (ipv as u128) * 1_000_000u128 + (frac as u128);
    if magw > i64::MAX as u128 {
        return None;
    }
    let mag = magw as i64;
    if neg {
        Some(-mag)
    } else {
        Some(mag)
    }
}

/// `10^j <= 10^k` when `j <= k`.
pub proof fn lemma_pow10_monotone(j: nat, k: nat)
    requires
        j <= k,
    ensures
        spec_pow10(j) <= spec_pow10(k),
    decreases k,
{
    if j < k && k > 0 {
        lemma_pow10_monotone(j, (k - 1) as nat);
        lemma_pow10_pos((k - 1) as nat);
    }
}

/// If the integer-part digits seen so far already denote more than
/// `u64::MAX`, the whole token's magnitude cannot fit, whichever branch
/// of the grammar applies.
proof fn lemma_int_part_overflow(body: Seq<u8>, ip: Seq<u8>, di: int, j: int, no_dot: bool)
    requires
        0 <= di <= body.len(),
        ip == body.take(di),
        0 <= j <= di,
        spec_all_digits(body.take(j)),
        spec_digits_val(body.take(j)) > u64::MAX,
    ensures
        no_dot && spec_all_digits(body) ==> spec_digits_val(body) * (SCALE as int) > i64::MAX,
        spec_all_digits(ip) ==> spec_digits_val(ip) * (SCALE as int) > i64::MAX,
{
    if no_dot && spec_all_digits(body) {
        lemma_digits_val_prefix(body, j);
        lemma_mag_overflow(spec_digits_val(body));
    }
    if spec_all_digits(ip) {
        assert(ip.take(j) =~= body.take(j));
        lemma_digits_val_prefix(ip, j);
        lemma_mag_overflow(spec_digits_val(ip));
    }
}

} // verus!
