//! Firmware version strings. The canonical catalog form of a version is
//! `"{major}.{minor}"` with the minor part padded to at least two digits,
//! so `"2.8"` normalizes to `"2.08"` and versions compare numerically.

use vstd::prelude::*;
use crate::strutil::{is_digit, scan_to, lemma_scan_to_at};

verus! {

/// Numeric value of a decimal digit character.
pub open spec fn digit_val(c: char) -> int {
    c as int - 48
}

/// Every character of `s` is a decimal digit.
pub open spec fn all_digits(s: Seq<char>) -> bool {
    forall|k: int| 0 <= k < s.len() ==> is_digit(s[k])
}

/// Value of an all-digit numeral, most significant digit first.
pub open spec fn numeral_val(s: Seq<char>) -> int
    decreases s.len(),
{
    if s.len() == 0 {
        0
    } else {
        numeral_val(s.drop_last()) * 10 + digit_val(s.last())
    }
}

/// The digits of a numeral as accepted by `u32` parsing: an optional leading
/// `'+'` sign is skipped.
pub open spec fn numeral_body(s: Seq<char>) -> Seq<char> {
    if s.len() > 0 && s[0] == '+' {
        s.drop_first()
    } else {
        s
    }
}

/// `s` is a numeral that `u32` parsing accepts.
pub open spec fn is_u32_numeral(s: Seq<char>) -> bool {
    &&& numeral_body(s).len() > 0
    &&& all_digits(numeral_body(s))
    &&& numeral_val(numeral_body(s)) <= u32::MAX
}

/// Digit character for a value between 0 and 9.
pub open spec fn digit_char(d: int) -> char {
    ((48 + d) as u8) as char
}

/// Decimal representation of a nonnegative number, without leading zeros.
pub open spec fn dec_str(n: int) -> Seq<char>
    decreases n,
{
    if n < 10 {
        seq![digit_char(if n < 0 { 0 } else { n })]
    } else {
        dec_str(n / 10).push(digit_char(n % 10))
    }
}

/// The minor part of a canonical version: at least two digits.
pub open spec fn min2_str(n: int) -> Seq<char> {
    if n < 10 {
        seq![digit_char(0)] + dec_str(n)
    } else {
        dec_str(n)
    }
}

/// Canonical form of a version with numeric parts `major` and `minor`.
pub open spec fn canon_version(major: int, minor: int) -> Seq<char> {
    dec_str(major) + seq!['.'] + min2_str(minor)
}

/// Normalized form of a version string: if the text splits at its first `'.'`
/// into two `u32` numerals, it is rewritten canonically; otherwise it is kept
/// as it stands.
pub open spec fn norm_spec(s: Seq<char>) -> Seq<char> {
    let d = scan_to(s, '.', 0);
    if d < s.len() {
        let maj = s.subrange(0, d);
        let min = s.subrange(d + 1, s.len() as int);
        if is_u32_numeral(maj) && is_u32_numeral(min) {
            canon_version(numeral_val(numeral_body(maj)), numeral_val(numeral_body(min)))
        } else {
            s
        }
    } else {
        s
    }
}

/// Parses `s` as a `u32` decimal numeral: an optional `'+'` sign followed by
/// at least one digit, whose value fits.
pub fn parse_u32(s: &str) -> (r: Option<u32>)
    ensures
        is_u32_numeral(s@) ==> (r matches Some(v) && v as int == numeral_val(numeral_body(s@))),
        !is_u32_numeral(s@) ==> r is None,
{
    let len = s.unicode_len();
    if len == 0 {
        return None;
    }
    let start: usize = if s.get_char(0) == '+' {
        1
    } else {
        0
    };
    proof {
        assert(numeral_body(s@) =~= s@.subrange(start as int, len as int));
    }
    if start == len {
        return None;
    }
    let ghost body = s@.subrange(start as int, len as int);
    let mut acc: u32 = 0;
    let mut i: usize = start;
    while i < len
        invariant
            len == s@.len(),
            start <= i <= len,
            start < len,
            body == s@.subrange(start as int, len as int),
            body == numeral_body(s@),
            all_digits(body.subrange(0, i - start)),
            acc == numeral_val(body.subrange(0, i - start)),
        decreases len - i,
    {
        let c = s.get_char(i);
        let cv = c as u32;
        if cv < 48 || cv > 57 {
            assert(!is_digit(body[i - start]));
            return None;
        }
        let d = cv - 48;
        if acc > (u32::MAX - d) / 10 {
            proof {
                let p = body.subrange(0, i - start + 1);
                assert(p.drop_last() =~= body.subrange(0, i - start));
                assert(numeral_val(p) > u32::MAX);
                if is_u32_numeral(s@) {
                    lemma_numeral_prefix_bound(body, i - start + 1);
                }
            }
            return None;
        }
        acc = acc * 10 + d;
        proof {
            let p = body.subrange(0, i - start + 1);
            assert(p.drop_last() =~= body.subrange(0, i - start));
        }
        i += 1;
    }
    proof {
        assert(body.subrange(0, len - start) =~= body);
    }
    Some(acc)
}

/// Digit values are nonnegative, so a numeral's value is nonnegative.
pub proof fn lemma_numeral_nonneg(s: Seq<char>)
    requires
        all_digits(s),
    ensures
        numeral_val(s) >= 0,
    decreases s.len(),
{
    if s.len() > 0 {
        lemma_numeral_nonneg(s.drop_last());
    }
}

/// Extending an all-digit numeral never decreases its value.
proof fn lemma_numeral_prefix_bound(s: Seq<char>, k: int)
    requires
        0 <= k <= s.len(),
        all_digits(s),
    ensures
        numeral_val(s) >= numeral_val(s.subrange(0, k)),
    decreases s.len() - k,
{
    if k < s.len() {
        let a = s.subrange(0, k);
        let b = s.subrange(0, k + 1);
        assert(b.drop_last() =~= a);
        assert(is_digit(s[k]));
        assert(all_digits(a));
        lemma_numeral_nonneg(a);
        lemma_numeral_prefix_bound(s, k + 1);
    } else {
        assert(s.subrange(0, k) =~= s);
    }
}

/// Appends the decimal digit `d` to `s`.
fn push_digit(s: &mut String, d: u32)
    requires
        d <= 9,
    ensures
        final(s)@ == old(s)@.push(digit_char(d as int)),
{
    let t: &str = match d {
        0 => "0",
        1 => "1",
        2 => "2",
        3 => "3",
        4 => "4",
        5 => "5",
        6 => "6",
        7 => "7",
        8 => "8",
        _ => "9",
    };
    proof {
        reveal_strlit("0");
        reveal_strlit("1");
        reveal_strlit("2");
        reveal_strlit("3");
        reveal_strlit("4");
        reveal_strlit("5");
        reveal_strlit("6");
        reveal_strlit("7");
        reveal_strlit("8");
        reveal_strlit("9");
    }
    s.append(t);
    proof {
        assert(final(s)@ =~= old(s)@.push(digit_char(d as int)));
    }
}

/// Writes the decimal representation of `n` onto the end of `s`.
fn append_dec(s: &mut String, n: u32)
    ensures
        final(s)@ == old(s)@ + dec_str(n as int),
    decreases n,
{
    if n < 10 {
        push_digit(s, n);
        proof {
            assert(old(s)@.push(digit_char(n as int)) =~= old(s)@ + dec_str(n as int));
        }
    } else {
        append_dec(s, n / 10);
        push_digit(s, n % 10);
        proof {
            assert((old(s)@ + dec_str(n as int / 10)).push(digit_char(n as int % 10)) =~= old(s)@
                + dec_str(n as int));
        }
    }
}

/// The decimal representation of `n`.
pub fn u32_to_dec(n: u32) -> (r: String)
    ensures
        r@ == dec_str(n as int),
{
    let mut s = String::new();
    append_dec(&mut s, n);
    proof {
        assert(Seq::<char>::empty() + dec_str(n as int) =~= dec_str(n as int));
    }
    s
}

/// The canonical catalog text of a version with the given numeric parts.
pub fn canon_string(major: u32, minor: u32) -> (r: String)
    ensures
        r@ == canon_version(major as int, minor as int),
{
    let mut out = u32_to_dec(major);
    out.append(".");
    if minor < 10 {
        push_digit(&mut out, 0);
    }
    append_dec(&mut out, minor);
    proof {
        reveal_strlit(".");
        assert((".")@ =~= seq!['.']);
        if minor < 10 {
            assert((dec_str(major as int) + seq!['.']).push(digit_char(0)) + dec_str(minor as int)
                =~= canon_version(major as int, minor as int));
        } else {
            assert(dec_str(major as int) + seq!['.'] + dec_str(minor as int) =~= canon_version(
                major as int, minor as int));
        }
    }
    out
}

/// The decimal text of `n`, padded with a zero to at least two digits.
pub fn two_digit(n: u32) -> (r: String)
    ensures
        r@ == min2_str(n as int),
{
    let mut out = String::new();
    if n < 10 {
        push_digit(&mut out, 0);
    }
    append_dec(&mut out, n);
    proof {
        if n < 10 {
            assert(Seq::<char>::empty().push(digit_char(0)) + dec_str(n as int) =~= min2_str(
                n as int,
            ));
        } else {
            assert(Seq::<char>::empty() + dec_str(n as int) =~= min2_str(n as int));
        }
    }
    out
}

/// Normalizes a version string to its canonical catalog form. A string that
/// does not split at its first `'.'` into two `u32` numerals is returned
/// unchanged.
pub fn normalize_version(v: &str) -> (r: String)
    ensures
        r@ == norm_spec(v@),
{
    let len = v.unicode_len();
    let mut d: usize = 0;
    while d < len && v.get_char(d) != '.'
        invariant
            len == v@.len(),
            d <= len,
            forall|k: int| 0 <= k < d ==> v@[k] != '.',
        decreases len - d,
    {
        d += 1;
    }
    proof {
        lemma_scan_to_at(v@, '.', 0, d as int);
    }
    if d == len {
        return v.to_owned();
    }
    let maj_part = v.substring_char(0, d);
    let min_part = v.substring_char(d + 1, len);
    let maj = parse_u32(maj_part);
    let min = parse_u32(min_part);
    match (maj, min) {
        (Some(mj), Some(mn)) => canon_string(mj, mn),
        _ => v.to_owned(),
    }
}


/// The numeric `(major, minor)` parts of a version string, when it splits at
/// its first `'.'` into two `u32` numerals.
pub open spec fn version_parts(s: Seq<char>) -> Option<(int, int)> {
    let d = scan_to(s, '.', 0);
    if d < s.len() && is_u32_numeral(s.subrange(0, d)) && is_u32_numeral(
        s.subrange(d + 1, s.len() as int),
    ) {
        Some(
            (
                numeral_val(numeral_body(s.subrange(0, d))),
                numeral_val(numeral_body(s.subrange(d + 1, s.len() as int))),
            ),
        )
    } else {
        None
    }
}

/// Strict lexicographic order on character sequences, the order in which
/// version strings sort as plain text.
pub open spec fn lex_lt(a: Seq<char>, b: Seq<char>) -> bool
    decreases a.len(),
{
    b.len() > 0 && (a.len() == 0 || a[0] < b[0] || (a[0] == b[0] && lex_lt(
        a.drop_first(),
        b.drop_first(),
    )))
}

/// Whether `a` sorts strictly before `b` as plain text.
pub fn lex_less(a: &str, b: &str) -> (r: bool)
    ensures
        r == lex_lt(a@, b@),
{
    let alen = a.unicode_len();
    let blen = b.unicode_len();
    proof {
        assert(a@.skip(0) =~= a@);
        assert(b@.skip(0) =~= b@);
    }
    let mut i: usize = 0;
    loop
        invariant
            alen == a@.len(),
            blen == b@.len(),
            i <= alen,
            i <= blen,
            lex_lt(a@, b@) == lex_lt(a@.skip(i as int), b@.skip(i as int)),
        decreases alen - i,
    {
        if i == blen {
            assert(b@.skip(i as int).len() == 0);
            return false;
        }
        if i == alen {
            assert(a@.skip(i as int).len() == 0);
            return true;
        }
        let ca = a.get_char(i) as u32;
        let cb = b.get_char(i) as u32;
        proof {
            assert(a@.skip(i as int)[0] == a@[i as int]);
            assert(b@.skip(i as int)[0] == b@[i as int]);
            assert(a@.skip(i as int).drop_first() =~= a@.skip(i + 1));
            assert(b@.skip(i as int).drop_first() =~= b@.skip(i + 1));
        }
        if ca < cb {
            return true;
        }
        if ca > cb {
            return false;
        }
        i += 1;
    }
}

/// Ten to the power `k`.
pub open spec fn pow10(k: int) -> int
    decreases k,
{
    if k <= 0 {
        1
    } else {
        10 * pow10(k - 1)
    }
}

proof fn lemma_pow10_pos(k: int)
    ensures
        pow10(k) >= 1,
    decreases k,
{
    if k > 0 {
        lemma_pow10_pos(k - 1);
    }
}

/// The decimal representation holds only digits, at least one of them.
pub proof fn lemma_dec_str_digits(n: int)
    ensures
        all_digits(dec_str(n)),
        dec_str(n).len() >= 1,
    decreases n,
{
    if n >= 10 {
        lemma_dec_str_digits(n / 10);
        assert(forall|k: int|
            0 <= k < dec_str(n).len() - 1 ==> dec_str(n)[k] == dec_str(n / 10)[k]);
    }
}

/// The decimal representation of `n` reads back as `n`.
pub proof fn lemma_dec_str_val(n: int)
    requires
        n >= 0,
    ensures
        numeral_val(dec_str(n)) == n,
    decreases n,
{
    if n < 10 {
        assert(dec_str(n).drop_last() =~= Seq::<char>::empty());
        assert(numeral_val(Seq::<char>::empty()) == 0);
        assert(dec_str(n).last() == digit_char(n));
    } else {
        lemma_dec_str_val(n / 10);
        assert(dec_str(n).drop_last() =~= dec_str(n / 10));
    }
}

/// A leading zero does not change a numeral's value.
proof fn lemma_leading_zero_val(x: Seq<char>)
    ensures
        numeral_val(seq![digit_char(0)] + x) == numeral_val(x),
    decreases x.len(),
{
    if x.len() == 0 {
        assert(seq![digit_char(0)] + x =~= seq![digit_char(0)]);
        assert((seq![digit_char(0)]).drop_last() =~= Seq::<char>::empty());
        assert(numeral_val(Seq::<char>::empty()) == 0);
        assert(numeral_val(seq![digit_char(0)]) == digit_val(digit_char(0)));
    } else {
        let y = seq![digit_char(0)] + x;
        assert(y.drop_last() =~= seq![digit_char(0)] + x.drop_last());
        assert(y.last() == x.last());
        lemma_leading_zero_val(x.drop_last());
    }
}

/// The canonical minor text holds only digits and reads back as `n`.
pub proof fn lemma_min2_str(n: int)
    requires
        n >= 0,
    ensures
        all_digits(min2_str(n)),
        min2_str(n).len() >= 2,
        numeral_val(min2_str(n)) == n,
{
    lemma_dec_str_digits(n);
    lemma_dec_str_val(n);
    if n < 10 {
        lemma_leading_zero_val(dec_str(n));
        assert(forall|k: int|
            0 <= k < min2_str(n).len() ==> #[trigger] is_digit(min2_str(n)[k]));
    } else {
        lemma_dec_str_digits(n / 10);
        assert(dec_str(n) == dec_str(n / 10).push(digit_char(n % 10)));
    }
}

/// A two-digit-or-more decimal representation comes from `n >= 10`, and for
/// `n < 100` it is exactly two digits long.
proof fn lemma_dec_str_len2(n: int)
    requires
        10 <= n < 100,
    ensures
        dec_str(n).len() == 2,
{
    assert(dec_str(n) == dec_str(n / 10).push(digit_char(n % 10)));
    assert(1 <= n / 10 < 10);
    assert(dec_str(n / 10) == seq![digit_char(n / 10)]);
}

/// Canonical version text normalizes to itself.
pub proof fn lemma_canon_norm(major: int, minor: int)
    requires
        0 <= major <= u32::MAX,
        0 <= minor <= u32::MAX,
    ensures
        norm_spec(canon_version(major, minor)) == canon_version(major, minor),
        version_parts(canon_version(major, minor)) == Some((major, minor)),
{
    let t = canon_version(major, minor);
    let a = dec_str(major);
    let b = min2_str(minor);
    lemma_dec_str_digits(major);
    lemma_dec_str_val(major);
    lemma_min2_str(minor);
    assert(forall|k: int| 0 <= k < a.len() ==> t[k] == a[k]);
    assert(t[a.len() as int] == '.');
    assert(forall|k: int| 0 <= k < a.len() ==> #[trigger] is_digit(t[k]) && t[k] != '.');
    lemma_scan_to_at(t, '.', 0, a.len() as int);
    assert(t.subrange(0, a.len() as int) =~= a);
    assert(t.subrange(a.len() as int + 1, t.len() as int) =~= b);
    assert(numeral_body(a) =~= a);
    assert(numeral_body(b) =~= b);
}

/// Version strings with the same numeric parts normalize identically.
pub proof fn lemma_normalize_by_parts(s: Seq<char>, major: int, minor: int)
    requires
        version_parts(s) == Some((major, minor)),
    ensures
        norm_spec(s) == canon_version(major, minor),
        0 <= major <= u32::MAX,
        0 <= minor <= u32::MAX,
{
    let d = scan_to(s, '.', 0);
    lemma_numeral_nonneg(numeral_body(s.subrange(0, d)));
    lemma_numeral_nonneg(numeral_body(s.subrange(d + 1, s.len() as int)));
}

/// Normalization is idempotent: normalizing twice changes nothing more.
pub proof fn lemma_normalize_idempotent(s: Seq<char>)
    ensures
        norm_spec(norm_spec(s)) == norm_spec(s),
{
    let d = scan_to(s, '.', 0);
    if d < s.len() && is_u32_numeral(s.subrange(0, d)) && is_u32_numeral(
        s.subrange(d + 1, s.len() as int),
    ) {
        let major = numeral_val(numeral_body(s.subrange(0, d)));
        let minor = numeral_val(numeral_body(s.subrange(d + 1, s.len() as int)));
        lemma_normalize_by_parts(s, major, minor);
        lemma_canon_norm(major, minor);
    }
}

/// Equal-length runs of digits sort as text exactly as they compare as
/// numbers.
proof fn lemma_digits_lex_val(x: Seq<char>, y: Seq<char>)
    requires
        x.len() == y.len(),
        all_digits(x),
        all_digits(y),
    ensures
        lex_lt(x, y) <==> numeral_val(x) < numeral_val(y),
    decreases x.len(),
{
    if x.len() == 0 {
    } else {
        lemma_numeral_val_first(x);
        lemma_numeral_val_first(y);
        let p = pow10(x.len() - 1);
        let xt = x.drop_first();
        let yt = y.drop_first();
        assert(all_digits(xt));
        assert(all_digits(yt));
        lemma_pow10_pos(x.len() - 1);
        lemma_numeral_val_bound(xt);
        lemma_numeral_val_bound(yt);
        if x[0] == y[0] {
            lemma_digits_lex_val(xt, yt);
        } else {
            assert(is_digit(x[0]));
            assert(is_digit(y[0]));
            if x[0] < y[0] {
                assert((digit_val(x[0]) + 1) * p <= digit_val(y[0]) * p) by (nonlinear_arith)
                    requires
                        digit_val(x[0]) + 1 <= digit_val(y[0]),
                        p >= 1,
                ;
                assert((digit_val(x[0]) + 1) * p == digit_val(x[0]) * p + p) by (nonlinear_arith);
            } else {
                assert((digit_val(y[0]) + 1) * p <= digit_val(x[0]) * p) by (nonlinear_arith)
                    requires
                        digit_val(y[0]) + 1 <= digit_val(x[0]),
                        p >= 1,
                ;
                assert((digit_val(y[0]) + 1) * p == digit_val(y[0]) * p + p) by (nonlinear_arith);
            }
        }
    }
}

/// A numeral's value splits at its most significant digit.
proof fn lemma_numeral_val_first(s: Seq<char>)
    requires
        s.len() >= 1,
    ensures
        numeral_val(s) == digit_val(s[0]) * pow10(s.len() - 1) + numeral_val(s.drop_first()),
    decreases s.len(),
{
    if s.len() == 1 {
        assert(s.drop_last() =~= Seq::<char>::empty());
        assert(s.drop_first() =~= Seq::<char>::empty());
    } else {
        let a = s.drop_last();
        lemma_numeral_val_first(a);
        assert(a.drop_first() =~= s.drop_first().drop_last());
        assert(digit_val(s[0]) * pow10(s.len() - 2) * 10 == digit_val(s[0]) * pow10(
            s.len() - 1,
        )) by (nonlinear_arith)
            requires
                pow10(s.len() - 2) * 10 == pow10(s.len() - 1),
        ;
        assert((digit_val(a[0]) * pow10(a.len() - 1) + numeral_val(a.drop_first())) * 10
            == digit_val(a[0]) * pow10(a.len() - 1) * 10 + numeral_val(a.drop_first()) * 10);
    }
}

/// An all-digit numeral's value is bounded by ten to its length.
proof fn lemma_numeral_val_bound(s: Seq<char>)
    requires
        all_digits(s),
    ensures
        0 <= numeral_val(s) < pow10(s.len() as int),
    decreases s.len(),
{
    if s.len() == 0 {
    } else {
        lemma_numeral_val_bound(s.drop_last());
        assert(is_digit(s.last()));
    }
}

/// Concatenations compare as text by their left parts when those differ, and
/// by their right parts when the left parts agree.
proof fn lemma_lex_concat(a: Seq<char>, c: Seq<char>, x: Seq<char>, y: Seq<char>)
    requires
        a.len() == c.len(),
    ensures
        a != c ==> lex_lt(a + x, c + y) == lex_lt(a, c),
        a == c ==> lex_lt(a + x, c + y) == lex_lt(x, y),
    decreases a.len(),
{
    if a.len() == 0 {
        assert(a =~= c);
        assert(a + x =~= x);
        assert(c + y =~= y);
    } else {
        assert((a + x).drop_first() =~= a.drop_first() + x);
        assert((c + y).drop_first() =~= c.drop_first() + y);
        lemma_lex_concat(a.drop_first(), c.drop_first(), x, y);
        assert((a + x)[0] == a[0]);
        assert((c + y)[0] == c[0]);
        if a != c && a[0] == c[0] {
            assert(a.drop_first() != c.drop_first()) by {
                if a.drop_first() == c.drop_first() {
                    assert(forall|k: int|
                        1 <= k < a.len() ==> #[trigger] a[k] == a.drop_first()[k - 1]);
                    assert(forall|k: int|
                        1 <= k < c.len() ==> #[trigger] c[k] == c.drop_first()[k - 1]);
                    assert(a =~= c);
                }
            }
        }
        if a == c {
            assert(a.drop_first() == c.drop_first());
        }
    }
}

/// Canonical version strings sort as text exactly as their numeric parts
/// sort, whenever the two majors print with the same number of digits and the
/// minors stay below one hundred.
pub proof fn lemma_canon_order(ma: int, na: int, mb: int, nb: int)
    requires
        0 <= ma <= u32::MAX,
        0 <= mb <= u32::MAX,
        0 <= na < 100,
        0 <= nb < 100,
        dec_str(ma).len() == dec_str(mb).len(),
    ensures
        lex_lt(canon_version(ma, na), canon_version(mb, nb)) <==> (ma < mb || (ma == mb && na
            < nb)),
{
    let a = dec_str(ma);
    let c = dec_str(mb);
    let b = min2_str(na);
    let d = min2_str(nb);
    lemma_dec_str_digits(ma);
    lemma_dec_str_digits(mb);
    lemma_dec_str_val(ma);
    lemma_dec_str_val(mb);
    lemma_min2_str(na);
    lemma_min2_str(nb);
    let a1 = a + seq!['.'];
    let c1 = c + seq!['.'];
    assert(a1 + b =~= canon_version(ma, na));
    assert(c1 + d =~= canon_version(mb, nb));
    lemma_lex_concat(a1, c1, b, d);
    if a == c {
        assert(a1 =~= c1);
        assert(b.len() == d.len()) by {
            if na >= 10 {
                lemma_dec_str_len2(na);
            }
            if nb >= 10 {
                lemma_dec_str_len2(nb);
            }
        }
        lemma_digits_lex_val(b, d);
        assert(ma == mb);
    } else {
        assert(ma != mb);
        assert(a1 != c1) by {
            if a1 == c1 {
                assert(a =~= a1.drop_last());
                assert(c =~= c1.drop_last());
            }
        }
        lemma_lex_concat(a, c, seq!['.'], seq!['.']);
        lemma_digits_lex_val(a, c);
    }
}

/// Normalized version strings sort as text exactly as their `(major, minor)`
/// parts sort numerically, whenever the majors print with equally many digits
/// and the minors stay below one hundred.
pub proof fn lemma_normalize_order(
    s1: Seq<char>,
    s2: Seq<char>,
    ma: int,
    na: int,
    mb: int,
    nb: int,
)
    requires
        version_parts(s1) == Some((ma, na)),
        version_parts(s2) == Some((mb, nb)),
        na < 100,
        nb < 100,
        dec_str(ma).len() == dec_str(mb).len(),
    ensures
        lex_lt(norm_spec(s1), norm_spec(s2)) <==> (ma < mb || (ma == mb && na < nb)),
{
    lemma_normalize_by_parts(s1, ma, na);
    lemma_normalize_by_parts(s2, mb, nb);
    lemma_canon_order(ma, na, mb, nb);
}


/// Text order is asymmetric: two strings never each sort before the other.
pub proof fn lemma_lex_asym(a: Seq<char>, b: Seq<char>)
    ensures
        lex_lt(a, b) ==> !lex_lt(b, a),
    decreases a.len(),
{
    if a.len() > 0 && b.len() > 0 && a[0] == b[0] {
        lemma_lex_asym(a.drop_first(), b.drop_first());
    }
}

} // verus!

// --- laws relating canonical version text to its numeric parts ---
