//! Character-level helpers shared by the reply parsers: substring search,
//! trimming, whitespace tokenization, comma splitting and line splitting,
//! each with an exact specification over `Seq<char>`.

use vstd::prelude::*;

verus! {

/// ASCII whitespace: the separator set recognized by the reply parsers.
pub open spec fn is_space(c: char) -> bool {
    c == ' ' || c == '\t' || c == '\n' || c == '\r' || c == '\x0c'
}

/// Decimal digit.
pub open spec fn is_digit(c: char) -> bool {
    '0' <= c && c <= '9'
}

/// ASCII letter.
pub open spec fn is_alpha(c: char) -> bool {
    ('a' <= c && c <= 'z') || ('A' <= c && c <= 'Z')
}

/// Code point of `c` with ASCII lowercase letters folded to uppercase.
pub open spec fn upper_val(c: char) -> int {
    if 'a' <= c && c <= 'z' {
        c as int - 32
    } else {
        c as int
    }
}

/// `pat` occurs in `s` starting at position `i`.
pub open spec fn match_at(s: Seq<char>, pat: Seq<char>, i: int) -> bool {
    0 <= i && i + pat.len() <= s.len() && s.subrange(i, i + pat.len()) == pat
}

/// `pat` occurs somewhere in `s`.
pub open spec fn contains_sub(s: Seq<char>, pat: Seq<char>) -> bool {
    exists|j: int| match_at(s, pat, j)
}

/// Whether the characters of `a` and `b` are equal, position by position.
pub fn str_eq(a: &str, b: &str) -> (r: bool)
    ensures
        r == (a@ == b@),
{
    let alen = a.unicode_len();
    let blen = b.unicode_len();
    if alen != blen {
        assert(a@.len() != b@.len());
        return false;
    }
    let mut i: usize = 0;
    while i < alen
        invariant
            alen == a@.len(),
            alen == b@.len(),
            i <= alen,
            forall|k: int| 0 <= k < i ==> a@[k] == b@[k],
        decreases alen - i,
    {
        if a.get_char(i) != b.get_char(i) {
            return false;
        }
        i += 1;
    }
    proof {
        assert(a@ =~= b@);
    }
    true
}

/// Whether the characters of `a` equal those of `b` up to ASCII case.
pub fn str_eq_ignore_case(a: &str, b: &str) -> (r: bool)
    ensures
        r == (a@.len() == b@.len() && forall|k: int|
            0 <= k < a@.len() ==> upper_val(a@[k]) == upper_val(b@[k])),
{
    let alen = a.unicode_len();
    let blen = b.unicode_len();
    if alen != blen {
        return false;
    }
    let mut i: usize = 0;
    while i < alen
        invariant
            alen == a@.len(),
            alen == b@.len(),
            i <= alen,
            forall|k: int| 0 <= k < i ==> upper_val(a@[k]) == upper_val(b@[k]),
        decreases alen - i,
    {
        let ca = a.get_char(i) as u32;
        let cb = b.get_char(i) as u32;
        let ua = if 97 <= ca && ca <= 122 { ca - 32 } else { ca };
        let ub = if 97 <= cb && cb <= 122 { cb - 32 } else { cb };
        if ua != ub {
            return false;
        }
        i += 1;
    }
    true
}

/// Index of the first occurrence of `pat` in `s`, if any.
pub fn find_sub(s: &str, pat: &str) -> (r: Option<usize>)
    ensures
        match r {
            Some(i) => match_at(s@, pat@, i as int) && forall|j: int|
                0 <= j < i ==> !match_at(s@, pat@, j),
            None => forall|j: int| !match_at(s@, pat@, j),
        },
{
    let slen = s.unicode_len();
    let plen = pat.unicode_len();
    if plen > slen {
        assert(forall|j: int| !match_at(s@, pat@, j));
        return None;
    }
    if plen == 0 {
        proof {
            assert(s@.subrange(0, 0) =~= pat@);
        }
        return Some(0);
    }
    let mut i: usize = 0;
    while i <= slen - plen
        invariant
            slen == s@.len(),
            plen == pat@.len(),
            1 <= plen <= slen,
            i <= slen - plen + 1,
            forall|j: int| 0 <= j < i ==> !match_at(s@, pat@, j),
        decreases slen - i,
    {
        let hit = probe_match(s, pat, i);
        if hit {
            return Some(i);
        }
        i += 1;
    }
    assert(forall|j: int| j >= i ==> !match_at(s@, pat@, j));
    None
}

/// Whether `pat` occurs in `s` at exactly position `i`.
fn probe_match(s: &str, pat: &str, i: usize) -> (r: bool)
    requires
        i + pat@.len() <= s@.len(),
    ensures
        r == match_at(s@, pat@, i as int),
{
    let slen = s.unicode_len();
    let plen = pat.unicode_len();
    let mut k: usize = 0;
    while k < plen
        invariant
            slen == s@.len(),
            plen == pat@.len(),
            i + plen <= slen,
            k <= plen,
            forall|m: int| 0 <= m < k ==> s@[i + m] == pat@[m],
        decreases plen - k,
    {
        if s.get_char(i + k) != pat.get_char(k) {
            proof {
                assert(s@.subrange(i as int, i + pat@.len())[k as int] == s@[i + k]);
            }
            return false;
        }
        k += 1;
    }
    proof {
        assert(s@.subrange(i as int, i + pat@.len()) =~= pat@);
    }
    true
}

/// Index of the last occurrence of `pat` in `s`, if any.
pub fn rfind_sub(s: &str, pat: &str) -> (r: Option<usize>)
    ensures
        match r {
            Some(i) => match_at(s@, pat@, i as int) && forall|j: int|
                j > i ==> !match_at(s@, pat@, j),
            None => forall|j: int| !match_at(s@, pat@, j),
        },
{
    let slen = s.unicode_len();
    let plen = pat.unicode_len();
    if plen > slen {
        assert(forall|j: int| !match_at(s@, pat@, j));
        return None;
    }
    if plen == 0 {
        proof {
            assert(s@.subrange(slen as int, slen as int) =~= pat@);
        }
        return Some(slen);
    }
    let mut i: usize = slen - plen + 1;
    while i > 0
        invariant
            slen == s@.len(),
            plen == pat@.len(),
            1 <= plen <= slen,
            i <= slen - plen + 1,
            forall|j: int| j >= i ==> !match_at(s@, pat@, j),
        decreases i,
    {
        i -= 1;
        let hit = probe_match(s, pat, i);
        if hit {
            return Some(i);
        }
    }
    None
}

/// Whether `s` begins with `prefix`.
pub fn str_starts_with(s: &str, prefix: &str) -> (r: bool)
    ensures
        r == match_at(s@, prefix@, 0),
{
    let slen = s.unicode_len();
    let plen = prefix.unicode_len();
    if plen > slen {
        return false;
    }
    probe_match(s, prefix, 0)
}

/// Whether `pat` occurs in `s`.
pub fn str_contains(s: &str, pat: &str) -> (r: bool)
    ensures
        r == contains_sub(s@, pat@),
{
    match find_sub(s, pat) {
        Some(i) => {
            assert(match_at(s@, pat@, i as int));
            true
        },
        None => {
            assert(!contains_sub(s@, pat@));
            false
        },
    }
}

/// Views of a sequence of owned strings.
pub open spec fn views_of(v: Seq<String>) -> Seq<Seq<char>> {
    v.map_values(|t: String| t@)
}

/// `s` with leading ASCII whitespace removed.
pub open spec fn trim_start_spec(s: Seq<char>) -> Seq<char>
    decreases s.len(),
{
    if s.len() > 0 && is_space(s[0]) {
        trim_start_spec(s.drop_first())
    } else {
        s
    }
}

/// `s` with trailing ASCII whitespace removed.
pub open spec fn trim_end_spec(s: Seq<char>) -> Seq<char>
    decreases s.len(),
{
    if s.len() > 0 && is_space(s[s.len() - 1]) {
        trim_end_spec(s.drop_last())
    } else {
        s
    }
}

/// `s` with ASCII whitespace removed at both ends.
pub open spec fn trim_spec(s: Seq<char>) -> Seq<char> {
    trim_end_spec(trim_start_spec(s))
}

proof fn lemma_trim_start_at(s: Seq<char>, lo: int)
    requires
        0 <= lo <= s.len(),
        forall|k: int| 0 <= k < lo ==> is_space(s[k]),
        lo == s.len() || !is_space(s[lo]),
    ensures
        trim_start_spec(s) == s.subrange(lo, s.len() as int),
    decreases lo,
{
    if lo == 0 {
        assert(s.subrange(0, s.len() as int) =~= s);
    } else {
        let t = s.drop_first();
        lemma_trim_start_at(t, lo - 1);
        assert(t.subrange(lo - 1, t.len() as int) =~= s.subrange(lo, s.len() as int));
    }
}

proof fn lemma_trim_end_at(s: Seq<char>, hi: int)
    requires
        0 <= hi <= s.len(),
        forall|k: int| hi <= k < s.len() ==> is_space(s[k]),
        hi == 0 || !is_space(s[hi - 1]),
    ensures
        trim_end_spec(s) == s.subrange(0, hi),
    decreases s.len(),
{
    if hi == s.len() {
        assert(s.subrange(0, s.len() as int) =~= s);
    } else {
        let t = s.drop_last();
        lemma_trim_end_at(t, hi);
        assert(t.subrange(0, hi) =~= s.subrange(0, hi));
    }
}

/// Whether `c` is ASCII whitespace.
pub fn space_char(c: char) -> (r: bool)
    ensures
        r == is_space(c),
{
    c == ' ' || c == '\t' || c == '\n' || c == '\r' || c == '\x0c'
}

/// `s` with ASCII whitespace removed at both ends.
pub fn trim_str<'a>(s: &'a str) -> (r: &'a str)
    ensures
        r@ == trim_spec(s@),
{
    let len = s.unicode_len();
    let mut lo: usize = 0;
    while lo < len && space_char(s.get_char(lo))
        invariant
            len == s@.len(),
            lo <= len,
            forall|k: int| 0 <= k < lo ==> is_space(s@[k]),
        decreases len - lo,
    {
        lo += 1;
    }
    let mut hi: usize = len;
    while hi > lo && space_char(s.get_char(hi - 1))
        invariant
            len == s@.len(),
            lo <= hi <= len,
            forall|k: int| hi <= k < len ==> is_space(s@[k]),
        decreases hi,
    {
        hi -= 1;
    }
    let r = s.substring_char(lo, hi);
    proof {
        lemma_trim_start_at(s@, lo as int);
        let t = s@.subrange(lo as int, s@.len() as int);
        lemma_trim_end_at(t, hi - lo);
        assert(t.subrange(0, hi - lo) =~= s@.subrange(lo as int, hi as int));
    }
    r
}

/// End of the whitespace-delimited token starting at `i`: the first position
/// at or after `i` holding whitespace, or the end of `s`.
pub open spec fn token_end(s: Seq<char>, i: int) -> int
    decreases s.len() - i,
{
    if i < 0 || i >= s.len() || is_space(s[i]) {
        i
    } else {
        token_end(s, i + 1)
    }
}

pub proof fn lemma_token_end_bounds(s: Seq<char>, i: int)
    requires
        0 <= i <= s.len(),
    ensures
        i <= token_end(s, i) <= s.len(),
    decreases s.len() - i,
{
    if i < s.len() && !is_space(s[i]) {
        lemma_token_end_bounds(s, i + 1);
    }
}

/// The whitespace-delimited tokens of `s`, reading from position `i`.
pub open spec fn tokens_from(s: Seq<char>, i: int) -> Seq<Seq<char>>
    decreases s.len() - i, s.len() - i + 1,
    via tokens_from_decreases
{
    if i < 0 || i >= s.len() {
        Seq::empty()
    } else if is_space(s[i]) {
        tokens_from(s, i + 1)
    } else {
        seq![s.subrange(i, token_end(s, i))] + tokens_from(s, token_end(s, i))
    }
}

#[via_fn]
proof fn tokens_from_decreases(s: Seq<char>, i: int) {
    if 0 <= i < s.len() && !is_space(s[i]) {
        lemma_token_end_bounds(s, i + 1);
    }
}

/// All whitespace-delimited tokens of `s`, in order.
pub fn tokenize(s: &str) -> (v: Vec<String>)
    ensures
        views_of(v@) == tokens_from(s@, 0),
        forall|k: int| 0 <= k < v@.len() ==> v@[k]@.len() > 0,
{
    let len = s.unicode_len();
    let mut v: Vec<String> = Vec::new();
    let mut i: usize = 0;
    while i < len
        invariant
            len == s@.len(),
            i <= len,
            tokens_from(s@, 0) == views_of(v@) + tokens_from(s@, i as int),
            forall|k: int| 0 <= k < v@.len() ==> v@[k]@.len() > 0,
        decreases len - i,
    {
        if space_char(s.get_char(i)) {
            i += 1;
        } else {
            let mut j: usize = i + 1;
            while j < len && !space_char(s.get_char(j))
                invariant
                    len == s@.len(),
                    i < j <= len,
                    token_end(s@, i as int) == token_end(s@, j as int),
                decreases len - j,
            {
                j += 1;
            }
            assert(token_end(s@, i as int) == j);
            let tok = s.substring_char(i, j).to_owned();
            proof {
                assert(views_of(v@.push(tok)) =~= views_of(v@) + seq![tok@]);
                assert(views_of(v@) + (seq![tok@] + tokens_from(s@, j as int)) =~= (views_of(v@)
                    + seq![tok@]) + tokens_from(s@, j as int));
            }
            v.push(tok);
            i = j;
        }
    }
    proof {
        assert(tokens_from(s@, 0) =~= views_of(v@) + tokens_from(s@, i as int));
        assert(views_of(v@) + Seq::<Seq<char>>::empty() =~= views_of(v@));
    }
    v
}

/// First position at or after `i` where `s` holds `c`, or the end of `s`.
pub open spec fn scan_to(s: Seq<char>, c: char, i: int) -> int
    decreases s.len() - i,
{
    if i < 0 || i >= s.len() || s[i] == c {
        i
    } else {
        scan_to(s, c, i + 1)
    }
}

pub proof fn lemma_scan_to_bounds(s: Seq<char>, c: char, i: int)
    requires
        0 <= i <= s.len(),
    ensures
        i <= scan_to(s, c, i) <= s.len(),
    decreases s.len() - i,
{
    if i < s.len() && s[i] != c {
        lemma_scan_to_bounds(s, c, i + 1);
    }
}

/// `scan_to` from the start, located by the occurrence pattern itself.
pub proof fn lemma_scan_to_at(s: Seq<char>, c: char, i: int, pos: int)
    requires
        0 <= i <= pos <= s.len(),
        forall|k: int| i <= k < pos ==> s[k] != c,
        pos == s.len() || s[pos] == c,
    ensures
        scan_to(s, c, i) == pos,
    decreases pos - i,
{
    if i < pos {
        lemma_scan_to_at(s, c, i + 1, pos);
    }
}

/// The comma-separated fields of `s` from position `i` on, each trimmed of
/// ASCII whitespace. Empty fields count; `n` commas give `n + 1` fields.
pub open spec fn fields_from(s: Seq<char>, i: int) -> Seq<Seq<char>>
    decreases s.len() - i,
    via fields_from_decreases
{
    if i < 0 || i > s.len() {
        Seq::empty()
    } else if scan_to(s, ',', i) >= s.len() {
        seq![trim_spec(s.subrange(i, s.len() as int))]
    } else {
        seq![trim_spec(s.subrange(i, scan_to(s, ',', i)))] + fields_from(s, scan_to(s, ',', i) + 1)
    }
}

#[via_fn]
proof fn fields_from_decreases(s: Seq<char>, i: int) {
    if 0 <= i <= s.len() {
        lemma_scan_to_bounds(s, ',', i);
    }
}

/// The comma-separated fields of `s`, each trimmed of ASCII whitespace.
pub fn split_fields(s: &str) -> (v: Vec<String>)
    ensures
        views_of(v@) == fields_from(s@, 0),
{
    let len = s.unicode_len();
    let mut v: Vec<String> = Vec::new();
    let mut i: usize = 0;
    loop
        invariant
            len == s@.len(),
            i <= len,
            fields_from(s@, 0) == views_of(v@) + fields_from(s@, i as int),
        decreases len - i,
    {
        let mut j: usize = i;
        while j < len && s.get_char(j) != ','
            invariant
                len == s@.len(),
                i <= j <= len,
                scan_to(s@, ',', i as int) == scan_to(s@, ',', j as int),
            decreases len - j,
        {
            j += 1;
        }
        assert(scan_to(s@, ',', i as int) == j);
        let field = trim_str(s.substring_char(i, j)).to_owned();
        proof {
            assert(views_of(v@.push(field)) =~= views_of(v@) + seq![field@]);
        }
        if j >= len {
            v.push(field);
            proof {
                assert(fields_from(s@, i as int) =~= seq![field@]);
                assert(views_of(v@)
                    =~= fields_from(s@, 0));
            }
            return v;
        }
        proof {
            assert(fields_from(s@, i as int) =~= seq![field@] + fields_from(s@, j + 1));
            assert(views_of(v@) + (seq![field@] + fields_from(s@, j + 1)) =~= (views_of(v@)
                + seq![field@]) + fields_from(s@, j + 1));
        }
        v.push(field);
        i = j + 1;
    }
}


/// `l` with one trailing carriage return removed, if present.
pub open spec fn strip_cr(l: Seq<char>) -> Seq<char> {
    if l.len() > 0 && l[l.len() - 1] == '\r' {
        l.drop_last()
    } else {
        l
    }
}

/// The lines of `s` from position `i` on: pieces delimited by `'\n'`, each
/// with one trailing `'\r'` removed, a final line ending being optional.
pub open spec fn lines_from(s: Seq<char>, i: int) -> Seq<Seq<char>>
    decreases s.len() - i + 1,
    via lines_from_decreases
{
    if i < 0 || i >= s.len() {
        Seq::empty()
    } else {
        seq![strip_cr(s.subrange(i, scan_to(s, '\n', i)))] + lines_from(s, scan_to(s, '\n', i) + 1)
    }
}

#[via_fn]
proof fn lines_from_decreases(s: Seq<char>, i: int) {
    if 0 <= i < s.len() {
        lemma_scan_to_bounds(s, '\n', i);
    }
}

/// The lines of `s`, split at `'\n'`, each with one trailing `'\r'` removed.
pub fn split_lines(s: &str) -> (v: Vec<String>)
    ensures
        views_of(v@) == lines_from(s@, 0),
{
    let len = s.unicode_len();
    let mut v: Vec<String> = Vec::new();
    let mut i: usize = 0;
    while i < len
        invariant
            len == s@.len(),
            i <= len,
            lines_from(s@, 0) == views_of(v@) + lines_from(s@, i as int),
        decreases len - i,
    {
        let mut j: usize = i;
        while j < len && s.get_char(j) != '\n'
            invariant
                len == s@.len(),
                i <= j <= len,
                scan_to(s@, '\n', i as int) == scan_to(s@, '\n', j as int),
            decreases len - j,
        {
            j += 1;
        }
        assert(scan_to(s@, '\n', i as int) == j);
        let stripped_end = if j > i && s.get_char(j - 1) == '\r' {
            j - 1
        } else {
            j
        };
        let line = s.substring_char(i, stripped_end).to_owned();
        proof {
            assert(line@ =~= strip_cr(s@.subrange(i as int, j as int)));
            assert(views_of(v@.push(line)) =~= views_of(v@) + seq![line@]);
            assert(views_of(v@) + (seq![line@] + lines_from(s@, j + 1)) =~= (views_of(v@)
                + seq![line@]) + lines_from(s@, j + 1));
        }
        v.push(line);
        if j == len {
            i = len;
        } else {
            i = j + 1;
        }
    }
    proof {
        assert(views_of(v@) + Seq::<Seq<char>>::empty() =~= views_of(v@));
    }
    v
}


/// Position of the first occurrence of `pat` in `s` at or after `i`, if any.
pub open spec fn first_match_from(s: Seq<char>, pat: Seq<char>, i: int) -> Option<int>
    decreases s.len() - i + 1,
{
    if i < 0 || i + pat.len() > s.len() {
        None
    } else if match_at(s, pat, i) {
        Some(i)
    } else {
        first_match_from(s, pat, i + 1)
    }
}

/// Position of the first occurrence of `pat` in `s`, if any.
pub open spec fn first_match(s: Seq<char>, pat: Seq<char>) -> Option<int> {
    first_match_from(s, pat, 0)
}

/// Position of the last occurrence of `pat` in `s`, if any.
pub open spec fn last_match_from(s: Seq<char>, pat: Seq<char>, i: int) -> Option<int>
    decreases i + 1,
{
    if i < 0 || i > s.len() {
        None
    } else if i + pat.len() <= s.len() && match_at(s, pat, i) {
        Some(i)
    } else {
        last_match_from(s, pat, i - 1)
    }
}

/// Position of the last occurrence of `pat` in `s`, if any.
pub open spec fn last_match(s: Seq<char>, pat: Seq<char>) -> Option<int> {
    last_match_from(s, pat, s.len() as int)
}

/// A first occurrence, named by its characteristic facts, locates
/// `first_match`.
pub proof fn lemma_first_match_at(s: Seq<char>, pat: Seq<char>, m: int)
    requires
        match_at(s, pat, m),
        forall|j: int| 0 <= j < m ==> !match_at(s, pat, j),
    ensures
        first_match(s, pat) == Some(m),
{
    lemma_first_match_from_at(s, pat, 0, m);
}

proof fn lemma_first_match_from_at(s: Seq<char>, pat: Seq<char>, i: int, m: int)
    requires
        0 <= i <= m,
        match_at(s, pat, m),
        forall|j: int| i <= j < m ==> !match_at(s, pat, j),
    ensures
        first_match_from(s, pat, i) == Some(m),
    decreases m - i,
{
    if i < m {
        lemma_first_match_from_at(s, pat, i + 1, m);
    }
}

/// Absence of any occurrence makes `first_match` empty.
pub proof fn lemma_first_match_none(s: Seq<char>, pat: Seq<char>)
    requires
        forall|j: int| !match_at(s, pat, j),
    ensures
        first_match(s, pat) is None,
{
    lemma_first_match_from_none(s, pat, 0);
}

proof fn lemma_first_match_from_none(s: Seq<char>, pat: Seq<char>, i: int)
    requires
        forall|j: int| !match_at(s, pat, j),
        i >= 0,
    ensures
        first_match_from(s, pat, i) is None,
    decreases s.len() - i + 1,
{
    if i + pat.len() <= s.len() {
        lemma_first_match_from_none(s, pat, i + 1);
    }
}

/// A last occurrence, named by its characteristic facts, locates
/// `last_match`.
pub proof fn lemma_last_match_at(s: Seq<char>, pat: Seq<char>, m: int)
    requires
        match_at(s, pat, m),
        forall|j: int| j > m ==> !match_at(s, pat, j),
    ensures
        last_match(s, pat) == Some(m),
{
    lemma_last_match_from_at(s, pat, s.len() as int, m);
}

proof fn lemma_last_match_from_at(s: Seq<char>, pat: Seq<char>, i: int, m: int)
    requires
        m <= i <= s.len(),
        match_at(s, pat, m),
        forall|j: int| j > m ==> !match_at(s, pat, j),
    ensures
        last_match_from(s, pat, i) == Some(m),
    decreases i - m,
{
    if i > m {
        lemma_last_match_from_at(s, pat, i - 1, m);
    }
}

/// Absence of any occurrence makes `last_match` empty.
pub proof fn lemma_last_match_none(s: Seq<char>, pat: Seq<char>)
    requires
        forall|j: int| !match_at(s, pat, j),
    ensures
        last_match(s, pat) is None,
{
    lemma_last_match_from_none(s, pat, s.len() as int);
}

proof fn lemma_last_match_from_none(s: Seq<char>, pat: Seq<char>, i: int)
    requires
        forall|j: int| !match_at(s, pat, j),
        i <= s.len(),
    ensures
        last_match_from(s, pat, i) is None,
    decreases i + 1,
{
    if i >= 0 {
        lemma_last_match_from_none(s, pat, i - 1);
    }
}

/// End of the run of ASCII letters starting at `i`: the first position at or
/// after `i` holding a non-letter, or the end of `s`.
pub open spec fn alpha_end(s: Seq<char>, i: int) -> int
    decreases s.len() - i,
{
    if i < 0 || i >= s.len() || !is_alpha(s[i]) {
        i
    } else {
        alpha_end(s, i + 1)
    }
}

} // verus!
