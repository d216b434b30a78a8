//! Pure parsers for the free-form text the boards send back: the protocol
//! token, full identity replies, and node-enumeration records.

use vstd::prelude::*;
use crate::boards::{NetBoardInfo, Protocol};
use crate::strutil::{
    alpha_end, fields_from, find_sub, first_match, is_alpha, is_space, last_match,
    lemma_first_match_at, lemma_first_match_none, lemma_last_match_at, lemma_last_match_none,
    rfind_sub, scan_to, split_fields, str_eq_ignore_case, strip_cr, token_end, tokens_from,
    trim_spec, trim_str, upper_val, views_of,
};

verus! {

/// The identity-reply marker `"ID:"`.
pub open spec fn id_tag() -> Seq<char> {
    seq!['I', 'D', ':']
}

/// The node-reply marker `"NN:"`.
pub open spec fn nn_tag() -> Seq<char> {
    seq!['N', 'N', ':']
}

/// `s` with every comma turned into a space.
pub open spec fn commas_to_spaces(s: Seq<char>) -> Seq<char> {
    s.map_values(|c: char| if c == ',' { ' ' } else { c })
}

/// Character-wise equality up to ASCII case.
pub open spec fn upper_eq(a: Seq<char>, b: Seq<char>) -> bool {
    a.len() == b.len() && forall|k: int| 0 <= k < a.len() ==> upper_val(a[k]) == upper_val(b[k])
}

/// Protocol named by a probe reply: the run of letters after the first
/// `"ID:"`, read without regard to case. Any other reply names none.
pub open spec fn protocol_spec(resp: Seq<char>) -> Option<Protocol> {
    match first_match(resp, id_tag()) {
        Some(i) => {
            let t = trim_spec(resp.subrange(i + 3, resp.len() as int));
            let tok = t.subrange(0, alpha_end(t, 0));
            if upper_eq(tok, seq!['N', 'E', 'T']) {
                Some(Protocol::NET)
            } else if upper_eq(tok, seq!['E', 'X', 'P']) {
                Some(Protocol::EXP)
            } else {
                None
            }
        },
        None => None,
    }
}

/// Whether `c` is an ASCII letter.
fn alpha_char(c: char) -> (r: bool)
    ensures
        r == is_alpha(c),
{
    ('a' <= c && c <= 'z') || ('A' <= c && c <= 'Z')
}

/// Reads the protocol kind out of a probe reply.
pub fn parse_protocol(resp: &str) -> (r: Option<Protocol>)
    ensures
        r == protocol_spec(resp@),
{
    proof {
        reveal_strlit("ID:");
        assert(("ID:")@ =~= id_tag());
    }
    match find_sub(resp, "ID:") {
        Some(i) => {
            proof {
                lemma_first_match_at(resp@, id_tag(), i as int);
            }
            let len = resp.unicode_len();
            let after = resp.substring_char(i + 3, len);
            let t = trim_str(after);
            let tlen = t.unicode_len();
            let mut e: usize = 0;
            while e < tlen && alpha_char(t.get_char(e))
                invariant
                    tlen == t@.len(),
                    e <= tlen,
                    alpha_end(t@, 0) == alpha_end(t@, e as int),
                decreases tlen - e,
            {
                e += 1;
            }
            assert(alpha_end(t@, 0) == e);
            let tok = t.substring_char(0, e);
            proof {
                reveal_strlit("NET");
                reveal_strlit("EXP");
                assert(("NET")@ =~= seq!['N', 'E', 'T']);
                assert(("EXP")@ =~= seq!['E', 'X', 'P']);
            }
            if str_eq_ignore_case(tok, "NET") {
                Some(Protocol::NET)
            } else if str_eq_ignore_case(tok, "EXP") {
                Some(Protocol::EXP)
            } else {
                None
            }
        },
        None => {
            proof {
                lemma_first_match_none(resp@, id_tag());
            }
            None
        },
    }
}

/// The `(protocol, board name, version)` tokens of an identity reply: the
/// text after the first `"ID:"`, commas read as spaces, split on whitespace,
/// asking for at least three tokens.
pub open spec fn id_triple(resp: Seq<char>) -> Option<(Seq<char>, Seq<char>, Seq<char>)> {
    match first_match(resp, id_tag()) {
        Some(i) => {
            let toks = tokens_from(commas_to_spaces(resp.subrange(i + 3, resp.len() as int)), 0);
            if toks.len() >= 3 {
                Some((toks[0], toks[1], toks[2]))
            } else {
                None
            }
        },
        None => None,
    }
}

/// All whitespace-delimited tokens of `s` with commas read as spaces.
fn tokenize_commas(s: &str) -> (v: Vec<String>)
    ensures
        views_of(v@) == tokens_from(commas_to_spaces(s@), 0),
{
    let ghost n = commas_to_spaces(s@);
    let len = s.unicode_len();
    let mut v: Vec<String> = Vec::new();
    let mut i: usize = 0;
    while i < len
        invariant
            len == s@.len(),
            n == commas_to_spaces(s@),
            n.len() == len,
            i <= len,
            tokens_from(n, 0) == views_of(v@) + tokens_from(n, i as int),
        decreases len - i,
    {
        let c = s.get_char(i);
        if space_or_comma(c) {
            assert(is_space(n[i as int]));
            i += 1;
        } else {
            assert(n[i as int] == s@[i as int]);
            let mut j: usize = i + 1;
            while j < len && !space_or_comma(s.get_char(j))
                invariant
                    len == s@.len(),
                    n == commas_to_spaces(s@),
                    n.len() == len,
                    i < j <= len,
                    token_end(n, i as int) == token_end(n, j as int),
                    forall|k: int| i <= k < j ==> n[k] == s@[k],
                decreases len - j,
            {
                proof {
                    assert(n[j as int] == s@[j as int]);
                }
                j += 1;
            }
            assert(token_end(n, i as int) == j) by {
                if j < len {
                    assert(is_space(n[j as int]));
                }
            }
            let tok = s.substring_char(i, j).to_owned();
            proof {
                assert(tok@ =~= n.subrange(i as int, j as int));
                assert(views_of(v@.push(tok)) =~= views_of(v@) + seq![tok@]);
                assert(views_of(v@) + (seq![tok@] + tokens_from(n, j as int)) =~= (views_of(v@)
                    + seq![tok@]) + tokens_from(n, j as int));
            }
            v.push(tok);
            i = j;
        }
    }
    proof {
        assert(views_of(v@) + Seq::<Seq<char>>::empty() =~= views_of(v@));
    }
    v
}

/// Whether `c` reads as a separator once commas count as spaces.
fn space_or_comma(c: char) -> (r: bool)
    ensures
        r == (is_space(c) || c == ','),
{
    c == ',' || c == ' ' || c == '\t' || c == '\n' || c == '\r' || c == '\x0c'
}

/// Splits an identity reply into its protocol, board-name and version
/// tokens. Commas around the protocol token are tolerated.
pub fn parse_id_response(resp: &str) -> (r: Option<(String, String, String)>)
    ensures
        match r {
            Some(t) => id_triple(resp@) == Some((t.0@, t.1@, t.2@)),
            None => id_triple(resp@) is None,
        },
{
    proof {
        reveal_strlit("ID:");
        assert(("ID:")@ =~= id_tag());
    }
    match find_sub(resp, "ID:") {
        Some(i) => {
            proof {
                lemma_first_match_at(resp@, id_tag(), i as int);
            }
            let len = resp.unicode_len();
            let after = resp.substring_char(i + 3, len);
            let toks = tokenize_commas(after);
            if toks.len() >= 3 {
                let protocol = toks[0].clone();
                let board = toks[1].clone();
                let version = toks[2].clone();
                assert(protocol@ == views_of(toks@)[0]);
                assert(board@ == views_of(toks@)[1]);
                assert(version@ == views_of(toks@)[2]);
                Some((protocol, board, version))
            } else {
                None
            }
        },
        None => {
            proof {
                lemma_first_match_none(resp@, id_tag());
            }
            None
        },
    }
}

/// The trimmed comma-separated fields of a node reply: the rest of the line
/// after the last `"NN:"`, asking for at least three fields.
pub open spec fn nn_record(resp: Seq<char>) -> Option<Seq<Seq<char>>> {
    match last_match(resp, nn_tag()) {
        Some(i) => {
            let a = resp.subrange(i + 3, resp.len() as int);
            let line = strip_cr(a.subrange(0, scan_to(a, '\n', 0)));
            let fs = fields_from(trim_spec(line), 0);
            if fs.len() >= 3 {
                Some(fs)
            } else {
                None
            }
        },
        None => None,
    }
}

/// Reads a node record out of an enumeration reply. Replies may hold stale
/// fragments, so only the last `"NN:"` counts; fields beyond the third are
/// kept, in order.
pub fn parse_nn_response(resp: &str) -> (r: Option<NetBoardInfo>)
    ensures
        match r {
            Some(info) => {
                &&& nn_record(resp@) matches Some(fs)
                &&& info.node_id@ == fs[0]
                &&& info.node_name@ == fs[1]
                &&& info.firmware@ == fs[2]
                &&& views_of(info.extra_fields@) == fs.skip(3)
            },
            None => nn_record(resp@) is None,
        },
{
    proof {
        reveal_strlit("NN:");
        assert(("NN:")@ =~= nn_tag());
    }
    match rfind_sub(resp, "NN:") {
        Some(i) => {
            proof {
                lemma_last_match_at(resp@, nn_tag(), i as int);
            }
            let len = resp.unicode_len();
            let after = resp.substring_char(i + 3, len);
            let alen = after.unicode_len();
            let mut e: usize = 0;
            while e < alen && after.get_char(e) != '\n'
                invariant
                    alen == after@.len(),
                    e <= alen,
                    scan_to(after@, '\n', 0) == scan_to(after@, '\n', e as int),
                decreases alen - e,
            {
                e += 1;
            }
            assert(scan_to(after@, '\n', 0) == e);
            let stripped_end = if e > 0 && after.get_char(e - 1) == '\r' {
                e - 1
            } else {
                e
            };
            let line = after.substring_char(0, stripped_end);
            proof {
                assert(line@ =~= strip_cr(after@.subrange(0, e as int)));
            }
            let trimmed = trim_str(line);
            let fs = split_fields(trimmed);
            if fs.len() >= 3 {
                let node_id = fs[0].clone();
                let node_name = fs[1].clone();
                let firmware = fs[2].clone();
                let ghost fviews = views_of(fs@);
                assert(node_id@ == fviews[0]);
                assert(node_name@ == fviews[1]);
                assert(firmware@ == fviews[2]);
                let mut extra_fields: Vec<String> = Vec::new();
                let mut k: usize = 3;
                while k < fs.len()
                    invariant
                        3 <= k <= fs.len(),
                        fviews == views_of(fs@),
                        views_of(extra_fields@) == fviews.subrange(3, k as int),
                    decreases fs.len() - k,
                {
                    let f = fs[k].clone();
                    proof {
                        assert(views_of(extra_fields@.push(f)) =~= views_of(extra_fields@)
                            + seq![f@]);
                        assert(fviews.subrange(3, k as int) + seq![fviews[k as int]]
                            =~= fviews.subrange(3, k + 1));
                    }
                    extra_fields.push(f);
                    k += 1;
                }
                proof {
                    assert(fviews.subrange(3, fviews.len() as int) =~= fviews.skip(3));
                }
                Some(
                    NetBoardInfo {
                        node_id,
                        node_name,
                        firmware,
                        extra_fields,
                    },
                )
            } else {
                None
            }
        },
        None => {
            proof {
                lemma_last_match_none(resp@, nn_tag());
            }
            None
        },
    }
}

} // verus!
