//! Parsing of edge-list lines.
//!
//! A line is a comment when its first byte is `#`. Otherwise it is a valid
//! edge line when it holds exactly two tokens, separated by ASCII whitespace,
//! and each token is an unsigned decimal number that fits in `usize`. Every
//! other line — wrong token count, a malformed or oversized number — is
//! skipped rather than treated as fatal; callers that want strict ingestion
//! can still reject an input whose edge count differs from its line count.

use vstd::prelude::*;

verus! {

/// ASCII whitespace: space, tab, line feed, vertical tab, form feed,
/// carriage return.
pub open spec fn is_ws(c: u8) -> bool {
    c == 32 || (9 <= c && c <= 13)
}

pub open spec fn is_digit(c: u8) -> bool {
    48 <= c && c <= 57
}

/// Index of the first byte at or after `i` that is not whitespace (or the
/// end of the line).
pub open spec fn skip_ws(s: Seq<u8>, i: int) -> int
    decreases s.len() - i,
{
    if i < 0 || i >= s.len() || !is_ws(s[i]) {
        i
    } else {
        skip_ws(s, i + 1)
    }
}

/// Index of the first byte at or after `i` that is whitespace (or the end of
/// the line).
pub open spec fn skip_token(s: Seq<u8>, i: int) -> int
    decreases s.len() - i,
{
    if i < 0 || i >= s.len() || is_ws(s[i]) {
        i
    } else {
        skip_token(s, i + 1)
    }
}

pub proof fn lemma_skip_ws_range(s: Seq<u8>, i: int)
    requires
        0 <= i <= s.len(),
    ensures
        i <= skip_ws(s, i) <= s.len(),
    decreases s.len() - i,
{
    if i < s.len() && is_ws(s[i]) {
        lemma_skip_ws_range(s, i + 1);
    }
}

pub proof fn lemma_skip_token_range(s: Seq<u8>, i: int)
    requires
        0 <= i <= s.len(),
    ensures
        i <= skip_token(s, i) <= s.len(),
    decreases s.len() - i,
{
    if i < s.len() && !is_ws(s[i]) {
        lemma_skip_token_range(s, i + 1);
    }
}

pub open spec fn tok1_start(s: Seq<u8>) -> int {
    skip_ws(s, 0)
}

pub open spec fn tok1_end(s: Seq<u8>) -> int {
    skip_token(s, tok1_start(s))
}

pub open spec fn tok2_start(s: Seq<u8>) -> int {
    skip_ws(s, tok1_end(s))
}

pub open spec fn tok2_end(s: Seq<u8>) -> int {
    skip_token(s, tok2_start(s))
}

pub open spec fn is_comment(s: Seq<u8>) -> bool {
    s.len() > 0 && s[0] == 35
}

/// A non-comment line of exactly two whitespace-separated tokens.
pub open spec fn has_two_tokens(s: Seq<u8>) -> bool {
    &&& !is_comment(s)
    &&& tok1_start(s) < s.len()
    &&& tok2_start(s) < s.len()
    &&& skip_ws(s, tok2_end(s)) == s.len()
}

pub open spec fn tok1(s: Seq<u8>) -> Seq<u8> {
    s.subrange(tok1_start(s), tok1_end(s))
}

pub open spec fn tok2(s: Seq<u8>) -> Seq<u8> {
    s.subrange(tok2_start(s), tok2_end(s))
}

/// A non-empty, all-digit token.
pub open spec fn is_dec(t: Seq<u8>) -> bool {
    t.len() > 0 && forall|k: int| 0 <= k < t.len() ==> is_digit(#[trigger] t[k])
}

/// The value of a digit string read in base ten.
pub open spec fn dec_val(t: Seq<u8>) -> int
    decreases t.len(),
{
    if t.len() == 0 {
        0
    } else {
        dec_val(t.drop_last()) * 10 + (t.last() - 48)
    }
}

pub proof fn lemma_dec_val_nonneg(t: Seq<u8>)
    requires
        forall|k: int| 0 <= k < t.len() ==> is_digit(#[trigger] t[k]),
    ensures
        dec_val(t) >= 0,
    decreases t.len(),
{
    if t.len() > 0 {
        lemma_dec_val_nonneg(t.drop_last());
    }
}

/// Reading more digits never shrinks the value.
pub proof fn lemma_dec_val_take_le(t: Seq<u8>, m: int)
    requires
        forall|k: int| 0 <= k < t.len() ==> is_digit(#[trigger] t[k]),
        0 <= m <= t.len(),
    ensures
        dec_val(t.take(m)) <= dec_val(t),
    decreases t.len() - m,
{
    if m == t.len() {
        assert(t.take(m) =~= t);
    } else {
        assert(t.take(m + 1).drop_last() =~= t.take(m));
        lemma_dec_val_nonneg(t.take(m + 1).drop_last());
        lemma_dec_val_take_le(t, m + 1);
    }
}

/// What a line contributes to the graph: the edge it encodes, or nothing.
pub open spec fn spec_parse_edge_line(s: Seq<u8>) -> Option<(usize, usize)> {
    if has_two_tokens(s) && is_dec(tok1(s)) && dec_val(tok1(s)) <= usize::MAX && is_dec(tok2(s))
        && dec_val(tok2(s)) <= usize::MAX {
        Some((dec_val(tok1(s)) as usize, dec_val(tok2(s)) as usize))
    } else {
        None
    }
}

/// Scans past whitespace, landing on the first non-whitespace byte.
fn scan_ws(s: &Vec<u8>, i: usize) -> (j: usize)
    requires
        i <= s@.len(),
    ensures
        j == skip_ws(s@, i as int),
        i <= j <= s@.len(),
{
    let mut j: usize = i;
    while j < s.len() && (s[j] == 32 || (9 <= s[j] && s[j] <= 13))
        invariant
            i <= j <= s@.len(),
            skip_ws(s@, i as int) == skip_ws(s@, j as int),
        decreases s@.len() - j,
    {
        j = j + 1;
    }
    j
}

/// Scans past a token, landing on the first whitespace byte after it.
fn scan_token(s: &Vec<u8>, i: usize) -> (j: usize)
    requires
        i <= s@.len(),
    ensures
        j == skip_token(s@, i as int),
        i <= j <= s@.len(),
{
    let mut j: usize = i;
    while j < s.len() && !(s[j] == 32 || (9 <= s[j] && s[j] <= 13))
        invariant
            i <= j <= s@.len(),
            skip_token(s@, i as int) == skip_token(s@, j as int),
        decreases s@.len() - j,
    {
        j = j + 1;
    }
    j
}

/// Parses `s[a..b]` as an unsigned decimal number. Returns `None` when the
/// range is empty, holds a non-digit, or encodes a value above `usize::MAX`.
#[verifier::loop_isolation(false)]
fn parse_decimal(s: &Vec<u8>, a: usize, b: usize) -> (r: Option<usize>)
    requires
        a <= b <= s@.len(),
    ensures
        match r {
            Some(v) => is_dec(s@.subrange(a as int, b as int)) && v == dec_val(
                s@.subrange(a as int, b as int),
            ),
            None => !(is_dec(s@.subrange(a as int, b as int)) && dec_val(
                s@.subrange(a as int, b as int),
            ) <= usize::MAX),
        },
{
    let ghost t = s@.subrange(a as int, b as int);
    if a == b {
        return None;
    }
    let mut acc: usize = 0;
    let mut k: usize = a;
    while k < b
        invariant
            a <= k <= b,
            forall|m: int| 0 <= m < k - a ==> is_digit(#[trigger] t[m]),
            acc == dec_val(t.take(k - a)),
        decreases b - k,
    {
        let c = s[k];
        proof {
            assert(t[k - a] == s@[k as int]);
        }
        if c < 48 || c > 57 {
            return None;
        }
        let d = (c - 48) as usize;
        proof {
            assert(t.take(k - a + 1).drop_last() =~= t.take(k - a));
            assert(t.take(k - a + 1).last() == t[k - a]);
        }
        let limit = (usize::MAX - d) / 10;
        if acc > limit {
            proof {
                assert(10 * ((usize::MAX - d) as int / 10) >= usize::MAX - d - 9) by (nonlinear_arith);
                assert(acc * 10 >= (limit + 1) * 10) by (nonlinear_arith)
                    requires
                        acc >= limit + 1,
                ;
                assert(dec_val(t.take(k - a + 1)) > usize::MAX);
                if is_dec(t) {
                    lemma_dec_val_take_le(t, k - a + 1);
                }
            }
            return None;
        }
        proof {
            assert(acc * 10 <= limit * 10) by (nonlinear_arith)
                requires
                    acc <= limit,
            ;
            assert(10 * ((usize::MAX - d) as int / 10) <= usize::MAX - d) by (nonlinear_arith);
        }
        acc = acc * 10 + d;
        k = k + 1;
    }
    proof {
        assert(t.take(b - a) =~= t);
    }
    Some(acc)
}

/// Parses one line of the edge-list format. Returns the encoded edge for a
/// valid two-token line, and `None` for a comment, a line with any other
/// token count, or a malformed or oversized number (such lines are skipped).
pub fn parse_edge_line(line: &Vec<u8>) -> (r: Option<(usize, usize)>)
    ensures
        r == spec_parse_edge_line(line@),
{
    if line.len() > 0 && line[0] == 35 {
        return None;
    }
    let t1s = scan_ws(line, 0);
    if t1s == line.len() {
        return None;
    }
    let t1e = scan_token(line, t1s);
    let t2s = scan_ws(line, t1e);
    if t2s == line.len() {
        return None;
    }
    let t2e = scan_token(line, t2s);
    let rest = scan_ws(line, t2e);
    if rest != line.len() {
        proof {
            lemma_skip_ws_range(line@, t2e as int);
        }
        return None;
    }
    let first = parse_decimal(line, t1s, t1e);
    let second = parse_decimal(line, t2s, t2e);
    match (first, second) {
        (Some(x), Some(y)) => Some((x, y)),
        _ => None,
    }
}

} // verus!
