//! Edge-list parser: turns text lines (as bytes) into validated integer
//! pair edges.
//!
//! A line is a valid edge exactly when splitting it on whitespace yields two
//! tokens and both tokens are decimal numerals whose values fit in `u64`.
//! Malformed lines are skipped, never fatal.

use vstd::prelude::*;

verus! {

/// An ASCII whitespace byte: space, tab, line feed, vertical tab, form
/// feed, or carriage return.
pub open spec fn is_space(b: u8) -> bool {
    b == 32 || b == 9 || b == 10 || b == 11 || b == 12 || b == 13
}

/// An ASCII decimal digit.
pub open spec fn is_digit(b: u8) -> bool {
    48 <= b <= 57
}

/// First position at or after `i` that does not hold whitespace (or the end
/// of the line).
pub open spec fn skip_spaces(s: Seq<u8>, i: nat) -> nat
    decreases s.len() - i,
{
    if i >= s.len() {
        s.len()
    } else if is_space(s[i as int]) {
        skip_spaces(s, i + 1)
    } else {
        i
    }
}

/// First position at or after `i` that holds whitespace (or the end of the
/// line): the end of the token starting at `i`.
pub open spec fn skip_token(s: Seq<u8>, i: nat) -> nat
    decreases s.len() - i,
{
    if i >= s.len() {
        s.len()
    } else if is_space(s[i as int]) {
        i
    } else {
        skip_token(s, i + 1)
    }
}

/// Every byte of `t` is a decimal digit.
pub open spec fn all_digits(t: Seq<u8>) -> bool {
    forall|i: int| 0 <= i < t.len() ==> is_digit(t[i])
}

/// Numeric value of a digit string, most significant digit first.
pub open spec fn token_val(t: Seq<u8>) -> nat
    decreases t.len(),
{
    if t.len() == 0 {
        0
    } else {
        token_val(t.drop_last()) * 10 + (t.last() - 48) as nat
    }
}

/// A token that parses as a non-negative integer: non-empty, all digits,
/// and small enough for `u64`.
pub open spec fn is_u64_token(t: Seq<u8>) -> bool {
    t.len() > 0 && all_digits(t) && token_val(t) <= u64::MAX
}

/// Start of the first token of `s`.
pub open spec fn tok1_start(s: Seq<u8>) -> nat {
    skip_spaces(s, 0)
}

/// End of the first token of `s`.
pub open spec fn tok1_end(s: Seq<u8>) -> nat {
    skip_token(s, tok1_start(s))
}

/// Start of the second token of `s`.
pub open spec fn tok2_start(s: Seq<u8>) -> nat {
    skip_spaces(s, tok1_end(s))
}

/// End of the second token of `s`.
pub open spec fn tok2_end(s: Seq<u8>) -> nat {
    skip_token(s, tok2_start(s))
}

/// The line is a valid edge: exactly two whitespace-separated tokens, both
/// decimal numerals that fit in `u64`.
pub open spec fn line_is_edge(s: Seq<u8>) -> bool {
    &&& tok1_start(s) < tok1_end(s)
    &&& tok2_start(s) < tok2_end(s)
    &&& skip_spaces(s, tok2_end(s)) == s.len()
    &&& is_u64_token(s.subrange(tok1_start(s) as int, tok1_end(s) as int))
    &&& is_u64_token(s.subrange(tok2_start(s) as int, tok2_end(s) as int))
}

/// The edge a valid line encodes.
pub open spec fn line_edge(s: Seq<u8>) -> (u64, u64) {
    (
        token_val(s.subrange(tok1_start(s) as int, tok1_end(s) as int)) as u64,
        token_val(s.subrange(tok2_start(s) as int, tok2_end(s) as int)) as u64,
    )
}

/// The edges of a sequence of lines, in line order, valid lines only.
pub open spec fn edges_of(lines: Seq<Seq<u8>>) -> Seq<(u64, u64)>
    decreases lines.len(),
{
    if lines.len() == 0 {
        Seq::empty()
    } else {
        let rest = edges_of(lines.drop_last());
        if line_is_edge(lines.last()) {
            rest.push(line_edge(lines.last()))
        } else {
            rest
        }
    }
}

fn byte_is_space(b: u8) -> (r: bool)
    ensures
        r == is_space(b),
{
    b == 32 || b == 9 || b == 10 || b == 11 || b == 12 || b == 13
}

/// Scan past whitespace, starting at `i`.
fn scan_spaces(s: &Vec<u8>, i: usize) -> (r: usize)
    requires
        i <= s@.len(),
    ensures
        i <= r <= s@.len(),
        r == skip_spaces(s@, i as nat),
{
    let mut j: usize = i;
    while j < s.len() && byte_is_space(s[j])
        invariant
            i <= j <= s@.len(),
            skip_spaces(s@, i as nat) == skip_spaces(s@, j as nat),
        decreases s@.len() - j,
    {
        j = j + 1;
    }
    j
}

/// Scan past the token starting at `i`.
fn scan_token(s: &Vec<u8>, i: usize) -> (r: usize)
    requires
        i <= s@.len(),
    ensures
        i <= r <= s@.len(),
        r == skip_token(s@, i as nat),
{
    let mut j: usize = i;
    while j < s.len() && !byte_is_space(s[j])
        invariant
            i <= j <= s@.len(),
            skip_token(s@, i as nat) == skip_token(s@, j as nat),
        decreases s@.len() - j,
    {
        j = j + 1;
    }
    j
}

/// The value of a digit-string prefix never exceeds the value of a longer
/// prefix of the same token.
proof fn lemma_token_val_prefix_le(t: Seq<u8>, i: int, j: int)
    requires
        0 <= i <= j <= t.len(),
    ensures
        token_val(t.subrange(0, i)) <= token_val(t.subrange(0, j)),
    decreases j - i,
{
    if i < j {
        lemma_token_val_prefix_le(t, i, j - 1);
        assert(t.subrange(0, j).drop_last() =~= t.subrange(0, j - 1));
    }
}

/// Parse the token `s[start..end]` as a `u64`.
fn parse_u64_token(s: &Vec<u8>, start: usize, end: usize) -> (r: Option<u64>)
    requires
        start <= end <= s@.len(),
    ensures
        r is Some <==> is_u64_token(s@.subrange(start as int, end as int)),
        r is Some ==> r->0 as nat == token_val(s@.subrange(start as int, end as int)),
{
    let ghost tok = s@.subrange(start as int, end as int);
    if start == end {
        return None;
    }
    let mut acc: u64 = 0;
    let mut j: usize = start;
    while j < end
        invariant
            start <= j <= end <= s@.len(),
            tok == s@.subrange(start as int, end as int),
            all_digits(tok.subrange(0, j - start)),
            acc as nat == token_val(tok.subrange(0, j - start)),
        decreases end - j,
    {
        let b = s[j];
        if !(48 <= b && b <= 57) {
            assert(!is_digit(tok[j - start]));
            return None;
        }
        let d: u64 = (b - 48) as u64;
        let ghost pre = tok.subrange(0, j - start);
        let ghost pre1 = tok.subrange(0, j + 1 - start);
        assert(pre1.drop_last() =~= pre);
        assert(token_val(pre1) == token_val(pre) * 10 + d);
        let step = match acc.checked_mul(10) {
            Some(m) => m.checked_add(d),
            None => None,
        };
        match step {
            Some(v) => {
                acc = v;
            },
            None => {
                proof {
                    lemma_token_val_prefix_le(tok, j + 1 - start, tok.len() as int);
                    assert(tok.subrange(0, tok.len() as int) =~= tok);
                }
                return None;
            },
        }
        j = j + 1;
    }
    proof {
        assert(tok.subrange(0, end - start) =~= tok);
    }
    Some(acc)
}

/// Parse one line of the edge list.
///
/// Returns the edge exactly when the line holds two whitespace-separated
/// decimal numerals that fit in `u64`; any other line is no edge.
pub fn parse_edge(line: &Vec<u8>) -> (r: Option<(u64, u64)>)
    ensures
        r is Some <==> line_is_edge(line@),
        r is Some ==> r->0 == line_edge(line@),
{
    let a0 = scan_spaces(line, 0);
    let a1 = scan_token(line, a0);
    if a0 == a1 {
        return None;
    }
    let b0 = scan_spaces(line, a1);
    let b1 = scan_token(line, b0);
    if b0 == b1 {
        return None;
    }
    let rest = scan_spaces(line, b1);
    if rest != line.len() {
        return None;
    }
    let first = parse_u64_token(line, a0, a1);
    let second = parse_u64_token(line, b0, b1);
    match (first, second) {
        (Some(x), Some(y)) => Some((x, y)),
        _ => None,
    }
}

/// Parse a whole edge list: one candidate edge per line, malformed lines
/// skipped, file order kept.
pub fn parse_edges(lines: &Vec<Vec<u8>>) -> (r: Vec<(u64, u64)>)
    ensures
        r@ == edges_of(lines@.map_values(|l: Vec<u8>| l@)),
{
    let ghost all = lines@.map_values(|l: Vec<u8>| l@);
    let mut r: Vec<(u64, u64)> = Vec::new();
    let mut i: usize = 0;
    while i < lines.len()
        invariant
            i <= lines@.len(),
            all == lines@.map_values(|l: Vec<u8>| l@),
            r@ == edges_of(all.subrange(0, i as int)),
        decreases lines@.len() - i,
    {
        let ghost pre = all.subrange(0, i as int);
        let ghost pre1 = all.subrange(0, i + 1);
        proof {
            assert(pre1.drop_last() =~= pre);
            assert(pre1.last() == lines@[i as int]@);
        }
        match parse_edge(&lines[i]) {
            Some(e) => {
                r.push(e);
            },
            None => {},
        }
        i = i + 1;
    }
    proof {
        assert(all.subrange(0, lines@.len() as int) =~= all);
    }
    r
}

} // verus!
