//! The route-notation codec: a route is written as a non-empty run of
//! tokens `p<digits>r<digits>` with no separators, lowercase markers and
//! decimal digits only. Each token decodes to one
//! `(placement_id, role_id)` pair; token order is preserved.
//!
//! Two entry points parse the notation: a strict one that rejects any
//! leftover input (used when validating pasted text) and a lenient one
//! that stops at the first spot where no further token matches and
//! returns the pairs read so far (used when deriving a live display
//! list). A digit run whose value does not fit in 32 bits is treated as
//! no match at that token.

use vstd::prelude::*;

use crate::decimal::{
    all_digits, dec_rep, digit_val, digits_val, is_digit_char, lemma_dec_rep,
    lemma_digits_val_push, push_decimal,
};

verus! {

/// Error for notation text that the strict grammar rejects, carrying the
/// character offset of the first spot where no further token matches.
#[derive(Clone, Copy, Debug, PartialEq, Eq, Structural)]
pub enum ParseError {
    Malformed { offset: usize },
}

/// Length of the run of decimal digits at the front of `s`.
pub open spec fn digits_len(s: Seq<char>) -> int
    decreases s.len(),
{
    if s.len() > 0 && is_digit_char(s[0]) {
        1 + digits_len(s.drop_first())
    } else {
        0
    }
}

/// The digit run at the front of `s` is exactly `s[0 .. digits_len(s)]`.
pub proof fn lemma_digits_len(s: Seq<char>)
    ensures
        0 <= digits_len(s) <= s.len(),
        forall|i: int| 0 <= i < digits_len(s) ==> is_digit_char(#[trigger] s[i]),
        digits_len(s) < s.len() ==> !is_digit_char(s[digits_len(s)]),
    decreases s.len(),
{
    if s.len() > 0 && is_digit_char(s[0]) {
        lemma_digits_len(s.drop_first());
        assert forall|i: int| 0 <= i < digits_len(s) implies is_digit_char(#[trigger] s[i]) by {
            if i > 0 {
                assert(s.drop_first()[i - 1] == s[i]);
            }
        }
        if digits_len(s) < s.len() {
            assert(s.drop_first()[digits_len(s) - 1] == s[digits_len(s)]);
        }
    }
}

/// A run of digits followed by a non-digit (or the end) is the whole
/// leading digit run.
pub proof fn lemma_digits_len_concat(d: Seq<char>, t: Seq<char>)
    requires
        all_digits(d),
        t.len() == 0 || !is_digit_char(t[0]),
    ensures
        digits_len(d + t) == d.len(),
    decreases d.len(),
{
    if d.len() == 0 {
        assert(d + t =~= t);
    } else {
        assert((d + t)[0] == d[0]);
        assert((d + t).drop_first() =~= d.drop_first() + t);
        assert(all_digits(d.drop_first()));
        lemma_digits_len_concat(d.drop_first(), t);
    }
}

/// Does a whole token `p<digits>r<digits>` stand at the front of `s`,
/// with both digit runs non-empty and both values within 32 bits?
pub open spec fn token_valid(s: Seq<char>) -> bool {
    let d1 = digits_len(s.subrange(1, s.len() as int));
    let d2 = digits_len(s.subrange(2 + d1, s.len() as int));
    &&& s.len() > 0
    &&& s[0] == 'p'
    &&& d1 > 0
    &&& digits_val(s.subrange(1, 1 + d1)) <= u32::MAX
    &&& 1 + d1 < s.len()
    &&& s[1 + d1] == 'r'
    &&& d2 > 0
    &&& digits_val(s.subrange(2 + d1, 2 + d1 + d2)) <= u32::MAX
}

/// Length of the token at the front of `s`.
pub open spec fn token_len(s: Seq<char>) -> int
    recommends
        token_valid(s),
{
    let d1 = digits_len(s.subrange(1, s.len() as int));
    let d2 = digits_len(s.subrange(2 + d1, s.len() as int));
    2 + d1 + d2
}

/// The pair encoded by the token at the front of `s`.
pub open spec fn token_pair(s: Seq<char>) -> (u32, u32)
    recommends
        token_valid(s),
{
    let d1 = digits_len(s.subrange(1, s.len() as int));
    let d2 = digits_len(s.subrange(2 + d1, s.len() as int));
    (
        digits_val(s.subrange(1, 1 + d1)) as u32,
        digits_val(s.subrange(2 + d1, 2 + d1 + d2)) as u32,
    )
}

/// Offset, within `s`, of the first character at which the token match
/// at the front of `s` gives up.
pub open spec fn token_fail_at(s: Seq<char>) -> int
    recommends
        !token_valid(s),
{
    let d1 = digits_len(s.subrange(1, s.len() as int));
    if s.len() == 0 || s[0] != 'p' {
        0
    } else if d1 == 0 {
        1
    } else if digits_val(s.subrange(1, 1 + d1)) > u32::MAX {
        1
    } else if !(1 + d1 < s.len() && s[1 + d1] == 'r') {
        1 + d1
    } else {
        2 + d1
    }
}

/// A valid token is at least four characters long and fits in `s`.
pub proof fn lemma_token_len_bounds(s: Seq<char>)
    requires
        token_valid(s),
    ensures
        4 <= token_len(s) <= s.len(),
{
    lemma_digits_len(s.subrange(1, s.len() as int));
    let d1 = digits_len(s.subrange(1, s.len() as int));
    lemma_digits_len(s.subrange(2 + d1, s.len() as int));
}

/// Number of characters covered by the longest run of whole tokens at
/// the front of `s`.
pub open spec fn scan_len(s: Seq<char>) -> int
    decreases s.len(),
{
    if token_valid(s) {
        proof {
            lemma_token_len_bounds(s);
        }
        token_len(s) + scan_len(s.subrange(token_len(s), s.len() as int))
    } else {
        0
    }
}

/// The pairs encoded by the run of whole tokens at the front of `s`.
pub open spec fn scan_pairs(s: Seq<char>) -> Seq<(u32, u32)>
    decreases s.len(),
{
    if token_valid(s) {
        proof {
            lemma_token_len_bounds(s);
        }
        seq![token_pair(s)] + scan_pairs(s.subrange(token_len(s), s.len() as int))
    } else {
        Seq::empty()
    }
}

/// Offset of the first character at which no further token matches.
pub open spec fn scan_fail(s: Seq<char>) -> int
    decreases s.len(),
{
    if token_valid(s) {
        proof {
            lemma_token_len_bounds(s);
        }
        token_len(s) + scan_fail(s.subrange(token_len(s), s.len() as int))
    } else {
        token_fail_at(s)
    }
}

/// Is `c` a decimal digit?
fn is_digit(c: char) -> (r: bool)
    ensures
        r == is_digit_char(c),
{
    '0' <= c && c <= '9'
}

/// Reads the digit run of `s` that starts at `start`, returning the
/// offset just past the run, and its value unless it exceeds `u32::MAX`.
fn read_digit_run(s: &str, n: usize, start: usize) -> (r: (usize, Option<u32>))
    requires
        n == s@.len(),
        start <= n,
    ensures
        r.0 - start == digits_len(s@.subrange(start as int, n as int)),
        ({
            let v = digits_val(s@.subrange(start as int, r.0 as int));
            match r.1 {
                Some(x) => v <= u32::MAX && x == v,
                None => v > u32::MAX,
            }
        }),
{
    let mut j: usize = start;
    let mut cur: Option<u32> = Some(0);
    proof {
        assert(s@.subrange(start as int, start as int) =~= Seq::<char>::empty());
    }
    loop
        invariant
            n == s@.len(),
            start <= j <= n,
            digits_len(s@.subrange(start as int, n as int)) == (j - start) + digits_len(
                s@.subrange(j as int, n as int),
            ),
            ({
                let v = digits_val(s@.subrange(start as int, j as int));
                match cur {
                    Some(x) => v <= u32::MAX && x == v,
                    None => v > u32::MAX,
                }
            }),
        ensures
            start <= j <= n,
            j - start == digits_len(s@.subrange(start as int, n as int)),
            ({
                let v = digits_val(s@.subrange(start as int, j as int));
                match cur {
                    Some(x) => v <= u32::MAX && x == v,
                    None => v > u32::MAX,
                }
            }),
        decreases n - j,
    {
        if j == n {
            proof {
                assert(s@.subrange(j as int, n as int) =~= Seq::<char>::empty());
            }
            break;
        }
        let c = s.get_char(j);
        if !is_digit(c) {
            proof {
                assert(s@.subrange(j as int, n as int)[0] == s@[j as int]);
            }
            break;
        }
        let d: u32 = (c as u32) - ('0' as u32);
        proof {
            assert(d == digit_val(c));
            assert(s@.subrange(j as int, n as int)[0] == s@[j as int]);
            assert(s@.subrange(j as int, n as int).drop_first() =~= s@.subrange(
                j + 1,
                n as int,
            ));
            assert(s@.subrange(start as int, j + 1) =~= s@.subrange(
                start as int,
                j as int,
            ).push(s@[j as int]));
            lemma_digits_val_push(s@.subrange(start as int, j as int), s@[j as int]);
        }
        cur = match cur {
            Some(v) => {
                let w: u64 = (v as u64) * 10 + (d as u64);
                if w <= u32::MAX as u64 {
                    Some(w as u32)
                } else {
                    None
                }
            },
            None => None,
        };
        j = j + 1;
    }
    (j, cur)
}

/// Reads the run of whole tokens at the front of `s`, returning the
/// pairs read, the offset just past the last whole token, and the offset
/// of the first character at which no further token matched.
fn scan_frames(s: &str) -> (r: (Vec<(u32, u32)>, usize, usize))
    ensures
        r.0@ == scan_pairs(s@),
        r.1 == scan_len(s@),
        r.2 == scan_fail(s@),
{
    let n = s.unicode_len();
    let mut acc: Vec<(u32, u32)> = Vec::new();
    let mut i: usize = 0;
    proof {
        assert(s@.subrange(0, n as int) =~= s@);
    }
    loop
        invariant
            n == s@.len(),
            0 <= i <= n,
            scan_pairs(s@) == acc@ + scan_pairs(s@.subrange(i as int, n as int)),
            scan_len(s@) == i + scan_len(s@.subrange(i as int, n as int)),
            scan_fail(s@) == i + scan_fail(s@.subrange(i as int, n as int)),
        decreases n - i,
    {
        let ghost rem = s@.subrange(i as int, n as int);
        if i == n {
            proof {
                assert(!token_valid(rem));
                assert(token_fail_at(rem) == 0);
                assert(scan_pairs(s@) =~= acc@);
            }
            return (acc, i, i);
        }
        let c0 = s.get_char(i);
        proof {
            assert(rem[0] == s@[i as int]);
        }
        if c0 != 'p' {
            proof {
                assert(!token_valid(rem));
                assert(token_fail_at(rem) == 0);
                assert(scan_pairs(s@) =~= acc@);
            }
            return (acc, i, i);
        }
        // Digit run of the placement id.
        let (end1, v1) = read_digit_run(s, n, i + 1);
        let ghost d1 = digits_len(rem.subrange(1, rem.len() as int));
        proof {
            assert(rem.subrange(1, rem.len() as int) =~= s@.subrange(i + 1, n as int));
            assert(d1 == end1 - (i + 1));
            lemma_digits_len(s@.subrange(i + 1, n as int));
            assert(rem.subrange(1, 1 + d1) =~= s@.subrange(i + 1, end1 as int));
        }
        if end1 == i + 1 {
            proof {
                assert(!token_valid(rem));
                assert(token_fail_at(rem) == 1);
                assert(scan_pairs(s@) =~= acc@);
            }
            return (acc, i, i + 1);
        }
        let v1 = match v1 {
            Some(v) => v,
            None => {
                proof {
                    assert(!token_valid(rem));
                    assert(token_fail_at(rem) == 1);
                    assert(scan_pairs(s@) =~= acc@);
                }
                return (acc, i, i + 1);
            },
        };
        // The `r` marker.
        if end1 == n {
            proof {
                assert(!(1 + d1 < rem.len()));
                assert(!token_valid(rem));
                assert(token_fail_at(rem) == 1 + d1);
                assert(scan_pairs(s@) =~= acc@);
            }
            return (acc, i, end1);
        }
        let c1 = s.get_char(end1);
        proof {
            assert(rem[1 + d1] == s@[end1 as int]);
        }
        if c1 != 'r' {
            proof {
                assert(!token_valid(rem));
                assert(token_fail_at(rem) == 1 + d1);
                assert(scan_pairs(s@) =~= acc@);
            }
            return (acc, i, end1);
        }
        // Digit run of the role id.
        let (end2, v2) = read_digit_run(s, n, end1 + 1);
        let ghost d2 = digits_len(rem.subrange(2 + d1, rem.len() as int));
        proof {
            assert(rem.subrange(2 + d1, rem.len() as int) =~= s@.subrange(
                end1 + 1,
                n as int,
            ));
            assert(d2 == end2 - (end1 + 1));
            lemma_digits_len(s@.subrange(end1 + 1, n as int));
            assert(rem.subrange(2 + d1, 2 + d1 + d2) =~= s@.subrange(
                end1 + 1,
                end2 as int,
            ));
        }
        if end2 == end1 + 1 {
            proof {
                assert(!token_valid(rem));
                assert(token_fail_at(rem) == 2 + d1);
                assert(scan_pairs(s@) =~= acc@);
            }
            return (acc, i, end1 + 1);
        }
        let v2 = match v2 {
            Some(v) => v,
            None => {
                proof {
                    assert(!token_valid(rem));
                    assert(token_fail_at(rem) == 2 + d1);
                    assert(scan_pairs(s@) =~= acc@);
                }
                return (acc, i, end1 + 1);
            },
        };
        proof {
            assert(token_valid(rem));
            assert(token_len(rem) == end2 - i);
            assert(token_pair(rem) == (v1, v2));
            lemma_token_len_bounds(rem);
            assert(rem.subrange(token_len(rem), rem.len() as int) =~= s@.subrange(
                end2 as int,
                n as int,
            ));
        }
        acc.push((v1, v2));
        i = end2;
    }
}

/// Strict parsing of route notation: accepts exactly a non-empty run of
/// whole tokens with nothing left over, and otherwise reports the offset
/// of the first character at which no further token matched.
pub fn parse_placements_and_roles(s: &str) -> (r: Result<Vec<(u32, u32)>, ParseError>)
    ensures
        r is Ok <==> s@.len() > 0 && scan_len(s@) == s@.len(),
        (r matches Ok(v) ==> v@ == scan_pairs(s@)),
        (r matches Err(e) ==> e == (ParseError::Malformed { offset: scan_fail(s@) as usize })),
{
    let n = s.unicode_len();
    let (pairs, consumed, fail_at) = scan_frames(s);
    if n > 0 && consumed == n {
        Ok(pairs)
    } else {
        proof {
            if s@.len() == 0 {
                assert(!token_valid(s@));
                assert(scan_fail(s@) == 0);
            }
        }
        Err(ParseError::Malformed { offset: fail_at })
    }
}

/// Lenient parsing of route notation: returns the pairs encoded by the
/// longest run of whole tokens at the front, ignoring whatever follows.
pub fn parse_frames_lenient(s: &str) -> (r: Vec<(u32, u32)>)
    ensures
        r@ == scan_pairs(s@),
{
    let (pairs, _, _) = scan_frames(s);
    pairs
}

/// The notation text of one `(placement_id, role_id)` pair.
pub open spec fn token_rep(p: (u32, u32)) -> Seq<char> {
    seq!['p'] + dec_rep(p.0 as nat) + seq!['r'] + dec_rep(p.1 as nat)
}

/// The notation text of a sequence of pairs, in order, with no
/// separators.
pub open spec fn frames_rep(ps: Seq<(u32, u32)>) -> Seq<char>
    decreases ps.len(),
{
    if ps.len() == 0 {
        Seq::empty()
    } else {
        token_rep(ps[0]) + frames_rep(ps.drop_first())
    }
}

/// Serialization appends one token per pair.
pub proof fn lemma_frames_rep_push(ps: Seq<(u32, u32)>, p: (u32, u32))
    ensures
        frames_rep(ps.push(p)) == frames_rep(ps) + token_rep(p),
    decreases ps.len(),
{
    if ps.len() == 0 {
        assert(ps.push(p)[0] == p);
        assert(ps.push(p).drop_first() =~= Seq::<(u32, u32)>::empty());
        assert(frames_rep(ps.push(p)) == token_rep(p) + frames_rep(Seq::<(u32, u32)>::empty()));
        assert(token_rep(p) + Seq::<char>::empty() =~= token_rep(p));
        assert(frames_rep(ps) + token_rep(p) =~= token_rep(p));
    } else {
        assert(ps.push(p)[0] == ps[0]);
        assert(ps.push(p).drop_first() =~= ps.drop_first().push(p));
        lemma_frames_rep_push(ps.drop_first(), p);
        assert(frames_rep(ps.push(p)) =~= frames_rep(ps) + token_rep(p));
    }
}

/// Serializes a sequence of `(placement_id, role_id)` pairs into route
/// notation; the inverse of strict parsing for any non-empty sequence.
pub fn serialize_frames(ps: &Vec<(u32, u32)>) -> (r: String)
    ensures
        r@ == frames_rep(ps@),
{
    proof {
        reveal_strlit("p");
        reveal_strlit("r");
    }
    let mut out = String::new();
    let mut i: usize = 0;
    proof {
        assert(ps@.subrange(0, 0) =~= Seq::<(u32, u32)>::empty());
    }
    while i < ps.len()
        invariant
            0 <= i <= ps.len(),
            out@ == frames_rep(ps@.subrange(0, i as int)),
        decreases ps.len() - i,
    {
        proof {
            reveal_strlit("p");
            reveal_strlit("r");
        }
        let (p, q) = ps[i];
        out.append("p");
        proof {
            assert("p"@ =~= seq!['p']);
        }
        push_decimal(&mut out, p as u64);
        out.append("r");
        proof {
            assert("r"@ =~= seq!['r']);
        }
        push_decimal(&mut out, q as u64);
        proof {
            assert(ps@.subrange(0, i + 1) =~= ps@.subrange(0, i as int).push(ps@[i as int]));
            lemma_frames_rep_push(ps@.subrange(0, i as int), ps@[i as int]);
            assert(out@ =~= frames_rep(ps@.subrange(0, i + 1)));
        }
        i = i + 1;
    }
    proof {
        assert(ps@.subrange(0, ps@.len() as int) =~= ps@);
    }
    out
}

/// Non-empty serialized notation starts with the `p` marker.
proof fn lemma_frames_rep_head(ps: Seq<(u32, u32)>)
    requires
        ps.len() > 0,
    ensures
        frames_rep(ps).len() > 0,
        frames_rep(ps)[0] == 'p',
{
    lemma_dec_rep(ps[0].0 as nat);
    lemma_dec_rep(ps[0].1 as nat);
}

/// Round-trip law: scanning the serialized text of any pair sequence
/// consumes it whole and reads back exactly the same pairs. Together
/// with the parsing contracts this says that strict parsing returns any
/// non-empty serialized sequence unchanged, and lenient parsing any
/// serialized sequence at all.
pub proof fn lemma_scan_of_frames_rep(ps: Seq<(u32, u32)>)
    ensures
        scan_len(frames_rep(ps)) == frames_rep(ps).len(),
        scan_pairs(frames_rep(ps)) == ps,
    decreases ps.len(),
{
    if ps.len() == 0 {
        assert(frames_rep(ps) =~= Seq::<char>::empty());
        assert(!token_valid(frames_rep(ps)));
        assert(scan_pairs(frames_rep(ps)) =~= ps);
    } else {
        let p = ps[0].0;
        let q = ps[0].1;
        let dp = dec_rep(p as nat);
        let dq = dec_rep(q as nat);
        let rest = frames_rep(ps.drop_first());
        let s = frames_rep(ps);
        lemma_dec_rep(p as nat);
        lemma_dec_rep(q as nat);
        assert(s =~= seq!['p'] + dp + seq!['r'] + dq + rest);
        // The first digit run is exactly the digits of the placement id.
        assert(s.subrange(1, s.len() as int) =~= dp + (seq!['r'] + dq + rest));
        lemma_digits_len_concat(dp, seq!['r'] + dq + rest);
        let d1 = digits_len(s.subrange(1, s.len() as int));
        assert(d1 == dp.len());
        assert(s.subrange(1, 1 + d1) =~= dp);
        assert(digits_val(s.subrange(1, 1 + d1)) == p as nat);
        // The marker after it is `r`.
        assert(s[1 + d1] == 'r');
        // The second digit run is exactly the digits of the role id.
        if ps.drop_first().len() > 0 {
            lemma_frames_rep_head(ps.drop_first());
        }
        assert(s.subrange(2 + d1, s.len() as int) =~= dq + rest);
        lemma_digits_len_concat(dq, rest);
        let d2 = digits_len(s.subrange(2 + d1, s.len() as int));
        assert(d2 == dq.len());
        assert(s.subrange(2 + d1, 2 + d1 + d2) =~= dq);
        assert(digits_val(s.subrange(2 + d1, 2 + d1 + d2)) == q as nat);
        assert(token_valid(s));
        assert(token_len(s) == 2 + dp.len() + dq.len());
        assert(token_pair(s) == ps[0]);
        assert(s.subrange(token_len(s), s.len() as int) =~= rest);
        lemma_scan_of_frames_rep(ps.drop_first());
        assert(scan_len(s) == s.len());
        assert(scan_pairs(s) =~= seq![ps[0]] + ps.drop_first());
        assert(seq![ps[0]] + ps.drop_first() =~= ps);
    }
}

} // verus!
