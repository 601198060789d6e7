//! Paste import: each line of the pasted text is either
//! `name,frames` or bare `frames`, split at the rightmost comma so
//! names may themselves contain commas. A line whose frames segment
//! fails the strict grammar is rejected whole, with a line-numbered
//! warning, and the remaining lines still apply. Each accepted line
//! becomes a climb under a fresh identifier, and the selection moves to
//! the first climb of the batch.

use vstd::prelude::*;

use crate::codec::{parse_placements_and_roles, scan_fail, scan_len, ParseError};
use crate::data::{Climb, KilterData, SelectedClimb};
use crate::session::upserted_climbs;

verus! {

/// Index of the first newline in `s`, or -1.
pub open spec fn first_nl(s: Seq<char>) -> int
    decreases s.len(),
{
    if s.len() == 0 {
        -1
    } else if s[0] == '\n' {
        0
    } else {
        let r = first_nl(s.drop_first());
        if r < 0 {
            -1
        } else {
            1 + r
        }
    }
}

/// `first_nl` finds exactly the first newline.
pub proof fn lemma_first_nl(s: Seq<char>)
    ensures
        first_nl(s) == -1 ==> forall|k: int| 0 <= k < s.len() ==> #[trigger] s[k] != '\n',
        first_nl(s) >= 0 ==> {
            &&& first_nl(s) < s.len()
            &&& s[first_nl(s)] == '\n'
            &&& forall|k: int| 0 <= k < first_nl(s) ==> #[trigger] s[k] != '\n'
        },
    decreases s.len(),
{
    if s.len() > 0 && s[0] != '\n' {
        lemma_first_nl(s.drop_first());
        assert forall|k: int| 1 <= k < s.len() implies s.drop_first()[k - 1] == s[k] by {}
    }
}

/// A text whose characters up to `d` are not newlines, with a newline
/// or the end at `d`, has its first newline exactly there.
pub proof fn lemma_first_nl_at(s: Seq<char>, d: int)
    requires
        0 <= d <= s.len(),
        forall|k: int| 0 <= k < d ==> #[trigger] s[k] != '\n',
        d < s.len() ==> s[d] == '\n',
    ensures
        d < s.len() ==> first_nl(s) == d,
        d == s.len() ==> first_nl(s) == -1,
    decreases d,
{
    if d == 0 {
    } else {
        assert(s[0] != '\n');
        assert forall|k: int| 0 <= k < d - 1 implies #[trigger] s.drop_first()[k] != '\n' by {
            assert(s.drop_first()[k] == s[k + 1]);
        }
        if d - 1 < s.drop_first().len() {
            assert(s.drop_first()[d - 1] == s[d]);
        }
        lemma_first_nl_at(s.drop_first(), d - 1);
    }
}

/// The lines of a text, split at each newline; a trailing newline
/// yields a final empty line, and an empty text one empty line.
pub open spec fn split_lines(s: Seq<char>) -> Seq<Seq<char>>
    decreases s.len(),
{
    let d = first_nl(s);
    if d < 0 {
        seq![s]
    } else {
        proof {
            lemma_first_nl(s);
        }
        seq![s.subrange(0, d)] + split_lines(s.subrange(d + 1, s.len() as int))
    }
}

/// A whitespace character that trimming strips from line ends.
pub open spec fn is_space(c: char) -> bool {
    c == ' ' || c == '\t' || c == '\r'
}

/// The line with its leading whitespace dropped.
pub open spec fn ltrimmed(s: Seq<char>) -> Seq<char>
    decreases s.len(),
{
    if s.len() > 0 && is_space(s[0]) {
        ltrimmed(s.drop_first())
    } else {
        s
    }
}

/// The line with its trailing whitespace dropped.
pub open spec fn rtrimmed(s: Seq<char>) -> Seq<char>
    decreases s.len(),
{
    if s.len() > 0 && is_space(s.last()) {
        rtrimmed(s.drop_last())
    } else {
        s
    }
}

/// The line with whitespace dropped from both ends.
pub open spec fn trimmed(s: Seq<char>) -> Seq<char> {
    rtrimmed(ltrimmed(s))
}

/// Dropping leading whitespace keeps the suffix after the first
/// non-space character.
pub proof fn lemma_ltrimmed_at(s: Seq<char>, a: int)
    requires
        0 <= a <= s.len(),
        forall|k: int| 0 <= k < a ==> is_space(#[trigger] s[k]),
        a < s.len() ==> !is_space(s[a]),
    ensures
        ltrimmed(s) == s.subrange(a, s.len() as int),
    decreases a,
{
    if a == 0 {
        assert(s.subrange(0, s.len() as int) =~= s);
    } else {
        assert(is_space(s[0]));
        assert forall|k: int| 0 <= k < a - 1 implies is_space(#[trigger] s.drop_first()[k]) by {
            assert(s.drop_first()[k] == s[k + 1]);
        }
        if a - 1 < s.drop_first().len() {
            assert(s.drop_first()[a - 1] == s[a]);
        }
        lemma_ltrimmed_at(s.drop_first(), a - 1);
        assert(s.drop_first().subrange(a - 1, s.drop_first().len() as int) =~= s.subrange(
            a,
            s.len() as int,
        ));
    }
}

/// Dropping trailing whitespace keeps the prefix before the last
/// non-space character.
pub proof fn lemma_rtrimmed_at(s: Seq<char>, b: int)
    requires
        0 <= b <= s.len(),
        forall|k: int| b <= k < s.len() ==> is_space(#[trigger] s[k]),
        b > 0 ==> !is_space(s[b - 1]),
    ensures
        rtrimmed(s) == s.subrange(0, b),
    decreases s.len() - b,
{
    if b == s.len() {
        if s.len() > 0 && is_space(s.last()) {
            assert forall|k: int| b - 1 <= k < s.drop_last().len() implies is_space(
                #[trigger] s.drop_last()[k],
            ) by {
                assert(s.drop_last()[k] == s[k]);
            }
            assert(false);
        }
        assert(s.subrange(0, b) =~= s);
    } else {
        assert(is_space(s.last()));
        assert forall|k: int| b <= k < s.drop_last().len() implies is_space(
            #[trigger] s.drop_last()[k],
        ) by {
            assert(s.drop_last()[k] == s[k]);
        }
        lemma_rtrimmed_at(s.drop_last(), b);
        assert(s.drop_last().subrange(0, b) =~= s.subrange(0, b));
    }
}

/// Index of the rightmost comma in `s`, or -1.
pub open spec fn last_comma(s: Seq<char>) -> int
    decreases s.len(),
{
    if s.len() == 0 {
        -1
    } else if s.last() == ',' {
        s.len() - 1
    } else {
        last_comma(s.drop_last())
    }
}

/// `last_comma` finds exactly the rightmost comma.
pub proof fn lemma_last_comma(s: Seq<char>)
    ensures
        -1 <= last_comma(s) < s.len(),
        last_comma(s) == -1 ==> forall|k: int| 0 <= k < s.len() ==> #[trigger] s[k] != ',',
        last_comma(s) >= 0 ==> {
            &&& last_comma(s) < s.len()
            &&& s[last_comma(s)] == ','
            &&& forall|k: int| last_comma(s) < k < s.len() ==> #[trigger] s[k] != ','
        },
    decreases s.len(),
{
    if s.len() > 0 && s.last() != ',' {
        lemma_last_comma(s.drop_last());
        assert forall|k: int| 0 <= k < s.len() - 1 implies s.drop_last()[k] == s[k] by {}
    }
}

/// The name half of a trimmed line: what stands before the rightmost
/// comma, or the stock name "Pasted Climb" when the line has none.
pub open spec fn name_of_line(t: Seq<char>) -> Seq<char> {
    let lc = last_comma(t);
    if lc < 0 {
        "Pasted Climb"@
    } else {
        t.subrange(0, lc)
    }
}

/// The frames half of a trimmed line: what follows the rightmost
/// comma, or the whole line when it has none.
pub open spec fn frames_of_line(t: Seq<char>) -> Seq<char> {
    let lc = last_comma(t);
    if lc < 0 {
        t
    } else {
        t.subrange(lc + 1, t.len() as int)
    }
}

/// Does the frames half of a trimmed line satisfy the strict grammar?
pub open spec fn line_frames_ok(t: Seq<char>) -> bool {
    frames_of_line(t).len() > 0 && scan_len(frames_of_line(t)) == frames_of_line(t).len()
}

/// The climb an accepted line turns into: the given fresh identifier,
/// the line's name and frames, set by "User", everything else blank.
pub open spec fn pasted_fields(c: Climb, id: Seq<char>, t: Seq<char>) -> bool {
    &&& c.uuid@ == id
    &&& c.name@ == name_of_line(t)
    &&& c.frames@ == frames_of_line(t)
    &&& c.setter_username@ == "User"@
    &&& c.description@ == Seq::<char>::empty()
    &&& c.angle is None
    &&& c.hsm == 0
    &&& c.edge_left == 0
    &&& c.edge_right == 0
    &&& c.edge_bottom == 0
    &&& c.edge_top == 0
    &&& c.frames_count == 0
    &&& c.frames_pace == 0
    &&& c.setter_id == 0
    &&& c.layout_id == 0
    &&& c.is_draft == false
    &&& c.is_listed == false
}

/// The whole paste folded into the collection: blank and rejected
/// lines leave it alone, each accepted line takes one identifier from
/// `ids` and inserts its climb.
pub open spec fn paste_rel(
    olds: Seq<Climb>,
    news: Seq<Climb>,
    lines: Seq<Seq<char>>,
    ids: Seq<Seq<char>>,
) -> bool
    decreases lines.len(),
{
    if lines.len() == 0 {
        news == olds && ids.len() == 0
    } else {
        let t = trimmed(lines[0]);
        if t.len() == 0 || !line_frames_ok(t) {
            paste_rel(olds, news, lines.drop_first(), ids)
        } else {
            ids.len() > 0 && exists|c: Climb, mid: Seq<Climb>|
                pasted_fields(c, ids[0], t) && #[trigger] upserted_climbs(olds, mid, c)
                    && paste_rel(mid, news, lines.drop_first(), ids.drop_first())
        }
    }
}

/// The warnings of a paste, one per non-blank rejected line: the line
/// number (counted from `base`) and the offset at which its frames
/// half failed.
pub open spec fn paste_warnings(lines: Seq<Seq<char>>, base: int) -> Seq<(usize, ParseError)>
    decreases lines.len(),
{
    if lines.len() == 0 {
        Seq::empty()
    } else {
        let t = trimmed(lines[0]);
        (if t.len() > 0 && !line_frames_ok(t) {
            seq![
                (
                    base as usize,
                    ParseError::Malformed { offset: scan_fail(frames_of_line(t)) as usize },
                ),
            ]
        } else {
            Seq::empty()
        }) + paste_warnings(lines.drop_first(), base + 1)
    }
}

/// How many lines of a paste are accepted.
pub open spec fn count_valid(lines: Seq<Seq<char>>) -> int
    decreases lines.len(),
{
    if lines.len() == 0 {
        0
    } else {
        (if trimmed(lines[0]).len() > 0 && line_frames_ok(trimmed(lines[0])) {
            1int
        } else {
            0int
        }) + count_valid(lines.drop_first())
    }
}

/// A blank or rejected line extends a finished fold unchanged.
proof fn lemma_paste_rel_snoc_skip(
    olds: Seq<Climb>,
    news: Seq<Climb>,
    lines: Seq<Seq<char>>,
    ids: Seq<Seq<char>>,
    l: Seq<char>,
)
    requires
        paste_rel(olds, news, lines, ids),
        trimmed(l).len() == 0 || !line_frames_ok(trimmed(l)),
    ensures
        paste_rel(olds, news, lines.push(l), ids),
    decreases lines.len(),
{
    if lines.len() == 0 {
        assert(lines.push(l)[0] == l);
        assert(lines.push(l).drop_first() =~= lines);
    } else {
        assert(lines.push(l)[0] == lines[0]);
        assert(lines.push(l).drop_first() =~= lines.drop_first().push(l));
        let t = trimmed(lines[0]);
        if t.len() == 0 || !line_frames_ok(t) {
            lemma_paste_rel_snoc_skip(olds, news, lines.drop_first(), ids, l);
        } else {
            let (c0, m0) = choose|c0: Climb, m0: Seq<Climb>|
                pasted_fields(c0, ids[0], t) && #[trigger] upserted_climbs(olds, m0, c0)
                    && paste_rel(m0, news, lines.drop_first(), ids.drop_first());
            lemma_paste_rel_snoc_skip(m0, news, lines.drop_first(), ids.drop_first(), l);
            assert(upserted_climbs(olds, m0, c0));
        }
    }
}

/// An accepted line extends a finished fold by its climb and uses one
/// more identifier.
proof fn lemma_paste_rel_snoc_ok(
    olds: Seq<Climb>,
    mid: Seq<Climb>,
    news: Seq<Climb>,
    lines: Seq<Seq<char>>,
    ids: Seq<Seq<char>>,
    l: Seq<char>,
    id: Seq<char>,
    c: Climb,
)
    requires
        paste_rel(olds, mid, lines, ids),
        trimmed(l).len() > 0,
        line_frames_ok(trimmed(l)),
        pasted_fields(c, id, trimmed(l)),
        upserted_climbs(mid, news, c),
    ensures
        paste_rel(olds, news, lines.push(l), ids.push(id)),
    decreases lines.len(),
{
    if lines.len() == 0 {
        assert(mid == olds && ids.len() == 0);
        assert(lines.push(l)[0] == l);
        assert(lines.push(l).drop_first() =~= lines);
        assert(ids.push(id)[0] == id);
        assert(ids.push(id).drop_first() =~= ids);
        assert(paste_rel(news, news, lines.push(l).drop_first(), ids.push(id).drop_first()));
        assert(upserted_climbs(olds, news, c));
    } else {
        assert(lines.push(l)[0] == lines[0]);
        assert(lines.push(l).drop_first() =~= lines.drop_first().push(l));
        let t = trimmed(lines[0]);
        if t.len() == 0 || !line_frames_ok(t) {
            lemma_paste_rel_snoc_ok(olds, mid, news, lines.drop_first(), ids, l, id, c);
        } else {
            let (c0, m0) = choose|c0: Climb, m0: Seq<Climb>|
                pasted_fields(c0, ids[0], t) && #[trigger] upserted_climbs(olds, m0, c0)
                    && paste_rel(m0, mid, lines.drop_first(), ids.drop_first());
            lemma_paste_rel_snoc_ok(
                m0,
                mid,
                news,
                lines.drop_first(),
                ids.drop_first(),
                l,
                id,
                c,
            );
            assert(ids.push(id)[0] == ids[0]);
            assert(ids.push(id).drop_first() =~= ids.drop_first().push(id));
            assert(upserted_climbs(olds, m0, c0));
        }
    }
}

/// One more line extends the warning list and the acceptance count in
/// the expected way.
proof fn lemma_paste_counts_snoc(lines: Seq<Seq<char>>, l: Seq<char>, base: int)
    ensures
        paste_warnings(lines.push(l), base) == paste_warnings(lines, base) + (if trimmed(l).len()
            > 0 && !line_frames_ok(trimmed(l)) {
            seq![
                (
                    (base + lines.len()) as usize,
                    ParseError::Malformed {
                        offset: scan_fail(frames_of_line(trimmed(l))) as usize,
                    },
                ),
            ]
        } else {
            Seq::empty()
        }),
        count_valid(lines.push(l)) == count_valid(lines) + (if trimmed(l).len() > 0
            && line_frames_ok(trimmed(l)) {
            1int
        } else {
            0int
        }),
    decreases lines.len(),
{
    if lines.len() == 0 {
        assert(lines.push(l)[0] == l);
        assert(lines.push(l).drop_first() =~= lines);
        let t = trimmed(l);
        let head: Seq<(usize, ParseError)> = if t.len() > 0 && !line_frames_ok(t) {
            seq![
                (base as usize, ParseError::Malformed { offset: scan_fail(frames_of_line(t)) as usize }),
            ]
        } else {
            Seq::empty()
        };
        assert(paste_warnings(lines.push(l), base) == head + paste_warnings(
            lines.push(l).drop_first(),
            base + 1,
        ));
        assert(paste_warnings(lines, base + 1) =~= Seq::<(usize, ParseError)>::empty());
        assert(paste_warnings(lines, base) =~= Seq::<(usize, ParseError)>::empty());
        assert(head + Seq::<(usize, ParseError)>::empty() =~= Seq::<(
            usize,
            ParseError,
        )>::empty() + head);
        assert(base + lines.len() == base);
    } else {
        assert(lines.push(l)[0] == lines[0]);
        assert(lines.push(l).drop_first() =~= lines.drop_first().push(l));
        lemma_paste_counts_snoc(lines.drop_first(), l, base + 1);
        assert(paste_warnings(lines.push(l), base) =~= paste_warnings(lines, base) + (if trimmed(
            l,
        ).len() > 0 && !line_frames_ok(trimmed(l)) {
            seq![
                (
                    (base + lines.len()) as usize,
                    ParseError::Malformed {
                        offset: scan_fail(frames_of_line(trimmed(l))) as usize,
                    },
                ),
            ]
        } else {
            Seq::empty()
        }));
    }
}


/// Is `c` whitespace that trimming strips?
fn is_space_c(c: char) -> (r: bool)
    ensures
        r == is_space(c),
{
    c == ' ' || c == '\t' || c == '\r'
}

/// Trims whitespace from both ends of a line.
fn trim_line(line: &str) -> (r: String)
    ensures
        r@ == trimmed(line@),
{
    let n = line.unicode_len();
    let mut a: usize = 0;
    while a < n && is_space_c(line.get_char(a))
        invariant
            n == line@.len(),
            0 <= a <= n,
            forall|k: int| 0 <= k < a ==> is_space(#[trigger] line@[k]),
        decreases n - a,
    {
        a = a + 1;
    }
    let mut b: usize = n;
    while b > a && is_space_c(line.get_char(b - 1))
        invariant
            n == line@.len(),
            a <= b <= n,
            forall|k: int| b <= k < n ==> is_space(#[trigger] line@[k]),
        decreases b,
    {
        b = b - 1;
    }
    proof {
        lemma_ltrimmed_at(line@, a as int);
        let t = line@.subrange(a as int, n as int);
        assert forall|k: int| b - a <= k < t.len() implies is_space(#[trigger] t[k]) by {
            assert(t[k] == line@[a + k]);
        }
        if b > a {
            assert(t[b - a - 1] == line@[b - 1]);
        }
        lemma_rtrimmed_at(t, b - a);
        assert(t.subrange(0, b - a) =~= line@.subrange(a as int, b as int));
    }
    String::from_str(line.substring_char(a, b))
}

/// Splits a text at each newline.
fn split_text_lines(text: &str) -> (v: Vec<String>)
    ensures
        v@.len() == split_lines(text@).len(),
        forall|i: int| 0 <= i < v@.len() ==> #[trigger] v@[i]@ == split_lines(text@)[i],
{
    let n = text.unicode_len();
    let mut v: Vec<String> = Vec::new();
    let mut pos: usize = 0;
    proof {
        assert(text@.subrange(0, n as int) =~= text@);
    }
    loop
        invariant
            n == text@.len(),
            0 <= pos <= n,
            v@.len() + split_lines(text@.subrange(pos as int, n as int)).len() == split_lines(
                text@,
            ).len(),
            forall|i: int| 0 <= i < v@.len() ==> #[trigger] v@[i]@ == split_lines(text@)[i],
            forall|j: int|
                0 <= j < split_lines(text@.subrange(pos as int, n as int)).len()
                    ==> #[trigger] split_lines(text@.subrange(pos as int, n as int))[j]
                    == split_lines(text@)[v@.len() + j],
        decreases n - pos,
    {
        let ghost oldpos = pos as int;
        let ghost rem = text@.subrange(oldpos, n as int);
        let mut j: usize = pos;
        while j < n && text.get_char(j) != '\n'
            invariant
                n == text@.len(),
                pos <= j <= n,
                forall|k: int| pos <= k < j ==> #[trigger] text@[k] != '\n',
            decreases n - j,
        {
            j = j + 1;
        }
        proof {
            assert forall|k: int| 0 <= k < j - oldpos implies #[trigger] rem[k] != '\n' by {
                assert(rem[k] == text@[oldpos + k]);
            }
            if j < n {
                assert(rem[j - oldpos] == text@[j as int]);
            }
            lemma_first_nl_at(rem, j - oldpos);
        }
        let line = String::from_str(text.substring_char(pos, j));
        let ghost oldv = v@;
        if j == n {
            proof {
                assert(split_lines(rem) =~= seq![rem]);
                assert(line@ =~= rem);
                assert(split_lines(rem)[0] == split_lines(text@)[oldv.len() as int]);
            }
            v.push(line);
            proof {
                assert forall|i: int|
                    0 <= i < v@.len() implies #[trigger] v@[i]@ == split_lines(text@)[i] by {
                    if i < oldv.len() {
                        assert(v@[i] == oldv[i]);
                    } else {
                        assert(v@[i] == line);
                    }
                }
            }
            return v;
        }
        let ghost newrem = text@.subrange(j + 1, n as int);
        proof {
            assert(split_lines(rem) == seq![rem.subrange(0, j - oldpos)] + split_lines(
                rem.subrange(j - oldpos + 1, rem.len() as int),
            ));
            assert(rem.subrange(j - oldpos + 1, rem.len() as int) =~= newrem);
            assert(line@ =~= rem.subrange(0, j - oldpos));
            assert(split_lines(rem)[0] == split_lines(text@)[oldv.len() as int]);
        }
        v.push(line);
        pos = j + 1;
        proof {
            assert forall|i: int|
                0 <= i < v@.len() implies #[trigger] v@[i]@ == split_lines(text@)[i] by {
                if i < oldv.len() {
                    assert(v@[i] == oldv[i]);
                } else {
                    assert(v@[i] == line);
                    assert(split_lines(rem)[0] == line@);
                }
            }
            assert(text@.subrange(pos as int, n as int) =~= newrem);
            assert forall|jj: int|
                0 <= jj < split_lines(text@.subrange(pos as int, n as int)).len()
                implies #[trigger] split_lines(text@.subrange(pos as int, n as int))[jj]
                == split_lines(text@)[v@.len() + jj] by {
                assert(split_lines(rem)[jj + 1] == split_lines(newrem)[jj]);
                assert(split_lines(rem)[jj + 1] == split_lines(text@)[oldv.len() + (jj + 1)]);
            }
        }
    }
}

/// Finds the rightmost comma of a line.
fn find_last_comma(t: &str) -> (r: Option<usize>)
    ensures
        match r {
            Some(i) => last_comma(t@) == i && i < t@.len(),
            None => last_comma(t@) == -1,
        },
{
    let n = t.unicode_len();
    let mut i: usize = n;
    while i > 0
        invariant
            n == t@.len(),
            0 <= i <= n,
            forall|k: int| i <= k < n ==> #[trigger] t@[k] != ',',
        decreases i,
    {
        if t.get_char(i - 1) == ',' {
            proof {
                lemma_last_comma(t@);
                if last_comma(t@) == -1 {
                    assert(t@[i - 1] != ',');
                } else {
                    if last_comma(t@) > i - 1 {
                        assert(t@[last_comma(t@)] != ',');
                    }
                    if last_comma(t@) < i - 1 {
                        assert(t@[i - 1] != ',');
                    }
                }
            }
            return Some(i - 1);
        }
        i = i - 1;
    }
    proof {
        lemma_last_comma(t@);
        if last_comma(t@) >= 0 {
            assert(t@[last_comma(t@)] != ',');
        }
    }
    None
}

/// Imports one already-trimmed pasted line: splits it at its rightmost
/// comma into a name and a frames half, and, when the frames half
/// satisfies the strict grammar, inserts a climb with the given fresh
/// identifier; otherwise reports where the frames half failed and
/// leaves everything unchanged.
pub fn import_line(kd: &mut KilterData, line: &str, id: String) -> (r: Result<(), ParseError>)
    requires
        old(kd).wf(),
    ensures
        final(kd).wf(),
        final(kd).holes@ == old(kd).holes@,
        final(kd).placements@ == old(kd).placements@,
        final(kd).placement_roles@ == old(kd).placement_roles@,
        r is Ok <==> line_frames_ok(line@),
        r matches Err(e) ==> e == (ParseError::Malformed {
            offset: scan_fail(frames_of_line(line@)) as usize,
        }) && *final(kd) == *old(kd),
        r is Ok ==> exists|c: Climb|
            pasted_fields(c, id@, line@) && #[trigger] upserted_climbs(
                old(kd).climbs@,
                final(kd).climbs@,
                c,
            ),
{
    let n = line.unicode_len();
    let (name, frames) = match find_last_comma(line) {
        Some(i) => {
            let name = String::from_str(line.substring_char(0, i));
            let frames = String::from_str(line.substring_char(i + 1, n));
            (name, frames)
        },
        None => (String::from_str("Pasted Climb"), String::from_str(line)),
    };
    proof {
        assert(name@ == name_of_line(line@));
        assert(frames@ == frames_of_line(line@));
    }
    match parse_placements_and_roles(frames.as_str()) {
        Err(e) => Err(e),
        Ok(_) => {
            let mut c = Climb::default();
            c.uuid = id;
            c.name = name;
            c.frames = frames;
            c.setter_username = crate::session::string_user();
            let ghost cc = c;
            let ghost olds = kd.climbs@;
            kd.put_climb(c);
            proof {
                assert(pasted_fields(cc, id@, line@));
                assert(upserted_climbs(olds, kd.climbs@, cc));
            }
            Ok(())
        },
    }
}

/// Imports a whole paste: every non-blank line is tried on its own, an
/// accepted line becomes a climb under a fresh identifier, a rejected
/// one yields a line-numbered warning, and when anything was accepted
/// the selection moves to the first climb of the batch. Returns how
/// many lines were accepted, and the warnings.
pub fn paste_import(
    kd: &mut KilterData,
    selected: &mut SelectedClimb,
    text: &str,
) -> (r: (usize, Vec<(usize, ParseError)>))
    requires
        old(kd).wf(),
    ensures
        final(kd).wf(),
        final(kd).holes@ == old(kd).holes@,
        final(kd).placements@ == old(kd).placements@,
        final(kd).placement_roles@ == old(kd).placement_roles@,
        exists|ids: Seq<Seq<char>>|
            (forall|k: int| 0 <= k < ids.len() ==> #[trigger] ids[k].len() == 32)
                && #[trigger] paste_rel(
                old(kd).climbs@,
                final(kd).climbs@,
                split_lines(text@),
                ids,
            ),
        r.0 == count_valid(split_lines(text@)),
        r.1@ == paste_warnings(split_lines(text@), 0),
        r.0 == 0 ==> *final(selected) == *old(selected),
        r.0 > 0 ==> final(selected).0 == (if r.0 <= final(kd).climbs@.len() {
            (final(kd).climbs@.len() - r.0) as usize
        } else {
            0usize
        }),
{
    let lines = split_text_lines(text);
    let m = lines.len();
    let mut added: usize = 0;
    let mut warnings: Vec<(usize, ParseError)> = Vec::new();
    let ghost mut ids_acc: Seq<Seq<char>> = Seq::empty();
    let ghost sl = split_lines(text@);
    let mut k: usize = 0;
    proof {
        assert(sl.subrange(0, 0) =~= Seq::<Seq<char>>::empty());
        assert(paste_warnings(sl.subrange(0, 0), 0) =~= Seq::<(usize, ParseError)>::empty());
    }
    while k < m
        invariant
            kd.wf(),
            kd.holes@ == old(kd).holes@,
            kd.placements@ == old(kd).placements@,
            kd.placement_roles@ == old(kd).placement_roles@,
            sl == split_lines(text@),
            m == lines@.len(),
            m == sl.len(),
            forall|i: int| 0 <= i < m ==> #[trigger] lines@[i]@ == sl[i],
            0 <= k <= m,
            added <= k,
            forall|i: int| 0 <= i < ids_acc.len() ==> #[trigger] ids_acc[i].len() == 32,
            paste_rel(old(kd).climbs@, kd.climbs@, sl.subrange(0, k as int), ids_acc),
            warnings@ == paste_warnings(sl.subrange(0, k as int), 0),
            added == count_valid(sl.subrange(0, k as int)),
        decreases m - k,
    {
        let t = trim_line(lines[k].as_str());
        let ghost lk = sl[k as int];
        let ghost pre_climbs = kd.climbs@;
        let ghost pre_ids = ids_acc;
        let tn = t.as_str().unicode_len();
        if tn == 0 {
            proof {
                lemma_paste_rel_snoc_skip(
                    old(kd).climbs@,
                    kd.climbs@,
                    sl.subrange(0, k as int),
                    ids_acc,
                    lk,
                );
                lemma_paste_counts_snoc(sl.subrange(0, k as int), lk, 0);
                assert(sl.subrange(0, k as int).push(lk) =~= sl.subrange(0, k + 1));
                assert(warnings@ =~= paste_warnings(sl.subrange(0, k + 1), 0));
            }
        } else {
            let id = crate::session::fresh_simple_id();
            let ghost idv = id@;
            match import_line(kd, t.as_str(), id) {
                Ok(_) => {
                    proof {
                        let c = choose|c: Climb|
                            pasted_fields(c, idv, t@) && #[trigger] upserted_climbs(
                                pre_climbs,
                                kd.climbs@,
                                c,
                            );
                        lemma_paste_rel_snoc_ok(
                            old(kd).climbs@,
                            pre_climbs,
                            kd.climbs@,
                            sl.subrange(0, k as int),
                            pre_ids,
                            lk,
                            idv,
                            c,
                        );
                        ids_acc = pre_ids.push(idv);
                        lemma_paste_counts_snoc(sl.subrange(0, k as int), lk, 0);
                        assert(sl.subrange(0, k as int).push(lk) =~= sl.subrange(0, k + 1));
                        assert(warnings@ =~= paste_warnings(sl.subrange(0, k + 1), 0));
                    }
                    added = added + 1;
                },
                Err(e) => {
                    warnings.push((k, e));
                    proof {
                        lemma_paste_rel_snoc_skip(
                            old(kd).climbs@,
                            kd.climbs@,
                            sl.subrange(0, k as int),
                            ids_acc,
                            lk,
                        );
                        lemma_paste_counts_snoc(sl.subrange(0, k as int), lk, 0);
                        assert(sl.subrange(0, k as int).push(lk) =~= sl.subrange(0, k + 1));
                        assert(warnings@ =~= paste_warnings(sl.subrange(0, k + 1), 0));
                    }
                },
            }
        }
        k = k + 1;
    }
    proof {
        assert(sl.subrange(0, m as int) =~= sl);
    }
    if added > 0 {
        let len = kd.climbs.len();
        if added <= len {
            selected.0 = len - added;
        } else {
            selected.0 = 0;
        }
    }
    (added, warnings)
}

} // verus!
