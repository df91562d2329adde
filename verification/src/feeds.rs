//! The feed list: one feed per line, with an optional options header and
//! `{a|b|c}` groups that expand into one feed per combination.
//!
//! `s = "var1={1|2|3}&var2={4|5}"` gives
//! `[ f"var1={v1}&var2={v2}" for v1 in [1,2,3] for v2 in [4,5] ]`.
use vstd::prelude::*;
use vstd::string::StrSliceExecFns;
use crate::combine::{cartesian, combinations, count_fits, lens_prod, all_nonempty, seqs_of, lemma_cartesian_len};
use crate::config::{
    apply_words, option_step, options_view, set_option, allowed_key, clone_options, Feed, FeedView, OptionsView, Value,
};
use crate::text::{
    find, find_in, is_first, join, lemma_find_facts, push_str, range_eq, split, split_once,
    to_chars, trim, trim_bounds,
};

verus! {

// ----------------------------------------------------------------------------------
//   - Specification -
// ----------------------------------------------------------------------------------

/// How many bytes UTF-8 takes for `c` (`char::len_utf8`).
pub open spec fn utf8_width(c: char) -> int {
    let u = c as u32;
    if u < 0x80 {
        1
    } else if u < 0x800 {
        2
    } else if u < 0x10000 {
        3
    } else {
        4
    }
}

pub open spec fn is_ascii_char(c: char) -> bool {
    (c as u32) < 0x80
}

/// A line starts with an options header when its first `[` lies within its
/// first three bytes.
pub open spec fn header_opens(line: Seq<char>) -> bool {
    match find(line, '[') {
        Some(c) => c == 0 || (c == 1 && utf8_width(line[0]) <= 2) || (c == 2 && utf8_width(
            line[0],
        ) == 1 && utf8_width(line[1]) == 1),
        None => false,
    }
}

/// The options of a line and the rest of it after the header; `None` where
/// the header cannot be cut at its byte offsets: a `]` first, a first
/// character wider than a byte, or a `]` that is not followed by a one-byte
/// character.
pub open spec fn split_header(line: Seq<char>) -> Option<(OptionsView, Seq<char>)> {
    if header_opens(line) {
        match find(line, ']') {
            Some(j) => if is_ascii_char(line[0]) && j >= 1 && j + 1 < line.len() && is_ascii_char(
                line[j + 1],
            ) {
                Some((apply_words(Seq::empty(), split(line.subrange(1, j), ' ')), line.skip(j + 2)))
            } else {
                None
            },
            None => Some((Seq::empty(), line)),
        }
    } else {
        Some((Seq::empty(), line))
    }
}

/// A line's template: literal pieces, and for each `{..}` group the position
/// of its placeholder among the pieces and its alternatives.
pub type Groups = Seq<(int, Seq<Seq<char>>)>;

/// Cuts the rest of a line into pieces at `{..}` groups. A `{` without a
/// later `}` is dropped and the text after it starts a new piece.
pub open spec fn scan(rest: Seq<char>, pieces: Seq<Seq<char>>, groups: Groups) -> (Seq<Seq<char>>, Groups)
    decreases rest.len(),
{
    match find(rest, '{') {
        None => (pieces.push(rest), groups),
        Some(p) => if 0 <= p < rest.len() {
            let pieces1 = pieces.push(rest.take(p));
            let after = rest.skip(p);
            match find(after, '}') {
                Some(j) => if 0 < j < after.len() {
                    let pieces2 = pieces1.push(Seq::empty());
                    let groups2 = groups.push(
                        (pieces1.len() as int, split(after.subrange(1, j), '|')),
                    );
                    let rest2 = after.skip(j + 1);
                    if rest2.len() == 0 {
                        (pieces2, groups2)
                    } else {
                        scan(rest2, pieces2, groups2)
                    }
                } else {
                    (pieces1, groups)
                },
                None => {
                    let rest2 = rest.skip(p + 1);
                    if rest2.len() == 0 {
                        (pieces1, groups)
                    } else {
                        scan(rest2, pieces1, groups)
                    }
                },
            }
        } else {
            (pieces, groups)
        },
    }
}

/// The alternatives of each group.
pub open spec fn group_alternatives(groups: Groups) -> Seq<Seq<Seq<char>>> {
    groups.map_values(|g: (int, Seq<Seq<char>>)| g.1)
}

/// The pieces with the placeholder of group `k` replaced by `pick[k]`, for
/// each group in order.
pub open spec fn fill(pieces: Seq<Seq<char>>, groups: Groups, pick: Seq<Seq<char>>) -> Seq<Seq<char>>
    decreases groups.len(),
{
    if groups.len() == 0 || pick.len() == 0 {
        pieces
    } else {
        fill(pieces, groups.drop_last(), pick.drop_last()).update(groups.last().0, pick.last())
    }
}

pub open spec fn starts_comment(line: Seq<char>) -> bool {
    trim(line).len() > 0 && trim(line)[0] == '#'
}

/// The feeds that one line gives; `None` where reading it fails (a line that
/// is neither a comment nor gives a single URL nor holds a group, a header
/// that cannot be cut, or more combinations than fit in a `usize`).
pub open spec fn line_feeds(line: Seq<char>) -> Option<Seq<FeedView>> {
    if starts_comment(line) {
        Some(Seq::empty())
    } else if line.len() == 0 {
        None
    } else {
        match split_header(line) {
            None => None,
            Some((opts, body)) => {
                let (pieces, groups) = scan(body, Seq::empty(), Seq::empty());
                if groups.len() == 0 {
                    if pieces.len() == 1 {
                        Some(seq![FeedView { url: pieces[0], options: opts }])
                    } else {
                        None
                    }
                } else {
                    let alts = group_alternatives(groups);
                    if lens_prod(alts) > usize::MAX {
                        None
                    } else {
                        let picks = cartesian(alts);
                        Some(
                            Seq::new(
                                picks.len(),
                                |n: int| FeedView { url: join(fill(pieces, groups, picks[n])), options: opts },
                            ),
                        )
                    }
                }
            },
        }
    }
}

/// The feeds of the lines, in order.
pub open spec fn lines_feeds(lines: Seq<Seq<char>>) -> Option<Seq<FeedView>>
    decreases lines.len(),
{
    if lines.len() == 0 {
        Some(Seq::empty())
    } else {
        match (line_feeds(lines[0]), lines_feeds(lines.drop_first())) {
            (Some(a), Some(b)) => Some(a + b),
            _ => None,
        }
    }
}

/// The feeds that a feed list gives, one line after another.
pub open spec fn feeds_of(text: Seq<char>) -> Option<Seq<FeedView>> {
    lines_feeds(split(text, '\n'))
}

/// `i` is the placeholder position of some group.
pub open spec fn is_position(groups: Groups, i: int) -> bool {
    exists|k: int| 0 <= k < groups.len() && #[trigger] groups[k].0 == i
}

pub open spec fn positions_in(groups: Groups, n: int) -> bool {
    forall|k: int| 0 <= k < groups.len() ==> 0 <= #[trigger] groups[k].0 < n
}

proof fn lemma_fill_len(t: Seq<Seq<char>>, g: Groups, r: Seq<Seq<char>>)
    requires
        positions_in(g, t.len() as int),
    ensures
        fill(t, g, r).len() == t.len(),
    decreases g.len(),
{
    if g.len() > 0 && r.len() > 0 {
        assert(positions_in(g.drop_last(), t.len() as int)) by {
            assert forall|k: int| 0 <= k < g.drop_last().len() implies 0 <= #[trigger] g.drop_last()[k].0 < t.len() by {
                assert(g.drop_last()[k] == g[k]);
            }
        }
        assert(g[g.len() - 1] == g.last());
        lemma_fill_len(t, g.drop_last(), r.drop_last());
    }
}

/// Filling leaves the pieces that are no placeholder alone.
proof fn lemma_fill_outside(t: Seq<Seq<char>>, g: Groups, r: Seq<Seq<char>>, i: int)
    requires
        positions_in(g, t.len() as int),
        !is_position(g, i),
        0 <= i < t.len(),
    ensures
        fill(t, g, r)[i] == t[i],
    decreases g.len(),
{
    if g.len() > 0 && r.len() > 0 {
        let h = g.drop_last();
        assert(positions_in(h, t.len() as int)) by {
            assert forall|k: int| 0 <= k < h.len() implies 0 <= #[trigger] h[k].0 < t.len() by {
                assert(h[k] == g[k]);
            }
        }
        assert(!is_position(h, i)) by {
            if is_position(h, i) {
                let k = choose|k: int| 0 <= k < h.len() && #[trigger] h[k].0 == i;
                assert(g[k] == h[k]);
            }
        }
        assert(g[g.len() - 1] == g.last());
        lemma_fill_outside(t, h, r.drop_last(), i);
        lemma_fill_len(t, h, r.drop_last());
    }
}

/// At a placeholder, what filling leaves depends only on the picks.
proof fn lemma_fill_at_position(t1: Seq<Seq<char>>, t2: Seq<Seq<char>>, g: Groups, r: Seq<Seq<char>>, i: int)
    requires
        t1.len() == t2.len(),
        positions_in(g, t1.len() as int),
        r.len() == g.len(),
        is_position(g, i),
    ensures
        fill(t1, g, r)[i] == fill(t2, g, r)[i],
    decreases g.len(),
{
    let h = g.drop_last();
    assert(positions_in(h, t1.len() as int)) by {
        assert forall|k: int| 0 <= k < h.len() implies 0 <= #[trigger] h[k].0 < t1.len() by {
            assert(h[k] == g[k]);
        }
    }
    assert(g[g.len() - 1] == g.last());
    lemma_fill_len(t1, h, r.drop_last());
    lemma_fill_len(t2, h, r.drop_last());
    if g.last().0 != i {
        let k = choose|k: int| 0 <= k < g.len() && #[trigger] g[k].0 == i;
        assert(k < g.len() - 1);
        assert(h[k] == g[k]);
        assert(is_position(h, i));
        lemma_fill_at_position(t1, t2, h, r.drop_last(), i);
    }
}

/// Filling again with other picks gives what filling the unfilled pieces gives.
proof fn lemma_fill_again(t: Seq<Seq<char>>, g: Groups, a: Seq<Seq<char>>, b: Seq<Seq<char>>)
    requires
        positions_in(g, t.len() as int),
        a.len() == g.len(),
        b.len() == g.len(),
    ensures
        fill(fill(t, g, a), g, b) == fill(t, g, b),
{
    let u = fill(t, g, a);
    lemma_fill_len(t, g, a);
    lemma_fill_len(u, g, b);
    lemma_fill_len(t, g, b);
    assert forall|i: int| 0 <= i < t.len() implies fill(u, g, b)[i] == fill(t, g, b)[i] by {
        if is_position(g, i) {
            lemma_fill_at_position(u, t, g, b, i);
        } else {
            lemma_fill_outside(u, g, b, i);
            lemma_fill_outside(t, g, a, i);
            lemma_fill_outside(t, g, b, i);
        }
    }
    assert(fill(u, g, b) =~= fill(t, g, b));
}

// ----------------------------------------------------------------------------------
//   - Laws -
// ----------------------------------------------------------------------------------

/// The feeds of two lists, one after the other, when both can be read.
pub open spec fn concat_feeds(x: Option<Seq<FeedView>>, y: Option<Seq<FeedView>>) -> Option<Seq<FeedView>> {
    match (x, y) {
        (Some(p), Some(q)) => Some(p + q),
        _ => None,
    }
}

proof fn lemma_split_concat(a: Seq<char>, b: Seq<char>, c: char)
    ensures
        split(a + seq![c] + b, c) == split(a, c) + split(b, c),
    decreases a.len(),
{
    let x = a + seq![c] + b;
    lemma_find_facts(a, c);
    match find(a, c) {
        None => {
            assert(is_first(x, c, a.len() as int)) by {
                assert forall|j: int| 0 <= j < a.len() implies x[j] != c by {
                    assert(x[j] == a[j]);
                }
            }
            crate::text::lemma_find_some(x, c, a.len() as int);
            assert(x.take(a.len() as int) =~= a);
            assert(x.skip(a.len() as int + 1) =~= b);
            assert(split(a, c) == seq![a]);
        },
        Some(i) => {
            assert(is_first(x, c, i)) by {
                assert forall|j: int| 0 <= j < i implies x[j] != c by {
                    assert(x[j] == a[j]);
                }
                assert(x[i] == a[i]);
            }
            crate::text::lemma_find_some(x, c, i);
            assert(x.take(i) =~= a.take(i));
            assert(x.skip(i + 1) =~= a.skip(i + 1) + seq![c] + b);
            lemma_split_concat(a.skip(i + 1), b, c);
            assert(split(x, c) =~= seq![a.take(i)] + (split(a.skip(i + 1), c) + split(b, c)));
            assert(split(a, c) == seq![a.take(i)] + split(a.skip(i + 1), c));
        },
    }
}

proof fn lemma_lines_concat(x: Seq<Seq<char>>, y: Seq<Seq<char>>)
    ensures
        lines_feeds(x + y) == concat_feeds(lines_feeds(x), lines_feeds(y)),
    decreases x.len(),
{
    if x.len() == 0 {
        assert(x + y =~= y);
        match lines_feeds(y) {
            Some(q) => {
                assert(Seq::<FeedView>::empty() + q =~= q);
            },
            None => {},
        }
    } else {
        lemma_lines_concat(x.drop_first(), y);
        assert((x + y)[0] == x[0]);
        assert((x + y).drop_first() =~= x.drop_first() + y);
        match (line_feeds(x[0]), lines_feeds(x.drop_first()), lines_feeds(y)) {
            (Some(a), Some(p), Some(q)) => {
                assert(a + (p + q) =~= (a + p) + q);
            },
            _ => {},
        }
    }
}

/// Each line is read on its own: the feeds of two lists joined by a line
/// break are those of the first followed by those of the second, and the
/// joined list can be read exactly when both can.
pub proof fn lemma_feeds_of_join(a: Seq<char>, b: Seq<char>)
    ensures
        feeds_of(a + seq!['\n'] + b) == concat_feeds(feeds_of(a), feeds_of(b)),
{
    lemma_split_concat(a, b, '\n');
    lemma_lines_concat(split(a, '\n'), split(b, '\n'));
}

/// A comment line gives no feed.
pub proof fn lemma_comment_line(line: Seq<char>)
    requires
        starts_comment(line),
    ensures
        line_feeds(line) == Some(Seq::<FeedView>::empty()),
{
}

/// A line with neither `[`, `{` nor a leading `#` gives one feed: the line
/// itself, with no options.
pub proof fn lemma_plain_line(line: Seq<char>)
    requires
        line.len() > 0,
        forall|i: int| 0 <= i < line.len() ==> line[i] != '[' && line[i] != '{',
        !starts_comment(line),
    ensures
        line_feeds(line) == Some(seq![FeedView { url: line, options: Seq::empty() }]),
{
    crate::text::lemma_find_none(line, '[');
    crate::text::lemma_find_none(line, '{');
}

/// A line made of literal text `p`, one group `{g}` and literal text `s`
/// gives one feed per alternative `a` of the group, in order, each with the
/// URL `p + a + s`: every character outside the group is kept, in its place,
/// the text after the group included.
pub proof fn lemma_one_group_line(p: Seq<char>, g: Seq<char>, s: Seq<char>)
    requires
        forall|i: int| 0 <= i < p.len() ==> p[i] != '{' && p[i] != '[' && p[i] != '\n',
        forall|i: int| 0 <= i < g.len() ==> g[i] != '{' && g[i] != '}' && g[i] != '[' && g[i] != '\n',
        forall|i: int| 0 <= i < s.len() ==> s[i] != '{' && s[i] != '[' && s[i] != '\n',
        !starts_comment(p + seq!['{'] + g + seq!['}'] + s),
        split(g, '|').len() <= usize::MAX,
    ensures
        ({
            let alts = split(g, '|');
            feeds_of(p + seq!['{'] + g + seq!['}'] + s) == Some(
                Seq::new(alts.len(), |n: int| FeedView { url: p + alts[n] + s, options: Seq::empty() }),
            )
        }),
{
    let line = p + seq!['{'] + g + seq!['}'] + s;
    let q = p.len() as int;
    let alts = split(g, '|');
    // no header
    assert forall|j: int| 0 <= j < line.len() implies line[j] != '[' && line[j] != '\n' by {
        if j < q {
            assert(line[j] == p[j]);
        } else if j == q {
        } else if j < q + 1 + g.len() {
            assert(line[j] == g[j - q - 1]);
        } else if j == q + 1 + g.len() {
        } else {
            assert(line[j] == s[j - q - 2 - g.len()]);
        }
    }
    crate::text::lemma_find_none(line, '[');
    assert(split_header(line) == Some((Seq::<(Seq<char>, crate::config::ValueView)>::empty(), line)));
    // the group
    assert(crate::text::is_first(line, '{', q)) by {
        assert forall|j: int| 0 <= j < q implies line[j] != '{' by {
            assert(line[j] == p[j]);
        }
    }
    crate::text::lemma_find_some(line, '{', q);
    assert(line.take(q) =~= p);
    let after = line.skip(q);
    let jj: int = g.len() as int + 1;
    assert(after =~= seq!['{'] + g + seq!['}'] + s);
    assert(crate::text::is_first(after, '}', jj)) by {
        assert forall|j: int| 0 <= j < jj implies after[j] != '}' by {
            if j > 0 {
                assert(after[j] == g[j - 1]);
            }
        }
    }
    crate::text::lemma_find_some(after, '}', jj);
    assert(after.subrange(1, jj) =~= g);
    assert(after.skip(jj + 1) =~= s);
    let pieces2 = seq![p, Seq::<char>::empty()];
    let groups2 = seq![(1int, alts)];
    let (pieces, groups) = scan(line, Seq::empty(), Seq::empty());
    assert(Seq::<Seq<char>>::empty().push(p) =~= seq![p]);
    assert(seq![p].push(Seq::<char>::empty()) =~= pieces2);
    assert(Seq::<(int, Seq<Seq<char>>)>::empty().push((1int, alts)) =~= groups2);
    if s.len() == 0 {
        assert(pieces == pieces2 && groups == groups2);
    } else {
        crate::text::lemma_find_none(s, '{');
        assert(scan(s, pieces2, groups2) == (pieces2.push(s), groups2));
        assert(scan(line, Seq::empty(), Seq::empty()) == scan(s, pieces2, groups2));
        assert(pieces == pieces2.push(s) && groups == groups2);
    }
    // one feed per alternative
    let ga = group_alternatives(groups);
    assert(ga =~= seq![alts]);
    assert(ga.drop_first() =~= Seq::<Seq<Seq<char>>>::empty());
    assert(lens_prod(ga) == alts.len() * lens_prod(ga.drop_first()));
    assert(lens_prod(ga) == alts.len());
    let picks = cartesian(ga);
    assert(cartesian(ga.drop_first()) =~= seq![Seq::<Seq<char>>::empty()]);
    assert(picks.len() == alts.len());
    let want = Seq::new(alts.len(), |n: int| FeedView { url: p + alts[n] + s, options: Seq::empty() });
    let got = Seq::new(picks.len(), |n: int| FeedView { url: join(fill(pieces, groups, picks[n])), options: Seq::<(Seq<char>, crate::config::ValueView)>::empty() });
    assert forall|n: int| 0 <= n < alts.len() implies got[n] == want[n] by {
        let rest = cartesian(ga.drop_first());
        assert(rest.len() == 1 && rest[0] == Seq::<Seq<char>>::empty());
        assert(n / 1 == n && n % 1 == 0);
        assert(ga[0] == alts);
        assert(picks[n] == seq![ga[0][n / 1]] + rest[n % 1]);
        assert(picks[n] =~= seq![alts[n]]);
        let f = fill(pieces, groups, picks[n]);
        assert(groups.drop_last() =~= Seq::<(int, Seq<Seq<char>>)>::empty());
        assert(f == fill(pieces, groups.drop_last(), picks[n].drop_last()).update(1, alts[n]));
        assert(f == pieces.update(1, alts[n]));
        if s.len() == 0 {
            let t = seq![p, alts[n]];
            assert(f =~= t);
            assert(t.drop_last() =~= seq![p]);
            assert(seq![p].drop_last() =~= Seq::<Seq<char>>::empty());
            assert(join(Seq::<Seq<char>>::empty()) == Seq::<char>::empty());
            assert(seq![p].last() == p);
            assert(join(seq![p]) == join(Seq::<Seq<char>>::empty()) + p);
            assert(join(seq![p]) =~= p);
            assert(join(t) == join(seq![p]) + alts[n]);
            assert(join(t) =~= p + alts[n]);
            assert(p + alts[n] + s =~= p + alts[n]);
        } else {
            let t = seq![p, alts[n], s];
            assert(f =~= t);
            assert(t.drop_last() =~= seq![p, alts[n]]);
            assert(seq![p, alts[n]].drop_last() =~= seq![p]);
            assert(seq![p].drop_last() =~= Seq::<Seq<char>>::empty());
            assert(join(Seq::<Seq<char>>::empty()) == Seq::<char>::empty());
            assert(seq![p].last() == p);
            assert(join(seq![p]) == join(Seq::<Seq<char>>::empty()) + p);
            assert(join(seq![p]) =~= p);
            assert(join(seq![p, alts[n]]) =~= p + alts[n]);
            assert(join(t) =~= p + alts[n] + s);
        }
    }
    assert(line_feeds(line) == Some(got));
    assert(got =~= want);
    // one line
    crate::text::lemma_find_none(line, '\n');
    assert(split(line, '\n') == seq![line]);
    assert(seq![line].drop_first() =~= Seq::<Seq<char>>::empty());
    assert(want + Seq::<FeedView>::empty() =~= want);
    assert(lines_feeds(Seq::<Seq<char>>::empty()) == Some(Seq::<FeedView>::empty()));
    assert(seq![line][0] == line);
    assert(lines_feeds(seq![line]) == Some(want + Seq::<FeedView>::empty()));
    assert(feeds_of(line) == lines_feeds(seq![line]));
}

/// The parts of the line `lits[0]{gs[0]}lits[1]{gs[1]}..lits[m]`: the
/// literal texts, and between them each group text in braces.
pub open spec fn braced_parts(lits: Seq<Seq<char>>, gs: Seq<Seq<char>>) -> Seq<Seq<char>> {
    Seq::new(
        2 * gs.len() + 1,
        |i: int| if i % 2 == 0 { lits[i / 2] } else { seq!['{'] + gs[i / 2] + seq!['}'] },
    )
}

/// The same parts with the alternative `r[k]` in place of group `k`.
pub open spec fn picked_parts(lits: Seq<Seq<char>>, r: Seq<Seq<char>>) -> Seq<Seq<char>> {
    Seq::new(2 * r.len() + 1, |i: int| if i % 2 == 0 { lits[i / 2] } else { r[i / 2] })
}

/// The pieces that reading a line of groups has cut before group `k`.
spec fn lit_pieces(lits: Seq<Seq<char>>, k: int) -> Seq<Seq<char>> {
    Seq::new((2 * k) as nat, |i: int| if i % 2 == 0 { lits[i / 2] } else { Seq::empty() })
}

/// The groups that reading a line of groups has found before group `k`.
spec fn brace_groups(gs: Seq<Seq<char>>, k: int) -> Groups {
    Seq::new(k as nat, |j: int| (2 * j + 1, split(gs[j], '|')))
}

proof fn lemma_join_append(a: Seq<Seq<char>>, b: Seq<Seq<char>>)
    ensures
        join(a + b) == join(a) + join(b),
    decreases b.len(),
{
    if b.len() == 0 {
        assert(a + b =~= a);
        assert(join(a) + join(b) =~= join(a));
    } else {
        lemma_join_append(a, b.drop_last());
        assert((a + b).drop_last() =~= a + b.drop_last());
        assert((a + b).last() == b.last());
        assert(join(a) + join(b) =~= join(a) + join(b.drop_last()) + b.last());
    }
}

proof fn lemma_join_one(x: Seq<char>)
    ensures
        join(seq![x]) == x,
{
    assert(seq![x].drop_last() =~= Seq::<Seq<char>>::empty());
    assert(join(Seq::<Seq<char>>::empty()) == Seq::<char>::empty());
    assert(seq![x].last() == x);
    assert(join(seq![x]) == join(Seq::<Seq<char>>::empty()) + x);
    assert(join(seq![x]) =~= x);
}

/// A character that no part holds is not in their concatenation.
proof fn lemma_join_free(parts: Seq<Seq<char>>, c: char)
    requires
        forall|i: int, j: int| 0 <= i < parts.len() && 0 <= j < parts[i].len() ==> #[trigger] parts[i][j] != c,
    ensures
        forall|j: int| 0 <= j < join(parts).len() ==> #[trigger] join(parts)[j] != c,
    decreases parts.len(),
{
    if parts.len() > 0 {
        let d = parts.drop_last();
        assert forall|i: int, j: int| 0 <= i < d.len() && 0 <= j < d[i].len() implies #[trigger] d[i][j] != c by {
            assert(d[i] == parts[i]);
        }
        lemma_join_free(d, c);
        let l = parts.last();
        assert forall|j: int| 0 <= j < join(parts).len() implies #[trigger] join(parts)[j] != c by {
            if j >= join(d).len() {
                assert(join(parts)[j] == l[j - join(d).len()]);
                assert(parts[parts.len() - 1] == l);
            } else {
                assert(join(parts)[j] == join(d)[j]);
            }
        }
    }
}

/// The text of a line of groups from group `k` on: the literal text before
/// it, the group in braces, and the rest; the last literal text alone at the end.
proof fn lemma_braced_suffix(lits: Seq<Seq<char>>, gs: Seq<Seq<char>>, k: int)
    requires
        lits.len() == gs.len() + 1,
        0 <= k <= gs.len(),
    ensures
        k < gs.len() ==> join(braced_parts(lits, gs).skip(2 * k)) == lits[k] + seq!['{'] + gs[k] + seq!['}'] + join(
            braced_parts(lits, gs).skip(2 * k + 2),
        ),
        k == gs.len() ==> join(braced_parts(lits, gs).skip(2 * k)) == lits[k],
{
    let b = braced_parts(lits, gs);
    if k < gs.len() {
        let head = seq![lits[k], seq!['{'] + gs[k] + seq!['}']];
        assert((2 * k) % 2 == 0 && (2 * k) / 2 == k);
        assert((2 * k + 1) % 2 == 1 && (2 * k + 1) / 2 == k);
        assert(b.skip(2 * k) =~= head + b.skip(2 * k + 2));
        lemma_join_append(head, b.skip(2 * k + 2));
        lemma_join_one(lits[k]);
        assert(head.drop_last() =~= seq![lits[k]]);
        assert(join(head) =~= lits[k] + (seq!['{'] + gs[k] + seq!['}']));
        assert(lits[k] + (seq!['{'] + gs[k] + seq!['}']) =~= lits[k] + seq!['{'] + gs[k] + seq!['}']);
    } else {
        assert((2 * k) % 2 == 0 && (2 * k) / 2 == k);
        assert(b.skip(2 * k) =~= seq![lits[k]]);
        lemma_join_one(lits[k]);
    }
}

/// Reading a line of groups from group `k` on, with the pieces and groups
/// found before it, ends with a piece for each literal text (the last one
/// left out when empty), an empty piece for each group, and the groups.
proof fn lemma_scan_braced(lits: Seq<Seq<char>>, gs: Seq<Seq<char>>, k: int)
    requires
        lits.len() == gs.len() + 1,
        0 <= k <= gs.len(),
        forall|a: int, i: int| 0 <= a < lits.len() && 0 <= i < lits[a].len() ==> #[trigger] lits[a][i] != '{',
        forall|a: int, i: int| 0 <= a < gs.len() && 0 <= i < gs[a].len() ==> #[trigger] gs[a][i] != '{' && gs[a][i] != '}',
        join(braced_parts(lits, gs).skip(2 * k)).len() > 0,
    ensures
        scan(join(braced_parts(lits, gs).skip(2 * k)), lit_pieces(lits, k), brace_groups(gs, k)) == (
            if lits[gs.len() as int].len() > 0 {
                lit_pieces(lits, gs.len() as int).push(lits[gs.len() as int])
            } else {
                lit_pieces(lits, gs.len() as int)
            },
            brace_groups(gs, gs.len() as int),
        ),
    decreases gs.len() - k,
{
    let m = gs.len() as int;
    let b = braced_parts(lits, gs);
    let rest = join(b.skip(2 * k));
    let pk = lit_pieces(lits, k);
    let gk = brace_groups(gs, k);
    lemma_braced_suffix(lits, gs, k);
    if k == m {
        assert forall|i: int| 0 <= i < rest.len() implies rest[i] != '{' by {
            assert(rest[i] == lits[m][i]);
        }
        crate::text::lemma_find_none(rest, '{');
    } else {
        let lk = lits[k];
        let g = gs[k];
        let rest2 = join(b.skip(2 * k + 2));
        let q = lk.len() as int;
        assert(crate::text::is_first(rest, '{', q)) by {
            assert forall|j: int| 0 <= j < q implies rest[j] != '{' by {
                assert(rest[j] == lk[j]);
            }
        }
        crate::text::lemma_find_some(rest, '{', q);
        assert(rest.take(q) =~= lk);
        let after = rest.skip(q);
        assert(after =~= seq!['{'] + g + seq!['}'] + rest2);
        let jj: int = g.len() as int + 1;
        assert(crate::text::is_first(after, '}', jj)) by {
            assert forall|j: int| 0 <= j < jj implies after[j] != '}' by {
                if j > 0 {
                    assert(after[j] == g[j - 1]);
                }
            }
        }
        crate::text::lemma_find_some(after, '}', jj);
        assert(after.subrange(1, jj) =~= g);
        assert(after.skip(jj + 1) =~= rest2);
        let pieces1 = pk.push(lk);
        let pieces2 = pieces1.push(Seq::<char>::empty());
        let groups2 = gk.push((pieces1.len() as int, split(g, '|')));
        assert(pieces2 =~= lit_pieces(lits, k + 1)) by {
            assert forall|i: int| 0 <= i < 2 * k + 2 implies #[trigger] pieces2[i] == lit_pieces(lits, k + 1)[i] by {
                if i < 2 * k {
                } else if i == 2 * k {
                    assert(i % 2 == 0 && i / 2 == k);
                } else {
                    assert(i % 2 == 1);
                }
            }
        }
        assert(groups2 =~= brace_groups(gs, k + 1));
        assert(scan(rest, pk, gk) == (if rest2.len() == 0 {
            (pieces2, groups2)
        } else {
            scan(rest2, pieces2, groups2)
        }));
        if rest2.len() == 0 {
            if k + 1 < m {
                lemma_braced_suffix(lits, gs, k + 1);
            } else {
                lemma_braced_suffix(lits, gs, k + 1);
            }
        } else {
            lemma_scan_braced(lits, gs, k + 1);
        }
    }
}

/// Filling the odd places with picks.
proof fn lemma_fill_odd(t: Seq<Seq<char>>, g: Groups, r: Seq<Seq<char>>)
    requires
        g.len() == r.len(),
        2 * g.len() <= t.len(),
        forall|k: int| 0 <= k < g.len() ==> (#[trigger] g[k]).0 == 2 * k + 1,
    ensures
        fill(t, g, r) == Seq::new(t.len(), |i: int| if i % 2 == 1 && i / 2 < r.len() { r[i / 2] } else { t[i] }),
    decreases g.len(),
{
    let want = Seq::new(t.len(), |i: int| if i % 2 == 1 && i / 2 < r.len() { r[i / 2] } else { t[i] });
    if g.len() == 0 {
        assert(fill(t, g, r) =~= want);
    } else {
        let h = g.drop_last();
        let rr = r.drop_last();
        assert forall|k: int| 0 <= k < h.len() implies (#[trigger] h[k]).0 == 2 * k + 1 by {
            assert(h[k] == g[k]);
        }
        lemma_fill_odd(t, h, rr);
        let m = g.len() - 1;
        assert(g.last() == g[m]);
        let f = fill(t, h, rr).update(2 * m + 1, r[m]);
        assert(fill(t, g, r) == f);
        assert forall|i: int| 0 <= i < t.len() implies #[trigger] f[i] == want[i] by {
            if i == 2 * m + 1 {
                assert(i % 2 == 1 && i / 2 == m);
            } else if i % 2 == 1 && i / 2 < rr.len() {
                assert(rr[i / 2] == r[i / 2]);
            } else if i % 2 == 1 && i / 2 == m {
                assert(i == 2 * m + 1);
            }
        }
        assert(f =~= want);
    }
}

/// Filling the pieces of a line of groups with one alternative per group
/// gives the line with each group replaced by its alternative.
proof fn lemma_group_url(lits: Seq<Seq<char>>, gs: Seq<Seq<char>>, r: Seq<Seq<char>>)
    requires
        lits.len() == gs.len() + 1,
        r.len() == gs.len(),
    ensures
        ({
            let m = gs.len() as int;
            let pieces = if lits[m].len() > 0 {
                lit_pieces(lits, m).push(lits[m])
            } else {
                lit_pieces(lits, m)
            };
            join(fill(pieces, brace_groups(gs, m), r)) == join(picked_parts(lits, r))
        }),
{
    let m = gs.len() as int;
    let pieces = if lits[m].len() > 0 {
        lit_pieces(lits, m).push(lits[m])
    } else {
        lit_pieces(lits, m)
    };
    let groups = brace_groups(gs, m);
    assert forall|k: int| 0 <= k < groups.len() implies (#[trigger] groups[k]).0 == 2 * k + 1 by {}
    lemma_fill_odd(pieces, groups, r);
    let f = fill(pieces, groups, r);
    let pp = picked_parts(lits, r);
    if lits[m].len() > 0 {
        assert forall|i: int| 0 <= i < pp.len() implies #[trigger] f[i] == pp[i] by {
            if i < 2 * m && i % 2 == 0 {
                assert(pieces[i] == lits[i / 2]);
            } else if i == 2 * m {
                assert(i % 2 == 0 && i / 2 == m);
            }
        }
        assert(f =~= pp);
    } else {
        assert forall|i: int| 0 <= i < 2 * m implies #[trigger] f[i] == pp[i] by {
            if i % 2 == 0 {
                assert(pieces[i] == lits[i / 2]);
            }
        }
        assert(f =~= pp.drop_last());
        assert(2 * m % 2 == 0 && (2 * m) / 2 == m);
        assert(pp.last() == lits[m]);
        assert(lits[m] =~= Seq::<char>::empty());
        assert(join(pp) == join(pp.drop_last()) + pp.last());
        assert(join(pp) =~= join(f));
    }
}

/// A line of literal texts and groups, `lits[0]{gs[0]}lits[1]..{gs[m-1]}lits[m]`,
/// gives one feed per combination of the groups' alternatives, in
/// lexicographic order, each URL the line with every group in braces
/// replaced by its alternative in the combination: all the literal text,
/// before, between and after the groups, is kept, in order.
pub proof fn lemma_group_line(lits: Seq<Seq<char>>, gs: Seq<Seq<char>>)
    requires
        gs.len() > 0,
        lits.len() == gs.len() + 1,
        forall|a: int, i: int|
            0 <= a < lits.len() && 0 <= i < lits[a].len() ==> #[trigger] lits[a][i] != '{' && lits[a][i] != '['
                && lits[a][i] != '\n',
        forall|a: int, i: int|
            0 <= a < gs.len() && 0 <= i < gs[a].len() ==> #[trigger] gs[a][i] != '{' && gs[a][i] != '}' && gs[a][i]
                != '[' && gs[a][i] != '\n',
        !starts_comment(join(braced_parts(lits, gs))),
        lens_prod(gs.map_values(|g: Seq<char>| split(g, '|'))) <= usize::MAX,
    ensures
        ({
            let picks = cartesian(gs.map_values(|g: Seq<char>| split(g, '|')));
            feeds_of(join(braced_parts(lits, gs))) == Some(
                Seq::new(
                    picks.len(),
                    |n: int| FeedView { url: join(picked_parts(lits, picks[n])), options: Seq::empty() },
                ),
            )
        }),
{
    let m = gs.len() as int;
    let b = braced_parts(lits, gs);
    let line = join(b);
    let alts = gs.map_values(|g: Seq<char>| split(g, '|'));
    let picks = cartesian(alts);
    assert(b.skip(0) =~= b);
    // neither '[' nor a line break
    assert forall|i: int, j: int| 0 <= i < b.len() && 0 <= j < b[i].len() implies #[trigger] b[i][j] != '['
        && b[i][j] != '\n' by {
        if i % 2 == 0 {
            assert(b[i] == lits[i / 2]);
            assert(lits[i / 2][j] != '[');
        } else {
            let g = gs[i / 2];
            assert(b[i] == seq!['{'] + g + seq!['}']);
            if 0 < j < b[i].len() - 1 {
                assert(b[i][j] == g[j - 1]);
            }
        }
    }
    lemma_join_free(b, '[');
    lemma_join_free(b, '\n');
    crate::text::lemma_find_none(line, '[');
    lemma_braced_suffix(lits, gs, 0);
    assert(line.len() > 0);
    assert(split_header(line) == Some((Seq::<(Seq<char>, crate::config::ValueView)>::empty(), line)));
    // the pieces and groups
    assert forall|a: int, i: int| 0 <= a < lits.len() && 0 <= i < lits[a].len() implies #[trigger] lits[a][i]
        != '{' by {}
    lemma_scan_braced(lits, gs, 0);
    assert(lit_pieces(lits, 0) =~= Seq::<Seq<char>>::empty());
    assert(brace_groups(gs, 0) =~= Seq::<(int, Seq<Seq<char>>)>::empty());
    let (pieces, groups) = scan(line, Seq::empty(), Seq::empty());
    assert(groups == brace_groups(gs, m));
    let ga = group_alternatives(groups);
    assert(ga =~= alts);
    // one feed per combination
    assert(all_nonempty(alts)) by {
        assert forall|k: int| 0 <= k < alts.len() implies #[trigger] alts[k].len() > 0 by {
            lemma_split_step(gs[k], '|');
        }
    }
    lemma_cartesian_len(alts);
    let want = Seq::new(picks.len(), |n: int| FeedView { url: join(picked_parts(lits, picks[n])), options: Seq::empty() });
    let got = Seq::new(
        picks.len(),
        |n: int| FeedView { url: join(fill(pieces, groups, picks[n])), options: Seq::<(Seq<char>, crate::config::ValueView)>::empty() },
    );
    assert forall|n: int| 0 <= n < picks.len() implies #[trigger] got[n] == want[n] by {
        crate::combine::lemma_cartesian_index(alts, n);
        lemma_group_url(lits, gs, picks[n]);
    }
    assert(got =~= want);
    assert(line_feeds(line) == Some(got));
    // one line
    crate::text::lemma_find_none(line, '\n');
    assert(split(line, '\n') == seq![line]);
    assert(seq![line].drop_first() =~= Seq::<Seq<char>>::empty());
    assert(want + Seq::<FeedView>::empty() =~= want);
    assert(lines_feeds(Seq::<Seq<char>>::empty()) == Some(Seq::<FeedView>::empty()));
    assert(seq![line][0] == line);
    assert(lines_feeds(seq![line]) == Some(want + Seq::<FeedView>::empty()));
}

proof fn lemma_trim_end_head(s: Seq<char>)
    requires
        s.len() > 0,
        !crate::text::is_ws(s[0]),
    ensures
        crate::text::trim_end(s).len() > 0,
        crate::text::trim_end(s)[0] == s[0],
    decreases s.len(),
{
    if crate::text::is_ws(s.last()) {
        assert(s.len() > 1);
        assert(s.drop_last()[0] == s[0]);
        lemma_trim_end_head(s.drop_last());
    }
}

/// An options header `[h]` followed by one more byte (the space after it)
/// sets the options that its words name on every feed of the rest of the
/// line, and changes nothing else: the rest gives the same URLs, in the same
/// order, as it does alone, and fails to be read exactly when it does alone.
pub proof fn lemma_header_line(h: Seq<char>, c: char, body: Seq<char>)
    requires
        forall|i: int| 0 <= i < h.len() ==> h[i] != ']',
        (c as u32) < 0x80,
        body.len() > 0,
        forall|i: int| 0 <= i < body.len() ==> body[i] != '[',
        !starts_comment(body),
    ensures
        line_feeds(seq!['['] + h + seq![']', c] + body) == match line_feeds(body) {
            Some(fs) => Some(
                fs.map_values(
                    |f: FeedView| FeedView { url: f.url, options: apply_words(Seq::empty(), split(h, ' ')) },
                ),
            ),
            None => None,
        },
{
    let line = seq!['['] + h + seq![']', c] + body;
    let opts = apply_words(Seq::empty(), split(h, ' '));
    let empty_opts = Seq::<(Seq<char>, crate::config::ValueView)>::empty();
    // the line is no comment
    assert(!crate::text::is_ws(line[0]));
    assert(crate::text::trim_start(line) == line);
    lemma_trim_end_head(line);
    assert(!starts_comment(line));
    // the header
    assert(crate::text::is_first(line, '[', 0));
    crate::text::lemma_find_some(line, '[', 0);
    let j: int = h.len() as int + 1;
    assert(crate::text::is_first(line, ']', j)) by {
        assert forall|i: int| 0 <= i < j implies line[i] != ']' by {
            if i > 0 {
                assert(line[i] == h[i - 1]);
            }
        }
    }
    crate::text::lemma_find_some(line, ']', j);
    assert(line.subrange(1, j) =~= h);
    assert(line.skip(j + 2) =~= body);
    assert(line[j + 1] == c);
    assert(split_header(line) == Some((opts, body)));
    // the rest alone
    crate::text::lemma_find_none(body, '[');
    assert(split_header(body) == Some((empty_opts, body)));
    let (pieces, groups) = scan(body, Seq::empty(), Seq::empty());
    if groups.len() == 0 {
        if pieces.len() == 1 {
            let fs = seq![FeedView { url: pieces[0], options: empty_opts }];
            assert(fs.map_values(|f: FeedView| FeedView { url: f.url, options: opts }) =~= seq![
                FeedView { url: pieces[0], options: opts },
            ]);
        }
    } else {
        let alts = group_alternatives(groups);
        if lens_prod(alts) <= usize::MAX {
            let picks = cartesian(alts);
            let fs = Seq::new(
                picks.len(),
                |n: int| FeedView { url: join(fill(pieces, groups, picks[n])), options: empty_opts },
            );
            let gs = Seq::new(
                picks.len(),
                |n: int| FeedView { url: join(fill(pieces, groups, picks[n])), options: opts },
            );
            assert(fs.map_values(|f: FeedView| FeedView { url: f.url, options: opts }) =~= gs);
        }
    }
}

/// A line with groups gives one feed per combination of their alternatives:
/// as many as the product of the numbers of alternatives, the `n`-th one
/// built from the `n`-th combination in lexicographic order.
pub proof fn lemma_line_feed_count(line: Seq<char>)
    requires
        line_feeds(line) is Some,
        !starts_comment(line),
        split_header(line) is Some,
        scan(split_header(line).unwrap().1, Seq::empty(), Seq::empty()).1.len() > 0,
    ensures
        ({
            let body = split_header(line).unwrap().1;
            let (pieces, groups) = scan(body, Seq::empty(), Seq::empty());
            let alts = group_alternatives(groups);
            &&& line_feeds(line).unwrap().len() == lens_prod(alts)
            &&& forall|n: int| 0 <= n < lens_prod(alts) ==> (#[trigger] line_feeds(line).unwrap()[n]).url
                == join(fill(pieces, groups, cartesian(alts)[n]))
        }),
{
    let body = split_header(line).unwrap().1;
    let (pieces, groups) = scan(body, Seq::empty(), Seq::empty());
    lemma_cartesian_len(group_alternatives(groups));
}

/// Every option that a header sets is one of the allowed names, with a
/// value read from a non-empty text.
pub proof fn lemma_options_allowed(o: OptionsView, words: Seq<Seq<char>>)
    requires
        forall|i: int| 0 <= i < o.len() ==> allowed_key(#[trigger] o[i].0),
    ensures
        forall|i: int| 0 <= i < apply_words(o, words).len() ==> allowed_key(#[trigger] apply_words(o, words)[i].0),
    decreases words.len(),
{
    if words.len() > 0 {
        let o2 = option_step(o, words[0]);
        assert forall|i: int| 0 <= i < o2.len() implies allowed_key(#[trigger] o2[i].0) by {
            match split_once(words[0], '=') {
                Some((k, v)) => {
                    if allowed_key(k) && v.len() > 0 {
                        lemma_without_key_subset(o, k);
                        if i < o2.len() - 1 {
                            assert(o2[i] == crate::config::without_key(o, k)[i]);
                            assert(o.contains(o2[i]));
                            let j = choose|j: int| 0 <= j < o.len() && o[j] == o2[i];
                            assert(allowed_key(o[j].0));
                        }
                    }
                },
                None => {},
            }
        }
        lemma_options_allowed(o2, words.drop_first());
        assert(apply_words(o, words) == apply_words(o2, words.drop_first()));
    }
}

proof fn lemma_without_key_subset(o: OptionsView, k: Seq<char>)
    ensures
        forall|i: int| 0 <= i < crate::config::without_key(o, k).len() ==> o.contains(#[trigger] crate::config::without_key(o, k)[i]),
    decreases o.len(),
{
    if o.len() > 0 {
        lemma_without_key_subset(o.drop_last(), k);
        let w = crate::config::without_key(o, k);
        let w0 = crate::config::without_key(o.drop_last(), k);
        assert forall|i: int| 0 <= i < w.len() implies o.contains(#[trigger] w[i]) by {
            if o.last().0 == k || i < w0.len() {
                assert(o.drop_last().contains(w0[i]));
                let j = choose|j: int| 0 <= j < o.drop_last().len() && o.drop_last()[j] == w0[i];
                assert(o[j] == w[i]);
            } else {
                assert(o[o.len() - 1] == w[i]);
            }
        }
    }
}

// ----------------------------------------------------------------------------------
//   - Reading -
// ----------------------------------------------------------------------------------

/// The texts of a list of string slices.
pub open spec fn strs_view(v: Seq<&str>) -> Seq<Seq<char>> {
    v.map_values(|p: &str| p@)
}

proof fn lemma_split_step(s: Seq<char>, c: char)
    ensures
        find(s, c) matches Some(i) ==> 0 <= i < s.len() && split(s, c) == seq![s.take(i)] + split(s.skip(i + 1), c),
        find(s, c) is None ==> split(s, c) == seq![s],
{
    lemma_find_facts(s, c);
}

/// `s[from..to]` cut at every `sep`, as slices of `s`.
fn split_slices<'a>(s: &'a str, cs: &Vec<char>, from: usize, to: usize, sep: char) -> (r: Vec<&'a str>)
    requires
        cs@ == s@,
        from <= to <= cs@.len(),
    ensures
        strs_view(r@) == split(cs@.subrange(from as int, to as int), sep),
{
    let ghost whole = cs@.subrange(from as int, to as int);
    let mut r: Vec<&'a str> = Vec::new();
    let mut pos: usize = from;
    let mut done = false;
    while !done
        invariant
            cs@ == s@,
            from <= pos <= to <= cs@.len(),
            whole == cs@.subrange(from as int, to as int),
            !done ==> split(whole, sep) == strs_view(r@) + split(cs@.subrange(pos as int, to as int), sep),
            done ==> split(whole, sep) == strs_view(r@),
        decreases to - pos + (if done { 0int } else { 1int }),
    {
        let ghost rest = cs@.subrange(pos as int, to as int);
        proof {
            lemma_split_step(rest, sep);
        }
        match find_in(cs, pos, to, sep) {
            Some(i) => {
                let piece = s.substring_char(pos, pos + i);
                assert(piece@ == rest.take(i as int));
                let ghost old_r = r@;
                r.push(piece);
                assert(strs_view(r@) =~= strs_view(old_r).push(piece@));
                assert(rest.skip(i + 1) =~= cs@.subrange(pos + i + 1, to as int));
                assert(strs_view(r@) + split(cs@.subrange(pos + i + 1, to as int), sep)
                    =~= strs_view(old_r) + (seq![rest.take(i as int)] + split(rest.skip(i + 1), sep)));
                pos = pos + i + 1;
            },
            None => {
                let piece = s.substring_char(pos, to);
                let ghost old_r = r@;
                r.push(piece);
                assert(strs_view(r@) =~= strs_view(old_r) + seq![rest]);
                done = true;
            },
        }
    }
    r
}

/// Applies the header word `cs[a..b]` to the options read so far.
fn apply_word(opts: &mut Vec<(String, Value)>, cs: &Vec<char>, a: usize, b: usize)
    requires
        a <= b <= cs@.len(),
    ensures
        options_view(final(opts)@) == option_step(options_view(old(opts)@), cs@.subrange(a as int, b as int)),
{
    let ghost word = cs@.subrange(a as int, b as int);
    proof {
        lemma_find_facts(word, '=');
    }
    match find_in(cs, a, b, '=') {
        None => {},
        Some(e) => {
            let k_end = a + e;
            assert(word.take(e as int) =~= cs@.subrange(a as int, k_end as int));
            assert(word.skip(e + 1) =~= cs@.subrange(k_end + 1, b as int));
            let fg = to_chars("foreground");
            let bg = to_chars("background");
            let nt = to_chars("no_toast");
            let allowed = range_eq(cs, a, k_end, &fg) || range_eq(cs, a, k_end, &bg) || range_eq(cs, a, k_end, &nt);
            if allowed && k_end + 1 < b {
                let key = crate::text::string_from(cs, a, k_end);
                let v = Value::from_chars(cs, k_end + 1, b);
                set_option(opts, key, v);
            }
        },
    }
}

/// The options set by the header words in `cs[from..to]`.
fn read_options(cs: &Vec<char>, from: usize, to: usize) -> (r: Vec<(String, Value)>)
    requires
        from <= to <= cs@.len(),
    ensures
        options_view(r@) == apply_words(Seq::empty(), split(cs@.subrange(from as int, to as int), ' ')),
{
    let ghost whole = cs@.subrange(from as int, to as int);
    let mut r: Vec<(String, Value)> = Vec::new();
    let mut pos: usize = from;
    let mut done = false;
    assert(options_view(r@) =~= Seq::empty());
    while !done
        invariant
            from <= pos <= to <= cs@.len(),
            whole == cs@.subrange(from as int, to as int),
            !done ==> apply_words(Seq::empty(), split(whole, ' ')) == apply_words(options_view(r@), split(cs@.subrange(pos as int, to as int), ' ')),
            done ==> apply_words(Seq::empty(), split(whole, ' ')) == options_view(r@),
        decreases to - pos + (if done { 0int } else { 1int }),
    {
        let ghost rest = cs@.subrange(pos as int, to as int);
        proof {
            lemma_split_step(rest, ' ');
        }
        match find_in(cs, pos, to, ' ') {
            Some(i) => {
                assert(rest.take(i as int) =~= cs@.subrange(pos as int, pos + i));
                apply_word(&mut r, cs, pos, pos + i);
                assert(rest.skip(i + 1) =~= cs@.subrange(pos + i + 1, to as int));
                let ghost ws = seq![rest.take(i as int)] + split(rest.skip(i + 1), ' ');
                assert(ws[0] == rest.take(i as int));
                assert(ws.drop_first() =~= split(rest.skip(i + 1), ' '));
                pos = pos + i + 1;
            },
            None => {
                let ghost before = options_view(r@);
                apply_word(&mut r, cs, pos, to);
                assert(rest =~= cs@.subrange(pos as int, to as int));
                let ghost ws = seq![rest];
                assert(ws.drop_first() =~= Seq::<Seq<char>>::empty());
                assert(apply_words(before, ws) == apply_words(option_step(before, rest), ws.drop_first()));
                done = true;
            },
        }
    }
    r
}

/// The groups of a template as plain data.
pub open spec fn groups_view(g: Seq<(usize, Vec<&str>)>) -> Groups {
    g.map_values(|e: (usize, Vec<&str>)| (e.0 as int, strs_view(e.1@)))
}

proof fn lemma_split_nonempty(s: Seq<char>, c: char)
    ensures
        split(s, c).len() > 0,
{
    lemma_split_step(s, c);
}

/// Cuts `s[from..to]` into pieces and groups, as `scan` does.
fn scan_body<'a>(s: &'a str, cs: &Vec<char>, from: usize, to: usize) -> (r: (Vec<&'a str>, Vec<(usize, Vec<&'a str>)>))
    requires
        cs@ == s@,
        from <= to <= cs@.len(),
    ensures
        (strs_view(r.0@), groups_view(r.1@)) == scan(cs@.subrange(from as int, to as int), Seq::empty(), Seq::empty()),
        forall|k: int| 0 <= k < r.1@.len() ==> (#[trigger] r.1@[k]).0 < r.0@.len(),
        forall|k: int| 0 <= k < r.1@.len() ==> (#[trigger] r.1@[k]).1@.len() > 0,
{
    let ghost whole = cs@.subrange(from as int, to as int);
    let mut pieces: Vec<&'a str> = Vec::new();
    let mut groups: Vec<(usize, Vec<&'a str>)> = Vec::new();
    let mut pos: usize = from;
    let mut done = false;
    assert(strs_view(pieces@) =~= Seq::empty());
    assert(groups_view(groups@) =~= Seq::empty());
    while !done
        invariant
            cs@ == s@,
            from <= pos <= to <= cs@.len(),
            whole == cs@.subrange(from as int, to as int),
            !done ==> scan(whole, Seq::empty(), Seq::empty()) == scan(cs@.subrange(pos as int, to as int), strs_view(pieces@), groups_view(groups@)),
            done ==> scan(whole, Seq::empty(), Seq::empty()) == (strs_view(pieces@), groups_view(groups@)),
            forall|k: int| 0 <= k < groups@.len() ==> (#[trigger] groups@[k]).0 < pieces@.len(),
            forall|k: int| 0 <= k < groups@.len() ==> (#[trigger] groups@[k]).1@.len() > 0,
        decreases to - pos + (if done { 0int } else { 1int }),
    {
        let ghost rest = cs@.subrange(pos as int, to as int);
        let ghost pv = strs_view(pieces@);
        proof {
            lemma_find_facts(rest, '{');
        }
        match find_in(cs, pos, to, '{') {
            None => {
                let piece = s.substring_char(pos, to);
                pieces.push(piece);
                assert(strs_view(pieces@) =~= pv.push(rest));
                done = true;
            },
            Some(p) => {
                let piece = s.substring_char(pos, pos + p);
                assert(piece@ =~= rest.take(p as int));
                pieces.push(piece);
                assert(strs_view(pieces@) =~= pv.push(rest.take(p as int)));
                let ghost after = rest.skip(p as int);
                assert(after =~= cs@.subrange(pos + p, to as int));
                proof {
                    lemma_find_facts(after, '}');
                }
                match find_in(cs, pos + p, to, '}') {
                    Some(j) => {
                        assert(after[0] == '{');
                        let alts = split_slices(s, cs, pos + p + 1, pos + p + j, '|');
                        assert(after.subrange(1, j as int) =~= cs@.subrange(pos + p + 1, pos + p + j));
                        proof {
                            lemma_split_nonempty(after.subrange(1, j as int), '|');
                        }
                        let at: usize = pieces.len();
                        let ghost gv_old = groups_view(groups@);
                        groups.push((at, alts));
                        assert(groups_view(groups@) =~= gv_old.push((at as int, split(after.subrange(1, j as int), '|'))));
                        let blank = s.substring_char(pos + p, pos + p);
                        assert(blank@ =~= Seq::<char>::empty());
                        let ghost pv1 = strs_view(pieces@);
                        pieces.push(blank);
                        assert(strs_view(pieces@) =~= pv1.push(Seq::empty()));
                        assert(after.skip(j + 1) =~= cs@.subrange(pos + p + j + 1, to as int));
                        pos = pos + p + j + 1;
                        if pos == to {
                            done = true;
                        }
                    },
                    None => {
                        assert(rest.skip(p + 1) =~= cs@.subrange(pos + p + 1, to as int));
                        pos = pos + p + 1;
                        if pos == to {
                            done = true;
                        }
                    },
                }
            },
        }
    }
    (pieces, groups)
}

/// The feeds as plain data.
pub open spec fn feeds_view(v: Seq<Feed>) -> Seq<FeedView> {
    v.map_values(|f: Feed| f@)
}

fn utf8_len(c: char) -> (n: usize)
    ensures
        n == utf8_width(c),
{
    let u = c as u32;
    if u < 0x80 {
        1
    } else if u < 0x800 {
        2
    } else if u < 0x10000 {
        3
    } else {
        4
    }
}

/// The pieces joined into one string.
fn join_strs(pieces: &Vec<&str>) -> (r: String)
    ensures
        r@ == join(strs_view(pieces@)),
{
    let mut r = String::new();
    let mut i: usize = 0;
    while i < pieces.len()
        invariant
            i <= pieces@.len(),
            r@ == join(strs_view(pieces@.take(i as int))),
        decreases pieces@.len() - i,
    {
        let ghost before = strs_view(pieces@.take(i as int));
        push_str(&mut r, pieces[i]);
        let ghost after = strs_view(pieces@.take(i + 1));
        assert(after.drop_last() =~= before);
        assert(after.last() == pieces@[i as int]@);
        i = i + 1;
    }
    assert(pieces@.take(pieces@.len() as int) =~= pieces@);
    r
}

/// Picking from lists and then mapping the picks is mapping the lists and then picking.
proof fn lemma_cartesian_map<A, B>(a: Seq<Seq<A>>, f: spec_fn(A) -> B)
    requires
        all_nonempty(a),
    ensures
        ({
            let b = a.map_values(|s: Seq<A>| s.map_values(f));
            &&& all_nonempty(b)
            &&& cartesian(b).len() == cartesian(a).len()
            &&& forall|n: int| 0 <= n < cartesian(a).len() ==> #[trigger] cartesian(b)[n] == cartesian(a)[n].map_values(f)
            &&& forall|n: int| 0 <= n < cartesian(a).len() ==> #[trigger] cartesian(a)[n].len() == a.len()
        }),
{
    let b = a.map_values(|s: Seq<A>| s.map_values(f));
    assert forall|i: int| 0 <= i < b.len() implies #[trigger] b[i].len() > 0 by {
        assert(a[i].len() > 0);
    }
    lemma_lens_prod_map(a, f);
    lemma_cartesian_len(a);
    lemma_cartesian_len(b);
    assert forall|n: int| 0 <= n < cartesian(a).len() implies #[trigger] cartesian(b)[n] == cartesian(a)[n].map_values(f) by {
        crate::combine::lemma_cartesian_index(a, n);
        crate::combine::lemma_cartesian_index(b, n);
        assert forall|i: int| 0 <= i < a.len() implies lens_prod(#[trigger] b.skip(i + 1)) == lens_prod(a.skip(i + 1)) by {
            lemma_lens_prod_map(a.skip(i + 1), f);
            assert(a.skip(i + 1).map_values(|s: Seq<A>| s.map_values(f)) =~= b.skip(i + 1));
        }
        assert(cartesian(b)[n] =~= cartesian(a)[n].map_values(f));
    }
    assert forall|n: int| 0 <= n < cartesian(a).len() implies #[trigger] cartesian(a)[n].len() == a.len() by {
        crate::combine::lemma_cartesian_index(a, n);
    }
}

proof fn lemma_lens_prod_map<A, B>(a: Seq<Seq<A>>, f: spec_fn(A) -> B)
    ensures
        lens_prod(a.map_values(|s: Seq<A>| s.map_values(f))) == lens_prod(a),
    decreases a.len(),
{
    if a.len() > 0 {
        lemma_lens_prod_map(a.drop_first(), f);
        assert(a.map_values(|s: Seq<A>| s.map_values(f)).drop_first() =~= a.drop_first().map_values(
            |s: Seq<A>| s.map_values(f),
        ));
    }
}

/// The options header of the line `cs[ls..le]` and where its body starts,
/// or `None` where the header cannot be cut.
fn header_exec(cs: &Vec<char>, ls: usize, le: usize) -> (r: Option<(Vec<(String, Value)>, usize)>)
    requires
        ls < le <= cs@.len(),
    ensures
        match r {
            Some((opts, start)) => ls <= start <= le && split_header(cs@.subrange(ls as int, le as int))
                == Some((options_view(opts@), cs@.subrange(start as int, le as int))),
            None => split_header(cs@.subrange(ls as int, le as int)) is None,
        },
{
    let ghost line = cs@.subrange(ls as int, le as int);
    let opts: Vec<(String, Value)> = Vec::new();
    assert(options_view(opts@) =~= Seq::empty());
    let opens = match find_in(cs, ls, le, '[') {
        Some(c) => c == 0 || (c == 1 && utf8_len(cs[ls]) <= 2) || (c == 2 && utf8_len(cs[ls]) == 1
            && utf8_len(cs[ls + 1]) == 1),
        None => false,
    };
    assert(line[0] == cs@[ls as int]);
    assert(line.len() > 1 ==> line[1] == cs@[ls + 1]);
    assert(opens == header_opens(line));
    if opens {
        match find_in(cs, ls, le, ']') {
            Some(j) => {
                let first: u32 = cs[ls] as u32;
                if !(first < 0x80 && j >= 1 && j + 1 < le - ls) {
                    return None;
                }
                let next: u32 = cs[ls + j + 1] as u32;
                assert(line[j + 1] == cs@[ls + j + 1]);
                if !(next < 0x80) {
                    return None;
                }
                let opts = read_options(cs, ls + 1, ls + j);
                assert(line.subrange(1, j as int) =~= cs@.subrange(ls + 1, ls + j));
                assert(line.skip(j + 2) =~= cs@.subrange(ls + j + 2, le as int));
                Some((opts, ls + j + 2))
            },
            None => {
                assert(line =~= cs@.subrange(ls as int, le as int));
                Some((opts, ls))
            },
        }
    } else {
        assert(line =~= cs@.subrange(ls as int, le as int));
        Some((opts, ls))
    }
}

/// One feed per combination of the groups' alternatives: the pieces with the
/// placeholders filled by the combination, joined.
fn expand_groups<'a>(pieces: Vec<&'a str>, groups: &Vec<(usize, Vec<&'a str>)>, opts: &Vec<(String, Value)>) -> (r: Option<Vec<Feed>>)
    requires
        forall|k: int| 0 <= k < groups@.len() ==> (#[trigger] groups@[k]).0 < pieces@.len(),
        forall|k: int| 0 <= k < groups@.len() ==> (#[trigger] groups@[k]).1@.len() > 0,
    ensures
        ({
            let alts = group_alternatives(groups_view(groups@));
            match r {
                Some(v) => lens_prod(alts) <= usize::MAX && feeds_view(v@) == Seq::new(
                    cartesian(alts).len(),
                    |n: int| FeedView {
                        url: join(fill(strs_view(pieces@), groups_view(groups@), cartesian(alts)[n])),
                        options: options_view(opts@),
                    },
                ),
                None => lens_prod(alts) > usize::MAX,
            }
        }),
{
    let mut pieces = pieces;
    let ghost p0 = strs_view(pieces@);
    let ghost gv = groups_view(groups@);
    let ghost ov = options_view(opts@);
    let mut arrays: Vec<&Vec<&'a str>> = Vec::new();
    let mut k: usize = 0;
    while k < groups.len()
        invariant
            k <= groups@.len(),
            arrays@.len() == k,
            forall|i: int| 0 <= i < k ==> #[trigger] arrays@[i]@ == groups@[i].1@,
        decreases groups@.len() - k,
    {
        arrays.push(&groups[k].1);
        k = k + 1;
    }
    let ghost alts_str = seqs_of(arrays@);
    let ghost alts = group_alternatives(gv);
    proof {
        assert forall|i: int| 0 <= i < alts_str.len() implies #[trigger] alts_str[i].len() > 0 by {
            assert(alts_str[i] == groups@[i].1@);
        }
        assert(alts =~= alts_str.map_values(|t: Seq<&str>| t.map_values(|p: &str| p@))) by {
            assert forall|i: int| 0 <= i < alts.len() implies alts[i] == alts_str.map_values(|t: Seq<&str>| t.map_values(|p: &str| p@))[i] by {
                assert(alts_str[i] == groups@[i].1@);
                assert(alts[i] =~= strs_view(groups@[i].1@));
            }
        }
        lemma_cartesian_map(alts_str, |p: &str| p@);
        lemma_lens_prod_map(alts_str, |p: &str| p@);
        assert(positions_in(gv, p0.len() as int)) by {
            assert forall|i: int| 0 <= i < gv.len() implies 0 <= #[trigger] gv[i].0 < p0.len() by {
                assert(gv[i].0 == groups@[i].0);
            }
        }
    }
    if !count_fits(arrays.as_slice()) {
        return None;
    }
    let picks = combinations(arrays.as_slice());
    let ghost cart = cartesian(alts);
    assert(picks@.len() == cart.len()) by {
        assert(picks@.map_values(|v: Vec<&str>| v@).len() == picks@.len());
    }
    let mut feeds: Vec<Feed> = Vec::new();
    let mut n: usize = 0;
    while n < picks.len()
        invariant
            picks@.len() == cart.len(),
            picks@.map_values(|v: Vec<&str>| v@) == cartesian(alts_str),
            forall|m: int| 0 <= m < cart.len() ==> #[trigger] cart[m] == cartesian(alts_str)[m].map_values(|p: &str| p@),
            forall|m: int| 0 <= m < cart.len() ==> #[trigger] cartesian(alts_str)[m].len() == alts_str.len(),
            alts_str.len() == groups@.len(),
            gv == groups_view(groups@),
            gv.len() == groups@.len(),
            positions_in(gv, p0.len() as int),
            ov == options_view(opts@),
            n <= picks@.len(),
            n == 0 ==> strs_view(pieces@) == p0,
            n > 0 ==> strs_view(pieces@) == fill(p0, gv, cart[n - 1]),
            pieces@.len() == p0.len(),
            feeds_view(feeds@) == Seq::new(n as nat, |m: int| FeedView { url: join(fill(p0, gv, cart[m])), options: ov }),
        decreases picks@.len() - n,
    {
        let pick: &Vec<&'a str> = &picks[n];
        let ghost pv = strs_view(pick@);
        assert(pick@ == cartesian(alts_str)[n as int]);
        assert(pv =~= cart[n as int]);
        let ghost before = strs_view(pieces@);
        let mut k: usize = 0;
        while k < groups.len()
            invariant
                k <= groups@.len(),
                gv == groups_view(groups@),
                gv.len() == groups@.len(),
                pick@.len() == groups@.len(),
                pv == strs_view(pick@),
                positions_in(gv, p0.len() as int),
                before.len() == p0.len(),
                pieces@.len() == p0.len(),
                strs_view(pieces@) == fill(before, gv.take(k as int), pv.take(k as int)),
            decreases groups@.len() - k,
        {
            let at: usize = groups[k].0;
            assert(gv[k as int].0 == at);
            let ghost prev = strs_view(pieces@);
            pieces.set(at, pick[k]);
            proof {
                assert(gv.take(k + 1).drop_last() =~= gv.take(k as int));
                assert(pv.take(k + 1).drop_last() =~= pv.take(k as int));
                assert(gv.take(k + 1).last() == gv[k as int]);
                assert(pv.take(k + 1).last() == pv[k as int]);
                assert(strs_view(pieces@) =~= prev.update(at as int, pv[k as int]));
            }
            k = k + 1;
        }
        proof {
            assert(gv.take(gv.len() as int) =~= gv);
            assert(pv.take(pv.len() as int) =~= pv);
            if n > 0 {
                lemma_fill_again(p0, gv, cart[n - 1], pv);
            }
        }
        let url = join_strs(&pieces);
        let ghost old_feeds = feeds_view(feeds@);
        let o2 = clone_options(opts);
        let feed = Feed { url, options: o2 };
        assert(feed@ == FeedView { url: join(fill(p0, gv, cart[n as int])), options: ov });
        feeds.push(feed);
        assert(feeds_view(feeds@) =~= old_feeds.push(feed@));
        assert(feeds_view(feeds@) =~= Seq::new((n + 1) as nat, |m: int| FeedView { url: join(fill(p0, gv, cart[m])), options: ov }));
        n = n + 1;
    }
    Some(feeds)
}

/// The feeds of the line `cs[ls..le]`, or `None` where reading it fails.
fn line_feeds_exec<'a>(s: &'a str, cs: &Vec<char>, ls: usize, le: usize) -> (r: Option<Vec<Feed>>)
    requires
        cs@ == s@,
        ls <= le <= cs@.len(),
    ensures
        match r {
            Some(v) => line_feeds(cs@.subrange(ls as int, le as int)) == Some(feeds_view(v@)),
            None => line_feeds(cs@.subrange(ls as int, le as int)) is None,
        },
{
    let ghost line = cs@.subrange(ls as int, le as int);
    let (a, b) = trim_bounds(cs, ls, le);
    if a < b && cs[a] == '#' {
        assert(trim(line)[0] == cs@[a as int]);
        let v: Vec<Feed> = Vec::new();
        assert(feeds_view(v@) =~= Seq::empty());
        return Some(v);
    }
    assert(!starts_comment(line)) by {
        if trim(line).len() > 0 {
            assert(trim(line)[0] == cs@[a as int]);
        }
    }
    if ls == le {
        return None;
    }
    let (opts, body_start) = match header_exec(cs, ls, le) {
        Some(h) => h,
        None => {
            return None;
        },
    };
    let (pieces, groups) = scan_body(s, cs, body_start, le);
    let ghost p0 = strs_view(pieces@);
    let ghost ov = options_view(opts@);
    if groups.len() == 0 {
        assert(groups_view(groups@).len() == 0);
        if pieces.len() == 1 {
            let url = pieces[0].to_owned();
            let mut v: Vec<Feed> = Vec::new();
            v.push(Feed { url, options: opts });
            assert(feeds_view(v@) =~= seq![FeedView { url: p0[0], options: ov }]);
            return Some(v);
        } else {
            return None;
        }
    }
    let r = expand_groups(pieces, &groups, &opts);
    match r {
        Some(v) => {
            let ghost alts = group_alternatives(groups_view(groups@));
            assert(feeds_view(v@) =~= Seq::new(
                cartesian(alts).len(),
                |n: int| FeedView { url: join(fill(p0, groups_view(groups@), cartesian(alts)[n])), options: ov },
            ));
            Some(v)
        },
        None => None,
    }
}

/// `a` followed by the feeds in `o`, when `o` has any.
pub open spec fn prepend_feeds(a: Seq<FeedView>, o: Option<Seq<FeedView>>) -> Option<Seq<FeedView>> {
    match o {
        Some(b) => Some(a + b),
        None => None,
    }
}

proof fn lemma_last_line(acc: Seq<FeedView>, lines: Seq<Seq<char>>, vv: Seq<FeedView>)
    requires
        lines.len() == 1,
        line_feeds(lines[0]) == Some(vv),
    ensures
        prepend_feeds(acc, lines_feeds(lines)) == Some(acc + vv),
{
    assert(lines.drop_first() =~= Seq::<Seq<char>>::empty());
    assert(lines_feeds(lines.drop_first()) == Some(Seq::<FeedView>::empty()));
    assert(vv + Seq::<FeedView>::empty() =~= vv);
}

proof fn lemma_next_line(acc: Seq<FeedView>, lines: Seq<Seq<char>>, more: Seq<Seq<char>>, vv: Seq<FeedView>)
    requires
        lines.len() >= 1,
        lines.drop_first() == more,
        line_feeds(lines[0]) == Some(vv),
    ensures
        prepend_feeds(acc, lines_feeds(lines)) == prepend_feeds(acc + vv, lines_feeds(more)),
{
    match lines_feeds(more) {
        Some(b) => {
            assert(acc + (vv + b) =~= acc + vv + b);
        },
        None => {},
    }
}

/// The feeds of the text `s`, or `None` where reading it fails.
fn read_feeds(s: &str) -> (r: Option<Vec<Feed>>)
    ensures
        match r {
            Some(v) => feeds_of(s@) == Some(feeds_view(v@)),
            None => feeds_of(s@) is None,
        },
{
    let cs = to_chars(s);
    let len: usize = cs.len();
    let mut feeds: Vec<Feed> = Vec::new();
    let mut pos: usize = 0;
    let mut done = false;
    assert(cs@.subrange(0, len as int) =~= s@);
    assert(feeds_view(feeds@) =~= Seq::empty());
    while !done
        invariant
            cs@ == s@,
            len == cs@.len(),
            pos <= len,
            !done ==> feeds_of(s@) == prepend_feeds(feeds_view(feeds@), lines_feeds(split(cs@.subrange(pos as int, len as int), '\n'))),
            done ==> feeds_of(s@) == Some(feeds_view(feeds@)),
        decreases len - pos + (if done { 0int } else { 1int }),
    {
        let ghost rest = cs@.subrange(pos as int, len as int);
        let ghost acc = feeds_view(feeds@);
        proof {
            lemma_split_step(rest, '\n');
        }
        let (line_end, next) = match find_in(&cs, pos, len, '\n') {
            Some(i) => (pos + i, pos + i + 1),
            None => (len, len),
        };
        let ghost lines = split(rest, '\n');
        assert(lines[0] =~= cs@.subrange(pos as int, line_end as int));
        match line_feeds_exec(s, &cs, pos, line_end) {
            None => {
                return None;
            },
            Some(mut v) => {
                let ghost vv = feeds_view(v@);
                feeds.append(&mut v);
                assert(feeds_view(feeds@) =~= acc + vv);
                if line_end == len {
                    proof {
                        lemma_last_line(acc, lines, vv);
                    }
                    done = true;
                } else {
                    proof {
                        assert(rest.skip(line_end - pos + 1) =~= cs@.subrange(next as int, len as int));
                        let i = line_end - pos;
                        assert(lines == seq![rest.take(i)] + split(rest.skip(i + 1), '\n'));
                        assert(lines.drop_first() =~= split(rest.skip(i + 1), '\n'));
                        lemma_next_line(acc, lines, split(cs@.subrange(next as int, len as int), '\n'), vv);
                    }
                    pos = next;
                }
            },
        }
    }
    Some(feeds)
}

/// Whether the feed list `s` can be read: every line is a comment, a single
/// URL, or a template with groups, and every options header can be cut.
pub fn feeds_text_ok(s: &str) -> (b: bool)
    ensures
        b == feeds_of(s@) is Some,
{
    read_feeds(s).is_some()
}

/// The feeds of the feed list `s`: one per line, comment lines (starting
/// with `#` after whitespace) skipped, an options header `[key=value ...]`
/// applied to the line's feeds, and each `{a|b|..}` group replaced by each of
/// its alternatives in turn.
pub fn parse_feeds_var(s: &str) -> (feeds: Vec<Feed>)
    requires
        feeds_of(s@) is Some,
    ensures
        feeds_of(s@) == Some(feeds_view(feeds@)),
{
    match read_feeds(s) {
        Some(v) => v,
        None => Vec::new(),
    }
}

} // verus!
