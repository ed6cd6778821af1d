//! The flat-file bookmark format: one bookmark per line, the `/`-separated
//! path first, then an ASCII blank, then the url. The path may contain
//! blanks; the line is split at its last blank. A line without any blank is
//! a path with an empty url.

use vstd::prelude::*;
use crate::model::BookmarkModel;
use crate::model::SBookmarkModel;
use crate::types::{Bookmark, SBookmark, abs_bms, abs_sbms, lemma_abs_bms_push};

verus! {

/// An ASCII whitespace character that may separate the path from the url
/// on one line: space, horizontal tab, vertical tab, form feed or carriage
/// return (a line feed ends the line instead).
pub open spec fn is_blank(c: char) -> bool {
    c == ' ' || c == '\t' || c == '\x0b' || c == '\x0c' || c == '\r'
}

/// The position of the last blank of `l`, if any.
pub open spec fn last_blank(l: Seq<char>) -> Option<int>
    decreases l.len(),
{
    if l.len() == 0 {
        None
    } else if is_blank(l[l.len() - 1]) {
        Some(l.len() - 1)
    } else {
        last_blank(l.drop_last())
    }
}

/// `last_blank` returns the greatest index holding a blank, or `None` when
/// the line holds no blank at all.
pub proof fn lemma_last_blank(l: Seq<char>)
    ensures
        match last_blank(l) {
            Some(k) => 0 <= k < l.len() && is_blank(l[k]) && forall|j: int|
                k < j < l.len() ==> !is_blank(l[j]),
            None => forall|j: int| 0 <= j < l.len() ==> !is_blank(l[j]),
        },
    decreases l.len(),
{
    if l.len() == 0 {
    } else if is_blank(l[l.len() - 1]) {
    } else {
        lemma_last_blank(l.drop_last());
        match last_blank(l.drop_last()) {
            Some(k) => {
                assert forall|j: int| k < j < l.len() implies !is_blank(l[j]) by {
                    if j < l.len() - 1 {
                        assert(l.drop_last()[j] == l[j]);
                    }
                }
            },
            None => {
                assert forall|j: int| 0 <= j < l.len() implies !is_blank(l[j]) by {
                    if j < l.len() - 1 {
                        assert(l.drop_last()[j] == l[j]);
                    }
                }
            },
        }
    }
}

/// A greatest blank index determines `last_blank`.
pub proof fn lemma_last_blank_at(l: Seq<char>, k: int)
    requires
        0 <= k < l.len(),
        is_blank(l[k]),
        forall|j: int| k < j < l.len() ==> !is_blank(l[j]),
    ensures
        last_blank(l) == Some(k),
{
    lemma_last_blank(l);
    match last_blank(l) {
        Some(m) => {
            if m < k {
                assert(!is_blank(l[k]));
            }
            if m > k {
                assert(!is_blank(l[m]));
            }
        },
        None => {
            assert(!is_blank(l[k]));
        },
    }
}

/// A line without any blank determines `last_blank`.
pub proof fn lemma_last_blank_none(l: Seq<char>)
    requires
        forall|j: int| 0 <= j < l.len() ==> !is_blank(l[j]),
    ensures
        last_blank(l) == None::<int>,
{
    lemma_last_blank(l);
    match last_blank(l) {
        Some(m) => {
            assert(!is_blank(l[m]));
        },
        None => {},
    }
}

/// The bookmark encoded by one non-empty line: everything before the last
/// blank is the path and everything after it is the url; a line without a
/// blank is a path with an empty url.
pub open spec fn parse_line(id: int, lastmodified: int, l: Seq<char>) -> BookmarkModel {
    match last_blank(l) {
        Some(k) => BookmarkModel {
            id,
            name: l.take(k),
            url: l.skip(k + 1),
            lastmodified,
        },
        None => BookmarkModel { id, name: l, url: Seq::empty(), lastmodified },
    }
}

/// The position of the first line feed of `s`, if any.
pub open spec fn first_nl(s: Seq<char>) -> Option<int>
    decreases s.len(),
{
    if s.len() == 0 {
        None
    } else if s[0] == '\n' {
        Some(0)
    } else {
        match first_nl(s.drop_first()) {
            Some(k) => Some(k + 1),
            None => None,
        }
    }
}

/// `first_nl` returns the least index holding a line feed, or `None` when
/// there is none.
pub proof fn lemma_first_nl(s: Seq<char>)
    ensures
        match first_nl(s) {
            Some(k) => 0 <= k < s.len() && s[k] == '\n' && forall|j: int| 0 <= j < k ==> s[j] != '\n',
            None => forall|j: int| 0 <= j < s.len() ==> s[j] != '\n',
        },
    decreases s.len(),
{
    if s.len() == 0 {
    } else if s[0] == '\n' {
    } else {
        lemma_first_nl(s.drop_first());
        match first_nl(s.drop_first()) {
            Some(k) => {
                assert forall|j: int| 0 <= j < k + 1 implies s[j] != '\n' by {
                    if j > 0 {
                        assert(s.drop_first()[j - 1] == s[j]);
                    }
                }
            },
            None => {
                assert forall|j: int| 0 <= j < s.len() implies s[j] != '\n' by {
                    if j > 0 {
                        assert(s.drop_first()[j - 1] == s[j]);
                    }
                }
            },
        }
    }
}

/// A least line-feed index determines `first_nl`.
pub proof fn lemma_first_nl_at(s: Seq<char>, k: int)
    requires
        0 <= k < s.len(),
        s[k] == '\n',
        forall|j: int| 0 <= j < k ==> s[j] != '\n',
    ensures
        first_nl(s) == Some(k),
{
    lemma_first_nl(s);
    match first_nl(s) {
        Some(m) => {
            if m < k {
                assert(s[m] != '\n');
            }
            if m > k {
                assert(s[k] != '\n');
            }
        },
        None => {
            assert(s[k] != '\n');
        },
    }
}

/// A text without any line feed determines `first_nl`.
pub proof fn lemma_first_nl_none(s: Seq<char>)
    requires
        forall|j: int| 0 <= j < s.len() ==> s[j] != '\n',
    ensures
        first_nl(s) == None::<int>,
{
    lemma_first_nl(s);
    match first_nl(s) {
        Some(m) => {
            assert(s[m] != '\n');
        },
        None => {},
    }
}

/// The lines of `s`: maximal line-feed-free segments, where a trailing line
/// feed terminates the last line rather than opening an empty one.
pub open spec fn split_lines(s: Seq<char>) -> Seq<Seq<char>>
    decreases s.len(),
{
    if s.len() == 0 {
        Seq::empty()
    } else {
        match first_nl(s) {
            Some(k) => if 0 <= k < s.len() {
                seq![s.take(k)] + split_lines(s.skip(k + 1))
            } else {
                seq![s]
            },
            None => seq![s],
        }
    }
}

/// The bookmarks encoded by a sequence of lines, the first line carrying the
/// id `idx`; empty lines yield no bookmark but still advance the line index.
pub open spec fn parse_lines(lastmodified: int, lines: Seq<Seq<char>>, idx: int) -> Seq<
    BookmarkModel,
>
    decreases lines.len(),
{
    if lines.len() == 0 {
        Seq::empty()
    } else {
        let rest = parse_lines(lastmodified, lines.drop_first(), idx + 1);
        if lines[0].len() == 0 {
            rest
        } else {
            seq![parse_line(idx, lastmodified, lines[0])] + rest
        }
    }
}

/// The bookmarks encoded by a whole file: its non-empty lines, each carrying
/// its line index as the positional id.
pub open spec fn parse_content(lastmodified: int, s: Seq<char>) -> Seq<BookmarkModel> {
    parse_lines(lastmodified, split_lines(s), 0)
}

/// The line that encodes one snapshot entry.
pub open spec fn line_of(e: SBookmarkModel) -> Seq<char> {
    e.name + seq![' '] + e.url + seq!['\n']
}

/// The file text that encodes a snapshot: one line per entry, in order.
pub open spec fn render_model(s: Seq<SBookmarkModel>) -> Seq<char>
    decreases s.len(),
{
    if s.len() == 0 {
        Seq::empty()
    } else {
        line_of(s[0]) + render_model(s.drop_first())
    }
}

/// Parse a file's text into the bookmarks it encodes. Every non-empty line
/// yields one bookmark whose id is the line index and whose modification
/// time is the file's.
#[verifier::loop_isolation(false)]
#[verifier::rlimit(60)]
pub fn read_file_content(lastmodified: u64, cnt: &String) -> (r: Vec<Bookmark>)
    ensures
        abs_bms(r@) == parse_content(lastmodified as int, cnt@),
{
    let ghost lm = lastmodified as int;
    let ghost full = cnt@;
    let s = cnt.as_str();
    let n: usize = s.unicode_len();
    let mut out: Vec<Bookmark> = Vec::new();
    let mut pos: usize = 0;
    let mut line_idx: usize = 0;
    proof {
        assert(full.skip(0) =~= full);
    }
    while pos < n
        invariant
            pos <= n,
            n == full.len(),
            line_idx <= pos,
            parse_content(lm, full) == abs_bms(out@) + parse_lines(
                lm,
                split_lines(full.skip(pos as int)),
                line_idx as int,
            ),
        decreases n - pos,
    {
        let ghost rest = full.skip(pos as int);
        let mut k: usize = pos;
        while k < n && s.get_char(k) != '\n'
            invariant
                pos <= k <= n,
                forall|j: int| pos <= j < k ==> full[j] != '\n',
            decreases n - k,
        {
            k += 1;
        }
        let ghost line = full.subrange(pos as int, k as int);
        proof {
            assert forall|j: int| 0 <= j < line.len() implies line[j] != '\n' by {
                assert(line[j] == full[pos + j]);
            }
            if k < n {
                assert(full[k as int] == '\n');
                assert(rest[k - pos] == '\n');
                assert forall|j: int| 0 <= j < k - pos implies rest[j] != '\n' by {
                    assert(rest[j] == full[pos + j]);
                }
                lemma_first_nl_at(rest, k - pos);
                assert(rest.take(k - pos) =~= line);
                assert(rest.skip(k - pos + 1) =~= full.skip(k + 1));
                assert(split_lines(rest) == seq![line] + split_lines(full.skip(k + 1)));
            } else {
                assert forall|j: int| 0 <= j < rest.len() implies rest[j] != '\n' by {
                    assert(rest[j] == full[pos + j]);
                }
                lemma_first_nl_none(rest);
                assert(rest =~= line);
                assert(rest.len() > 0);
                assert(split_lines(rest) == seq![line]);
                assert(full.skip(n as int).len() == 0);
                assert(split_lines(full.skip(n as int)) =~= Seq::<Seq<char>>::empty());
            }
        }
        if k > pos {
            let mut t: usize = k;
            while t > pos && !is_blank_char(s.get_char(t - 1))
                invariant
                    pos <= t <= k,
                    forall|j: int| t <= j < k ==> !is_blank(full[j]),
                decreases t,
            {
                t -= 1;
            }
            let entry = if t > pos {
                let m: usize = t - 1;
                proof {
                    assert(is_blank(full[m as int]));
                    assert(line[m - pos] == full[m as int]);
                    assert forall|j: int| m - pos < j < line.len() implies !is_blank(line[j]) by {
                        assert(t <= pos + j < k);
                        assert(!is_blank(full[pos + j]));
                        assert(line[j] == full[pos + j]);
                    }
                    lemma_last_blank_at(line, m - pos);
                    assert(line.take(m - pos) =~= full.subrange(pos as int, m as int));
                    assert(line.skip(m - pos + 1) =~= full.subrange(m + 1, k as int));
                }
                Bookmark {
                    id: line_idx,
                    name: s.substring_char(pos, m).to_owned(),
                    url: s.substring_char(m + 1, k).to_owned(),
                    lastmodified,
                }
            } else {
                proof {
                    assert forall|j: int| 0 <= j < line.len() implies !is_blank(line[j]) by {
                        assert(!is_blank(full[pos + j]));
                        assert(line[j] == full[pos + j]);
                    }
                    lemma_last_blank_none(line);
                }
                Bookmark {
                    id: line_idx,
                    name: s.substring_char(pos, k).to_owned(),
                    url: String::new(),
                    lastmodified,
                }
            };
            let ghost before = out@;
            let ghost eg = entry@;
            out.push(entry);
            proof {
                lemma_abs_bms_push(before, out@[before.len() as int]);
                assert(eg == parse_line(line_idx as int, lm, line));
                assert(abs_bms(out@) =~= abs_bms(before).push(eg));
            }
        }
        proof {
            let tail_lines = split_lines(rest).drop_first();
            let entries = parse_lines(lm, split_lines(rest), line_idx as int);
            if line.len() == 0 {
                assert(entries =~= parse_lines(lm, tail_lines, line_idx + 1));
            } else {
                assert(entries =~= seq![parse_line(line_idx as int, lm, line)] + parse_lines(
                    lm,
                    tail_lines,
                    line_idx + 1,
                ));
            }
            if k < n {
                assert(tail_lines =~= split_lines(full.skip(k + 1)));
            } else {
                assert(tail_lines =~= split_lines(full.skip(n as int)));
            }
            assert(parse_content(lm, full) =~= abs_bms(out@) + parse_lines(
                lm,
                if k < n {
                    split_lines(full.skip(k + 1))
                } else {
                    split_lines(full.skip(n as int))
                },
                line_idx + 1,
            ));
        }
        if k < n {
            pos = k + 1;
        } else {
            pos = n;
        }
        line_idx += 1;
    }
    proof {
        assert(full.skip(n as int).len() == 0);
        assert(parse_content(lm, full) =~= abs_bms(out@));
    }
    out
}

/// Whether `c` is an ASCII whitespace character that separates path and
/// url.
fn is_blank_char(c: char) -> (r: bool)
    ensures
        r == is_blank(c),
{
    c == ' ' || c == '\t' || c == '\x0b' || c == '\x0c' || c == '\r'
}

/// Render a snapshot as file text: one `path`, blank, `url`, line-feed line
/// per entry, in order.
#[verifier::loop_isolation(false)]
pub fn render_state(state: &Vec<SBookmark>) -> (r: String)
    ensures
        r@ == render_model(abs_sbms(state@)),
{
    let ghost sm = abs_sbms(state@);
    let mut acc = String::new();
    let mut i: usize = 0;
    proof {
        assert(sm.take(0) =~= Seq::<SBookmarkModel>::empty());
    }
    while i < state.len()
        invariant
            i <= state.len(),
            acc@ == render_model(sm.take(i as int)),
        decreases state.len() - i,
    {
        proof {
            assert(sm[i as int] == state@[i as int]@);
        }
        acc.append(state[i].name.as_str());
        acc.append(" ");
        acc.append(state[i].url.as_str());
        acc.append("\n");
        proof {
            reveal_strlit(" ");
            reveal_strlit("\n");
            lemma_render_take_step(sm, i as int);
            assert(acc@ =~= render_model(sm.take(i + 1)));
        }
        i += 1;
    }
    proof {
        assert(sm.take(state@.len() as int) =~= sm);
    }
    acc
}

/// Rendering one more entry appends that entry's line.
proof fn lemma_render_take_step(s: Seq<SBookmarkModel>, i: int)
    requires
        0 <= i < s.len(),
    ensures
        render_model(s.take(i + 1)) == render_model(s.take(i)) + line_of(s[i]),
{
    lemma_render_push(s.take(i), s[i]);
    assert(s.take(i + 1) =~= s.take(i).push(s[i]));
}

/// Rendering distributes over appending one entry at the end.
proof fn lemma_render_push(s: Seq<SBookmarkModel>, e: SBookmarkModel)
    ensures
        render_model(s.push(e)) == render_model(s) + line_of(e),
    decreases s.len(),
{
    if s.len() == 0 {
        assert(s.push(e)[0] == e);
        assert(s.push(e).drop_first() =~= Seq::<SBookmarkModel>::empty());
        assert(render_model(s.push(e)) == line_of(e) + render_model(
            Seq::<SBookmarkModel>::empty(),
        ));
        assert(render_model(s.push(e)) =~= render_model(s) + line_of(e));
    } else {
        lemma_render_push(s.drop_first(), e);
        assert(s.push(e).drop_first() =~= s.drop_first().push(e));
        assert(s.push(e)[0] == s[0]);
        assert(render_model(s.push(e)) =~= render_model(s) + line_of(e));
    }
}

/// A path survives the file format when it holds no line feed.
pub open spec fn clean_name(p: Seq<char>) -> bool {
    forall|j: int| 0 <= j < p.len() ==> p[j] != '\n'
}

/// A url survives the file format when it holds no line feed and no blank.
pub open spec fn clean_url(u: Seq<char>) -> bool {
    forall|j: int| 0 <= j < u.len() ==> u[j] != '\n' && !is_blank(u[j])
}

/// Every entry of the snapshot survives the file format.
pub open spec fn renderable(s: Seq<SBookmarkModel>) -> bool {
    forall|i: int|
        0 <= i < s.len() ==> clean_name(#[trigger] s[i].name) && clean_url(s[i].url)
}

/// Round trip of the file format: parsing a rendered snapshot yields the
/// same paths and urls, entry for entry, whenever no path holds a line feed
/// and no url holds a line feed or a blank.
pub proof fn lemma_parse_render(lastmodified: int, s: Seq<SBookmarkModel>)
    requires
        renderable(s),
    ensures
        parse_content(lastmodified, render_model(s)).len() == s.len(),
        forall|i: int|
            0 <= i < s.len() ==> {
                let e = #[trigger] parse_content(lastmodified, render_model(s))[i];
                e.name == s[i].name && e.url == s[i].url && e.lastmodified == lastmodified
            },
{
    lemma_parse_render_go(lastmodified, s, 0);
}

proof fn lemma_parse_render_go(lastmodified: int, s: Seq<SBookmarkModel>, idx: int)
    requires
        renderable(s),
    ensures
        parse_lines(lastmodified, split_lines(render_model(s)), idx).len() == s.len(),
        forall|i: int|
            0 <= i < s.len() ==> {
                let e = #[trigger] parse_lines(lastmodified, split_lines(render_model(s)), idx)[i];
                e.name == s[i].name && e.url == s[i].url && e.lastmodified == lastmodified
            },
    decreases s.len(),
{
    let text = render_model(s);
    if s.len() == 0 {
        assert(split_lines(text) =~= Seq::<Seq<char>>::empty());
    } else {
        let e = s[0];
        let rest = s.drop_first();
        let line0 = e.name + seq![' '] + e.url;
        let nlpos = e.name.len() + 1 + e.url.len();
        assert(text == line_of(e) + render_model(rest));
        assert(line_of(e).len() == nlpos + 1);
        assert(text.len() == nlpos + 1 + render_model(rest).len());
        assert(clean_name(e.name) && clean_url(e.url));
        assert(text[nlpos as int] == '\n') by {
            assert(line_of(e)[nlpos as int] == '\n');
        }
        assert forall|j: int| 0 <= j < nlpos implies text[j] != '\n' by {
            assert(text[j] == line_of(e)[j]);
            if j < e.name.len() {
                assert(line_of(e)[j] == e.name[j]);
            } else if j == e.name.len() {
                assert(line_of(e)[j] == ' ');
            } else {
                assert(line_of(e)[j] == e.url[j - e.name.len() - 1]);
            }
        }
        lemma_first_nl_at(text, nlpos as int);
        assert(text.take(nlpos as int) =~= line0);
        assert(text.skip(nlpos as int + 1) =~= render_model(rest));
        assert(split_lines(text) == seq![line0] + split_lines(render_model(rest)));
        assert(line0.len() > 0);
        assert(is_blank(line0[e.name.len() as int]));
        assert forall|j: int| e.name.len() < j < line0.len() implies !is_blank(line0[j]) by {
            assert(line0[j] == e.url[j - e.name.len() - 1]);
        }
        lemma_last_blank_at(line0, e.name.len() as int);
        assert(line0.take(e.name.len() as int) =~= e.name);
        assert(line0.skip(e.name.len() as int + 1) =~= e.url);
        let p0 = parse_line(idx, lastmodified, line0);
        assert(p0.name == e.name && p0.url == e.url && p0.lastmodified == lastmodified);
        assert(renderable(rest)) by {
            assert forall|i: int|
                0 <= i < rest.len() implies clean_name(#[trigger] rest[i].name) && clean_url(
                rest[i].url,
            ) by {
                assert(rest[i] == s[i + 1]);
            }
        }
        lemma_parse_render_go(lastmodified, rest, idx + 1);
        let lines = split_lines(text);
        assert(lines[0] == line0);
        assert(lines.drop_first() =~= split_lines(render_model(rest)));
        let parsed = parse_lines(lastmodified, lines, idx);
        assert(parsed == seq![p0] + parse_lines(lastmodified, lines.drop_first(), idx + 1));
        assert forall|i: int|
            0 <= i < s.len() implies {
            let q = #[trigger] parse_lines(lastmodified, split_lines(render_model(s)), idx)[i];
            q.name == s[i].name && q.url == s[i].url && q.lastmodified == lastmodified
        } by {
            if i > 0 {
                assert(parsed[i] == parse_lines(
                    lastmodified,
                    split_lines(render_model(rest)),
                    idx + 1,
                )[i - 1]);
                assert(rest[i - 1] == s[i]);
            }
        }
    }
}

} // verus!
