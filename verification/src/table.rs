//! The table compactor: normalizes whitespace in Markdown table rows while
//! passing fenced code blocks through verbatim.

use vstd::prelude::*;

use crate::text::chars_of;
use crate::text::is_ws;
use crate::text::join_lines;
use crate::text::join_with;
use crate::text::lemma_ws_prefix;
use crate::text::spec_lines;
use crate::text::spec_trim;
use crate::text::spec_trim_start;
use crate::text::split_lines;
use crate::text::string_from_chars;
use crate::text::sub_chars;
use crate::text::join_chars;
use crate::text::push_sub;
use crate::text::trim_chars;
use crate::text::views;
use crate::text::ws_prefix;
use crate::text::ws_prefix_len;

verus! {

/// Length of the run of `c` at the front of `s`.
pub open spec fn run_of(s: Seq<char>, c: char) -> int
    decreases s.len(),
{
    if s.len() > 0 && s[0] == c {
        1 + run_of(s.skip(1), c)
    } else {
        0
    }
}

/// The run length is pinned down by its first-mismatch characterization.
pub proof fn lemma_run_of_is(s: Seq<char>, c: char, k: int)
    requires
        0 <= k <= s.len(),
        forall|j: int| 0 <= j < k ==> s[j] == c,
        k < s.len() ==> s[k] != c,
    ensures
        run_of(s, c) == k,
    decreases s.len(),
{
    if k == 0 {
    } else {
        assert(s[0] == c);
        assert forall|j: int| 0 <= j < k - 1 implies s.skip(1)[j] == c by {
            assert(s.skip(1)[j] == s[j + 1]);
        }
        if k - 1 < s.skip(1).len() {
            assert(s.skip(1)[k - 1] == s[k]);
        }
        lemma_run_of_is(s.skip(1), c, k - 1);
    }
}

/// The fence marker of an already left-trimmed line: its first character and
/// run length, when the line starts with at least three backticks or tildes.
pub open spec fn spec_fence_marker(s: Seq<char>) -> Option<(char, int)> {
    if s.len() > 0 && (s[0] == '`' || s[0] == '~') && run_of(s, s[0]) >= 3 {
        Some((s[0], run_of(s, s[0])))
    } else {
        None
    }
}

/// A trimmed line is a table row when it starts and ends with `|` and holds
/// more than that one character.
pub open spec fn is_table_row(t: Seq<char>) -> bool {
    t.len() > 1 && t[0] == '|' && t.last() == '|'
}

/// Splits a row interior on `|`, `cur` being the partial cell read so far;
/// every piece is kept, empty ones included.
pub open spec fn cells_from(s: Seq<char>, cur: Seq<char>) -> Seq<Seq<char>>
    decreases s.len(),
{
    if s.len() == 0 {
        seq![cur]
    } else if s[0] == '|' {
        seq![cur] + cells_from(s.skip(1), Seq::empty())
    } else {
        cells_from(s.skip(1), cur.push(s[0]))
    }
}

/// The cells of a row interior.
pub open spec fn spec_cells(inner: Seq<char>) -> Seq<Seq<char>> {
    cells_from(inner, Seq::empty())
}

/// A separator cell: non-empty and made of dashes and colons only.
pub open spec fn is_sep_cell(t: Seq<char>) -> bool {
    t.len() > 0 && forall|i: int| 0 <= i < t.len() ==> t[i] == '-' || t[i] == ':'
}

/// A cell compacted: trimmed, and a separator cell reduced to a single dash
/// that keeps only the alignment colons at its ends.
pub open spec fn spec_norm_cell(c: Seq<char>) -> Seq<char> {
    let t = spec_trim(c);
    if is_sep_cell(t) {
        (if t[0] == ':' {
            seq![':']
        } else {
            Seq::empty()
        }) + seq!['-'] + (if t.last() == ':' {
            seq![':']
        } else {
            Seq::empty()
        })
    } else {
        t
    }
}

/// Cells rejoined with single-space padding around each bar.
pub open spec fn join_cells(cs: Seq<Seq<char>>) -> Seq<char> {
    join_with(cs, seq![' ', '|', ' '])
}

/// A table row compacted: every cell trimmed and normalized, one space of
/// padding on each side.
pub open spec fn spec_row(t: Seq<char>) -> Seq<char> {
    seq!['|', ' '] + join_cells(
        spec_cells(t.subrange(1, t.len() - 1)).map_values(|c: Seq<char>| spec_norm_cell(c)),
    ) + seq![' ', '|']
}

/// One line processed under a fence state: fence markers open or close a
/// fence and pass through; lines inside a fence pass through; table rows
/// outside a fence are compacted; everything else passes through.
pub open spec fn spec_step(l: Seq<char>, st: Option<(char, int)>) -> (Seq<char>, Option<
    (char, int),
>) {
    match (spec_fence_marker(spec_trim_start(l)), st) {
        (Some(m), None) => (l, Some(m)),
        (Some(m), Some(f)) => if m.0 == f.0 && m.1 >= f.1 {
            (l, None)
        } else {
            (l, Some(f))
        },
        (None, Some(f)) => (l, Some(f)),
        (None, None) => {
            let t = spec_trim(l);
            if is_table_row(t) {
                (spec_row(t), None)
            } else {
                (l, None)
            }
        },
    }
}

/// All lines processed left to right under the threaded fence state.
pub open spec fn spec_compact_lines(ls: Seq<Seq<char>>, st: Option<(char, int)>) -> Seq<
    Seq<char>,
>
    decreases ls.len(),
{
    if ls.len() == 0 {
        Seq::empty()
    } else {
        seq![spec_step(ls[0], st).0] + spec_compact_lines(ls.skip(1), spec_step(ls[0], st).1)
    }
}

/// The whole document compacted: split into lines, processed, rejoined.
pub open spec fn spec_compact(md: Seq<char>) -> Seq<char> {
    join_lines(spec_compact_lines(spec_lines(md), None))
}

/// Whether a piece of text holds no cell bar.
pub open spec fn no_bar(l: Seq<char>) -> bool {
    forall|j: int| 0 <= j < l.len() ==> l[j] != '|'
}

/// A cell with one space of padding on each side.
pub open spec fn pad_cell(c: Seq<char>) -> Seq<char> {
    seq![' '] + c + seq![' ']
}

/// Trimming keeps interior characters and leaves no whitespace at the ends.
pub proof fn lemma_trim_props(c: Seq<char>)
    ensures
        spec_trim(c).len() > 0 ==> !is_ws(spec_trim(c)[0]) && !is_ws(spec_trim(c).last()),
        crate::text::no_nl(c) ==> crate::text::no_nl(spec_trim(c)),
        no_bar(c) ==> no_bar(spec_trim(c)),
{
    crate::text::lemma_ws_prefix(c);
    crate::text::lemma_ws_suffix(c);
    let lo = ws_prefix_len(c);
    let t = spec_trim(c);
    if lo == c.len() {
    } else {
        let q = crate::text::ws_suffix_len(c);
        if c.len() - q <= lo {
            assert(is_ws(c[lo]));
            assert(false);
        }
        assert(forall|i: int| 0 <= i < t.len() ==> t[i] == c[lo + i]);
        if t.len() > 0 {
            assert(t[0] == c[lo]);
            assert(t.last() == c[c.len() - q - 1]);
        }
    }
}

/// Splitting consumes a bar-free chunk by appending it to the partial cell.
pub proof fn lemma_cells_chunk(a: Seq<char>, b: Seq<char>, cur: Seq<char>)
    requires
        no_bar(a),
    ensures
        cells_from(a + b, cur) == cells_from(b, cur + a),
    decreases a.len(),
{
    if a.len() == 0 {
        assert(a + b =~= b);
        assert(cur + a =~= cur);
    } else {
        assert((a + b)[0] == a[0]);
        assert(a[0] != '|');
        assert((a + b).skip(1) =~= a.skip(1) + b);
        assert(forall|j: int| 0 <= j < a.skip(1).len() ==> a.skip(1)[j] == a[j + 1]);
        lemma_cells_chunk(a.skip(1), b, cur.push(a[0]));
        assert(cur.push(a[0]) + a.skip(1) =~= cur + a);
    }
}

/// A split always yields at least one cell.
pub proof fn lemma_cells_nonempty(s: Seq<char>, cur: Seq<char>)
    ensures
        cells_from(s, cur).len() >= 1,
    decreases s.len(),
{
    if s.len() == 0 {
    } else if s[0] == '|' {
    } else {
        lemma_cells_nonempty(s.skip(1), cur.push(s[0]));
    }
}

/// Every cell produced by splitting is bar-free, and newline-free when the
/// split text is.
pub proof fn lemma_cells_elems(s: Seq<char>, cur: Seq<char>)
    requires
        no_bar(cur),
        crate::text::no_nl(s),
        crate::text::no_nl(cur),
    ensures
        forall|i: int| 0 <= i < cells_from(s, cur).len() ==> #[trigger] no_bar(
            cells_from(s, cur)[i],
        ) && crate::text::no_nl(cells_from(s, cur)[i]),
    decreases s.len(),
{
    let r = cells_from(s, cur);
    if s.len() == 0 {
        assert(r =~~= seq![cur]);
        assert forall|i: int| 0 <= i < r.len() implies #[trigger] no_bar(r[i])
            && crate::text::no_nl(r[i]) by {
            assert(r[i] == cur);
        }
    } else if s[0] == '|' {
        assert(crate::text::no_nl(s.skip(1))) by {
            assert(forall|j: int| 0 <= j < s.skip(1).len() ==> s.skip(1)[j] == s[j + 1]);
        }
        lemma_cells_elems(s.skip(1), Seq::empty());
        let tail = cells_from(s.skip(1), Seq::empty());
        assert(r == seq![cur] + tail);
        assert forall|i: int| 0 <= i < r.len() implies #[trigger] no_bar(r[i])
            && crate::text::no_nl(r[i]) by {
            if i == 0 {
                assert(r[i] == cur);
            } else {
                assert(r[i] == tail[i - 1]);
            }
        }
    } else {
        let cur2 = cur.push(s[0]);
        assert(no_bar(cur2) && crate::text::no_nl(cur2)) by {
            assert(forall|j: int| 0 <= j < cur2.len() ==> cur2[j] == (if j < cur.len() {
                cur[j]
            } else {
                s[0]
            }));
        }
        assert(crate::text::no_nl(s.skip(1))) by {
            assert(forall|j: int| 0 <= j < s.skip(1).len() ==> s.skip(1)[j] == s[j + 1]);
        }
        lemma_cells_elems(s.skip(1), cur2);
        assert(r == cells_from(s.skip(1), cur2));
    }
}

/// Splitting the bar-join of bar-free cells gives the cells back.
pub proof fn lemma_cells_of_join(ds: Seq<Seq<char>>)
    requires
        ds.len() >= 1,
        forall|i: int| 0 <= i < ds.len() ==> #[trigger] no_bar(ds[i]),
    ensures
        spec_cells(join_with(ds, seq!['|'])) == ds,
    decreases ds.len(),
{
    if ds.len() == 1 {
        assert(no_bar(ds[0]));
        lemma_cells_chunk(ds[0], Seq::empty(), Seq::empty());
        assert(ds[0] + Seq::<char>::empty() =~= ds[0]);
        assert(Seq::<char>::empty() + ds[0] =~= ds[0]);
        assert(cells_from(Seq::<char>::empty(), ds[0]) =~~= seq![ds[0]]);
        assert(join_with(ds, seq!['|']) == ds[0]);
        assert(seq![ds[0]] =~~= ds);
    } else {
        let rest = ds.skip(1);
        assert forall|i: int| 0 <= i < rest.len() implies #[trigger] no_bar(rest[i]) by {
            assert(rest[i] == ds[i + 1]);
            assert(no_bar(ds[i + 1]));
        }
        lemma_cells_of_join(rest);
        let jr = join_with(rest, seq!['|']);
        let j = join_with(ds, seq!['|']);
        assert(j == ds[0] + seq!['|'] + jr);
        let bar_rest = seq!['|'] + jr;
        assert(no_bar(ds[0]));
        lemma_cells_chunk(ds[0], bar_rest, Seq::empty());
        assert(ds[0] + seq!['|'] + jr =~= ds[0] + bar_rest);
        assert(Seq::<char>::empty() + ds[0] =~= ds[0]);
        assert(cells_from(j, Seq::empty()) == cells_from(bar_rest, ds[0]));
        assert(bar_rest[0] == '|');
        assert(bar_rest.skip(1) =~= jr);
        assert(cells_from(bar_rest, ds[0]) == seq![ds[0]] + cells_from(jr, Seq::empty()));
        assert(cells_from(jr, Seq::empty()) == rest);
        assert(seq![ds[0]] + rest =~~= ds);
    }
}

/// Padding distributes over the join: the space-padded bar-join of cells is
/// the bar-join of the padded cells.
pub proof fn lemma_pad_join(cs: Seq<Seq<char>>)
    requires
        cs.len() >= 1,
    ensures
        seq![' '] + join_with(cs, seq![' ', '|', ' ']) + seq![' '] == join_with(
            cs.map_values(|c: Seq<char>| pad_cell(c)),
            seq!['|'],
        ),
    decreases cs.len(),
{
    let padded = cs.map_values(|c: Seq<char>| pad_cell(c));
    if cs.len() == 1 {
        assert(join_with(cs, seq![' ', '|', ' ']) == cs[0]);
        assert(padded.len() == 1);
        assert(padded[0] == pad_cell(cs[0]));
        assert(join_with(padded, seq!['|']) == padded[0]);
        assert(seq![' '] + cs[0] + seq![' '] =~= pad_cell(cs[0]));
    } else {
        let rest = cs.skip(1);
        lemma_pad_join(rest);
        let prest = rest.map_values(|c: Seq<char>| pad_cell(c));
        assert(padded.skip(1) =~~= prest) by {
            assert(padded.len() == cs.len());
            assert(forall|i: int| 0 <= i < prest.len() ==> prest[i] == pad_cell(rest[i]));
            assert(forall|i: int| 0 <= i < padded.len() ==> padded[i] == pad_cell(cs[i]));
            assert(forall|i: int| 0 <= i < rest.len() ==> rest[i] == cs[i + 1]);
        }
        assert(padded[0] == pad_cell(cs[0]));
        assert(join_with(cs, seq![' ', '|', ' ']) == cs[0] + seq![' ', '|', ' '] + join_with(
            rest,
            seq![' ', '|', ' '],
        ));
        assert(join_with(padded, seq!['|']) == padded[0] + seq!['|'] + join_with(prest, seq!['|']));
        assert(join_with(prest, seq!['|']) == seq![' '] + join_with(rest, seq![' ', '|', ' '])
            + seq![' ']);
        assert(seq![' '] + (cs[0] + seq![' ', '|', ' '] + join_with(rest, seq![' ', '|', ' ']))
            + seq![' '] =~= (seq![' '] + cs[0] + seq![' ']) + seq!['|'] + (seq![' '] + join_with(
            rest,
            seq![' ', '|', ' '],
        ) + seq![' ']));
        assert(pad_cell(cs[0]) =~= seq![' '] + cs[0] + seq![' ']);
    }
}

/// A compacted cell has no whitespace at its ends and keeps freedom from
/// bars and newlines.
pub proof fn lemma_norm_props(c: Seq<char>)
    ensures
        spec_norm_cell(c).len() > 0 ==> !is_ws(spec_norm_cell(c)[0]) && !is_ws(
            spec_norm_cell(c).last(),
        ),
        no_bar(c) ==> no_bar(spec_norm_cell(c)),
        crate::text::no_nl(c) ==> crate::text::no_nl(spec_norm_cell(c)),
{
    lemma_trim_props(c);
    let t = spec_trim(c);
    let nc = spec_norm_cell(c);
    if is_sep_cell(t) {
        assert forall|j: int| 0 <= j < nc.len() implies (nc[j] == '-' || nc[j] == ':') by {}
        assert(!is_ws(nc[0]));
        assert(!is_ws(nc.last()));
    }
}

/// Concatenation keeps freedom from newlines.
pub proof fn lemma_no_nl_cat(a: Seq<char>, b: Seq<char>)
    requires
        crate::text::no_nl(a),
        crate::text::no_nl(b),
    ensures
        crate::text::no_nl(a + b),
{
    assert forall|j: int| 0 <= j < (a + b).len() implies (a + b)[j] != '\n' by {
        if j < a.len() {
            assert((a + b)[j] == a[j]);
        } else {
            assert((a + b)[j] == b[j - a.len()]);
        }
    }
}

/// A join of newline-free pieces with a newline-free separator is
/// newline-free.
pub proof fn lemma_join_with_no_nl(ls: Seq<Seq<char>>, sep: Seq<char>)
    requires
        forall|i: int| 0 <= i < ls.len() ==> crate::text::no_nl(#[trigger] ls[i]),
        crate::text::no_nl(sep),
    ensures
        crate::text::no_nl(join_with(ls, sep)),
    decreases ls.len(),
{
    if ls.len() == 0 {
    } else if ls.len() == 1 {
        assert(crate::text::no_nl(ls[0]));
    } else {
        let rest = ls.skip(1);
        assert forall|i: int| 0 <= i < rest.len() implies crate::text::no_nl(
            #[trigger] rest[i],
        ) by {
            assert(rest[i] == ls[i + 1]);
            assert(crate::text::no_nl(ls[i + 1]));
        }
        lemma_join_with_no_nl(rest, sep);
        assert(crate::text::no_nl(ls[0]));
        lemma_no_nl_cat(ls[0], sep);
        lemma_no_nl_cat(ls[0] + sep, join_with(rest, sep));
        assert(ls[0] + sep + join_with(rest, sep) == join_with(ls, sep));
    }
}

/// Compacting a cell twice, with the padding the row re-adds, changes
/// nothing more.
pub proof fn lemma_norm_pad_fixed(c: Seq<char>)
    ensures
        spec_norm_cell(pad_cell(spec_norm_cell(c))) == spec_norm_cell(c),
{
    lemma_norm_props(c);
    lemma_trim_props(c);
    let nc = spec_norm_cell(c);
    let p = pad_cell(nc);
    assert(p.len() == nc.len() + 2);
    if nc.len() == 0 {
        assert(is_ws(p[0]) && is_ws(p[1]));
        crate::text::lemma_ws_prefix_is(p, 2);
        assert(spec_trim(p) == Seq::<char>::empty());
        assert(!is_sep_cell(spec_trim(p)));
        assert(spec_norm_cell(p) =~= nc);
    } else {
        assert(p[0] == ' ');
        assert(p[1] == nc[0]);
        crate::text::lemma_ws_prefix_is(p, 1);
        assert(p[p.len() - 1] == ' ');
        assert(p[p.len() - 2] == nc.last());
        crate::text::lemma_ws_suffix_is(p, 1);
        assert(spec_trim(p) =~= nc);
        let t = spec_trim(c);
        if is_sep_cell(t) {
            assert(is_sep_cell(nc)) by {
                assert forall|j: int| 0 <= j < nc.len() implies (nc[j] == '-' || nc[j] == ':') by {}
            }
            if t[0] == ':' {
                assert(nc[0] == ':');
            } else {
                assert(nc[0] == '-');
            }
            if t.last() == ':' {
                assert(nc.last() == ':');
            } else {
                assert(nc.last() == '-');
            }
            assert(spec_norm_cell(p) =~= nc);
        } else {
            assert(nc == t);
            assert(!is_sep_cell(nc));
            assert(spec_norm_cell(p) == nc);
        }
    }
}

/// The shape of a compacted row: it starts and ends with a bar, holds at
/// least four characters, and is newline-free when the row was.
pub proof fn lemma_row_props(t: Seq<char>)
    requires
        t.len() >= 2,
        crate::text::no_nl(t),
    ensures
        spec_row(t).len() >= 4,
        spec_row(t)[0] == '|',
        spec_row(t).last() == '|',
        !is_ws(spec_row(t)[0]),
        !is_ws(spec_row(t).last()),
        crate::text::no_nl(spec_row(t)),
    decreases t.len(),
{
    let inner = t.subrange(1, t.len() - 1);
    assert(crate::text::no_nl(inner)) by {
        assert(forall|j: int| 0 <= j < inner.len() ==> inner[j] == t[j + 1]);
    }
    let cells = spec_cells(inner);
    lemma_cells_elems(inner, Seq::empty());
    let ncells = cells.map_values(|c: Seq<char>| spec_norm_cell(c));
    assert forall|i: int| 0 <= i < ncells.len() implies crate::text::no_nl(
        #[trigger] ncells[i],
    ) by {
        assert(ncells[i] == spec_norm_cell(cells[i]));
        assert(no_bar(cells[i]) && crate::text::no_nl(cells[i]));
        lemma_norm_props(cells[i]);
    }
    let j = join_cells(ncells);
    lemma_join_with_no_nl(ncells, seq![' ', '|', ' ']);
    let o = spec_row(t);
    assert(o.len() == 4 + j.len());
    assert(o[0] == '|');
    assert(o.last() == '|');
    lemma_no_nl_cat(seq!['|', ' '], j);
    lemma_no_nl_cat(seq!['|', ' '] + j, seq![' ', '|']);
    assert(crate::text::no_nl((seq!['|', ' '] + j) + seq![' ', '|']));
    assert(o =~= (seq!['|', ' '] + j) + seq![' ', '|']);
}

/// Compacting an already compacted row changes nothing: the row transform is
/// idempotent.
pub proof fn lemma_row_fixed(t: Seq<char>)
    requires
        t.len() >= 2,
        crate::text::no_nl(t),
    ensures
        spec_row(spec_row(t)) == spec_row(t),
{
    let inner = t.subrange(1, t.len() - 1);
    assert(crate::text::no_nl(inner)) by {
        assert(forall|j: int| 0 <= j < inner.len() ==> inner[j] == t[j + 1]);
    }
    let cells = spec_cells(inner);
    lemma_cells_nonempty(inner, Seq::empty());
    lemma_cells_elems(inner, Seq::empty());
    let ncells = cells.map_values(|c: Seq<char>| spec_norm_cell(c));
    assert(ncells.len() == cells.len());
    assert forall|i: int| 0 <= i < ncells.len() implies #[trigger] no_bar(ncells[i]) by {
        assert(ncells[i] == spec_norm_cell(cells[i]));
        assert(no_bar(cells[i]));
        lemma_norm_props(cells[i]);
    }
    let j = join_cells(ncells);
    let o = spec_row(t);
    assert(o.len() == 4 + j.len());
    let inner2 = o.subrange(1, o.len() - 1);
    assert(inner2 =~= seq![' '] + j + seq![' ']);
    lemma_pad_join(ncells);
    let padded = ncells.map_values(|c: Seq<char>| pad_cell(c));
    assert(inner2 == join_with(padded, seq!['|']));
    assert(padded.len() == ncells.len());
    assert forall|i: int| 0 <= i < padded.len() implies #[trigger] no_bar(padded[i]) by {
        assert(padded[i] == pad_cell(ncells[i]));
        assert(no_bar(ncells[i]));
        assert forall|x: int| 0 <= x < padded[i].len() implies padded[i][x] != '|' by {
            if x == 0 || x == padded[i].len() - 1 {
            } else {
                assert(padded[i][x] == ncells[i][x - 1]);
            }
        }
    }
    lemma_cells_of_join(padded);
    assert(spec_cells(inner2) == padded);
    let ncells2 = padded.map_values(|c: Seq<char>| spec_norm_cell(c));
    assert(ncells2 =~~= ncells) by {
        assert(ncells2.len() == ncells.len());
        assert forall|i: int| 0 <= i < ncells2.len() implies ncells2[i] == ncells[i] by {
            assert(ncells2[i] == spec_norm_cell(padded[i]));
            assert(padded[i] == pad_cell(ncells[i]));
            assert(ncells[i] == spec_norm_cell(cells[i]));
            lemma_norm_pad_fixed(cells[i]);
        }
    }
    assert(spec_row(o) == seq!['|', ' '] + join_cells(ncells2) + seq![' ', '|']);
    assert(spec_row(o) == o);
}

/// Processing a processed line again, under the same incoming fence state,
/// reproduces it and the same next state.
pub proof fn lemma_step_idem(l: Seq<char>, st: Option<(char, int)>)
    requires
        crate::text::no_nl(l),
    ensures
        spec_step(spec_step(l, st).0, st) == spec_step(l, st),
{
    let m = spec_fence_marker(spec_trim_start(l));
    let o = spec_step(l, st).0;
    if m is Some || st is Some {
        assert(o == l);
    } else {
        let t = spec_trim(l);
        if is_table_row(t) {
            assert(o == spec_row(t));
            lemma_trim_props(l);
            assert(crate::text::no_nl(t));
            lemma_row_props(t);
            crate::text::lemma_ws_prefix_is(o, 0);
            assert(spec_trim_start(o) =~= o);
            assert(spec_fence_marker(o) is None);
            crate::text::lemma_ws_suffix_is(o, 0);
            assert(spec_trim(o) =~= o);
            assert(is_table_row(o));
            lemma_row_fixed(t);
            assert(spec_step(o, st) == (o, None::<(char, int)>));
        } else {
            assert(o == l);
        }
    }
}

/// Processed lines are newline-free, as many as the input lines, and
/// non-empty wherever the input line was.
pub proof fn lemma_compact_lines_props(ls: Seq<Seq<char>>, st: Option<(char, int)>)
    requires
        forall|i: int| 0 <= i < ls.len() ==> crate::text::no_nl(#[trigger] ls[i]),
    ensures
        spec_compact_lines(ls, st).len() == ls.len(),
        forall|i: int| 0 <= i < ls.len() ==> crate::text::no_nl(
            #[trigger] spec_compact_lines(ls, st)[i],
        ),
        forall|i: int| 0 <= i < ls.len() && ls[i].len() > 0 ==> #[trigger] spec_compact_lines(
            ls,
            st,
        )[i].len() > 0,
    decreases ls.len(),
{
    if ls.len() == 0 {
    } else {
        let stp = spec_step(ls[0], st);
        let rest = ls.skip(1);
        assert forall|i: int| 0 <= i < rest.len() implies crate::text::no_nl(
            #[trigger] rest[i],
        ) by {
            assert(rest[i] == ls[i + 1]);
            assert(crate::text::no_nl(ls[i + 1]));
        }
        lemma_compact_lines_props(rest, stp.1);
        assert(crate::text::no_nl(ls[0]));
        let m = spec_fence_marker(spec_trim_start(ls[0]));
        if m is None && st is None && is_table_row(spec_trim(ls[0])) {
            lemma_trim_props(ls[0]);
            lemma_row_props(spec_trim(ls[0]));
        }
        assert(crate::text::no_nl(stp.0));
        assert(ls[0].len() > 0 ==> stp.0.len() > 0);
        let out = spec_compact_lines(ls, st);
        let rest_out = spec_compact_lines(rest, stp.1);
        assert(out == seq![stp.0] + rest_out);
        assert forall|i: int| 0 <= i < ls.len() implies crate::text::no_nl(#[trigger] out[i]) by {
            if i == 0 {
                assert(out[i] == stp.0);
            } else {
                assert(out[i] == rest_out[i - 1]);
                assert(crate::text::no_nl(rest_out[i - 1]));
            }
        }
        assert forall|i: int| 0 <= i < ls.len() && ls[i].len() > 0 implies #[trigger] out[i].len()
            > 0 by {
            if i == 0 {
                assert(out[i] == stp.0);
            } else {
                assert(out[i] == rest_out[i - 1]);
                assert(rest[i - 1] == ls[i]);
            }
        }
    }
}

/// Processing processed lines again, from the same starting state, changes
/// nothing.
pub proof fn lemma_compact_lines_idem(ls: Seq<Seq<char>>, st: Option<(char, int)>)
    requires
        forall|i: int| 0 <= i < ls.len() ==> crate::text::no_nl(#[trigger] ls[i]),
    ensures
        spec_compact_lines(spec_compact_lines(ls, st), st) == spec_compact_lines(ls, st),
    decreases ls.len(),
{
    if ls.len() == 0 {
    } else {
        let stp = spec_step(ls[0], st);
        let rest = ls.skip(1);
        assert forall|i: int| 0 <= i < rest.len() implies crate::text::no_nl(
            #[trigger] rest[i],
        ) by {
            assert(rest[i] == ls[i + 1]);
            assert(crate::text::no_nl(ls[i + 1]));
        }
        lemma_compact_lines_idem(rest, stp.1);
        assert(crate::text::no_nl(ls[0]));
        lemma_step_idem(ls[0], st);
        let rest_out = spec_compact_lines(rest, stp.1);
        let out = spec_compact_lines(ls, st);
        assert(out == seq![stp.0] + rest_out);
        assert(out[0] == stp.0);
        assert(out.skip(1) =~~= rest_out);
        assert(spec_step(out[0], st) == stp);
        assert(spec_compact_lines(out, st) == seq![stp.0] + spec_compact_lines(rest_out, stp.1));
        assert(spec_compact_lines(rest_out, stp.1) == rest_out);
    }
}

/// Compacting is idempotent: compacting a compacted document changes
/// nothing. The one proviso is that line splitting loses nothing of the
/// document: its last line, if it has any, is non-empty (a document ending
/// in a blank line has that line dropped by line iteration).
pub proof fn lemma_compact_idempotent(x: Seq<char>)
    requires
        spec_lines(x).len() > 0 ==> spec_lines(x).last().len() > 0,
    ensures
        spec_compact(spec_compact(x)) == spec_compact(x),
{
    let ls = spec_lines(x);
    crate::text::lemma_lines_no_nl(x, Seq::empty());
    assert(forall|i: int| 0 <= i < ls.len() ==> crate::text::no_nl(#[trigger] ls[i]));
    let out = spec_compact_lines(ls, None);
    lemma_compact_lines_props(ls, None);
    let y = join_lines(out);
    assert(y == spec_compact(x));
    if out.len() > 0 {
        assert(ls.last().len() > 0);
        assert(out.last() == out[ls.len() - 1]);
        assert(out.last().len() > 0);
    }
    crate::text::lemma_lines_of_join(out);
    assert(spec_lines(y) == out);
    lemma_compact_lines_idem(ls, None);
    assert(spec_compact_lines(out, None) == out);
    assert(spec_compact(y) == join_lines(out));
}

/// Splits on newlines keeping every piece, the one after a final newline
/// included.
pub open spec fn raw_lines_from(s: Seq<char>, cur: Seq<char>) -> Seq<Seq<char>>
    decreases s.len(),
{
    if s.len() == 0 {
        seq![cur]
    } else if s[0] == '\n' {
        seq![cur] + raw_lines_from(s.skip(1), Seq::empty())
    } else {
        raw_lines_from(s.skip(1), cur.push(s[0]))
    }
}

/// The lines of a document followed by a newline and a final newline-free
/// piece: every raw piece of the document, then that piece.
proof fn lemma_lines_with_tail(s: Seq<char>, z: Seq<char>, cur: Seq<char>)
    requires
        crate::text::no_nl(z),
        z.len() > 0,
    ensures
        crate::text::lines_from(s + seq!['\n'] + z, cur) == raw_lines_from(s, cur) + seq![z],
    decreases s.len(),
{
    let w = s + seq!['\n'] + z;
    if s.len() == 0 {
        assert(w[0] == '\n');
        assert(w.skip(1) =~= z);
        crate::text::lemma_lines_from_chunk(z, Seq::empty(), Seq::empty());
        assert(z + Seq::<char>::empty() =~= z);
        assert(Seq::<char>::empty() + z =~= z);
        assert(crate::text::lines_from(z, Seq::empty()) =~~= seq![z]);
        assert(crate::text::lines_from(w, cur) == seq![cur] + seq![z]);
        assert(raw_lines_from(s, cur) + seq![z] =~~= seq![cur] + seq![z]);
    } else {
        assert(w[0] == s[0]);
        assert(w.skip(1) =~= s.skip(1) + seq!['\n'] + z);
        if s[0] == '\n' {
            lemma_lines_with_tail(s.skip(1), z, Seq::empty());
            assert(crate::text::lines_from(w, cur) == seq![cur] + (raw_lines_from(
                s.skip(1),
                Seq::empty(),
            ) + seq![z]));
            assert(seq![cur] + (raw_lines_from(s.skip(1), Seq::empty()) + seq![z]) =~~= (seq![cur]
                + raw_lines_from(s.skip(1), Seq::empty())) + seq![z]);
        } else {
            lemma_lines_with_tail(s.skip(1), z, cur.push(s[0]));
        }
    }
}

/// The raw pieces of a document are its lines, with possibly one empty
/// piece more at the end.
proof fn lemma_raw_vs_lines(s: Seq<char>, cur: Seq<char>)
    ensures
        raw_lines_from(s, cur) == crate::text::lines_from(s, cur) || raw_lines_from(s, cur)
            == crate::text::lines_from(s, cur) + seq![Seq::<char>::empty()],
    decreases s.len(),
{
    if s.len() == 0 {
        if cur.len() == 0 {
            assert(raw_lines_from(s, cur) =~~= crate::text::lines_from(s, cur) + seq![
                Seq::<char>::empty(),
            ]);
        }
    } else if s[0] == '\n' {
        lemma_raw_vs_lines(s.skip(1), Seq::empty());
        if raw_lines_from(s.skip(1), Seq::empty()) == crate::text::lines_from(
            s.skip(1),
            Seq::empty(),
        ) {
        } else {
            assert(seq![cur] + (crate::text::lines_from(s.skip(1), Seq::empty()) + seq![
                Seq::<char>::empty(),
            ]) =~~= (seq![cur] + crate::text::lines_from(s.skip(1), Seq::empty())) + seq![
                Seq::<char>::empty(),
            ]);
        }
    } else {
        lemma_raw_vs_lines(s.skip(1), cur.push(s[0]));
    }
}

/// Whether a line is a backtick fence marker: such a line closes a fence
/// that three backticks opened.
pub open spec fn backtick_fence_line(l: Seq<char>) -> bool {
    match spec_fence_marker(spec_trim_start(l)) {
        Some(m) => m.0 == '`',
        None => false,
    }
}

/// Inside a three-backtick fence, a line that is no backtick fence marker
/// passes through and leaves the fence open.
proof fn lemma_step_in_fence(l: Seq<char>)
    requires
        !backtick_fence_line(l),
    ensures
        spec_step(l, Some(('`', 3int))) == (l, Some(('`', 3int))),
{
    match spec_fence_marker(spec_trim_start(l)) {
        Some(m) => {
            assert(m.0 != '`');
        },
        None => {},
    }
}

/// Lines that a state maps to themselves pass through a processing run
/// without touching what follows.
proof fn lemma_passthrough(ls: Seq<Seq<char>>, tail: Seq<Seq<char>>, st: Option<(char, int)>)
    requires
        forall|i: int| 0 <= i < ls.len() ==> spec_step(#[trigger] ls[i], st) == (ls[i], st),
    ensures
        spec_compact_lines(ls + tail, st) == ls + spec_compact_lines(tail, st),
    decreases ls.len(),
{
    if ls.len() == 0 {
        assert(ls + tail =~~= tail);
        assert(ls + spec_compact_lines(tail, st) =~~= spec_compact_lines(tail, st));
    } else {
        let w = ls + tail;
        assert(w[0] == ls[0]);
        assert(spec_step(ls[0], st) == (ls[0], st));
        assert(w.skip(1) =~~= ls.skip(1) + tail);
        let rest = ls.skip(1);
        assert forall|i: int| 0 <= i < rest.len() implies spec_step(#[trigger] rest[i], st) == (
            rest[i],
            st,
        ) by {
            assert(rest[i] == ls[i + 1]);
            assert(spec_step(ls[i + 1], st) == (ls[i + 1], st));
        }
        lemma_passthrough(rest, tail, st);
        assert(spec_compact_lines(w, st) == seq![ls[0]] + (rest + spec_compact_lines(tail, st)));
        assert(seq![ls[0]] + (rest + spec_compact_lines(tail, st)) =~~= ls + spec_compact_lines(
            tail,
            st,
        ));
    }
}

/// Fence inviolability: a document wrapped in a three-backtick fence passes
/// through compaction unchanged, table-like lines included, provided no
/// line of the wrapped text is itself a backtick fence marker (such a line
/// would close the fence early).
pub proof fn lemma_fence_wrap_unchanged(t: Seq<char>)
    requires
        forall|i: int| 0 <= i < spec_lines(t).len() ==> !backtick_fence_line(
            #[trigger] spec_lines(t)[i],
        ),
    ensures
        spec_compact(seq!['`', '`', '`', '\n'] + t + seq!['\n', '`', '`', '`']) == seq![
            '`', '`', '`', '\n',
        ] + t + seq!['\n', '`', '`', '`'],
{
    let fence = seq!['`', '`', '`'];
    let w = seq!['`', '`', '`', '\n'] + t + seq!['\n', '`', '`', '`'];
    let bt3: Option<(char, int)> = Some(('`', 3));
    assert(crate::text::no_nl(fence));
    assert(fence.len() == 3);
    // The lines of the wrapped document: fence, raw pieces of t, fence.
    let nlrest = seq!['\n'] + t + seq!['\n'] + fence;
    crate::text::lemma_lines_from_chunk(fence, nlrest, Seq::empty());
    assert(w =~= fence + nlrest);
    assert(Seq::<char>::empty() + fence =~= fence);
    assert(crate::text::lines_from(w, Seq::empty()) == crate::text::lines_from(nlrest, fence));
    assert(nlrest[0] == '\n');
    assert(nlrest.skip(1) =~= t + seq!['\n'] + fence);
    lemma_lines_with_tail(t, fence, Seq::empty());
    let raw = raw_lines_from(t, Seq::empty());
    assert(crate::text::lines_from(nlrest, fence) == seq![fence] + (raw + seq![fence]));
    let lw = spec_lines(w);
    assert(lw == seq![fence] + (raw + seq![fence]));
    // No raw piece of t is a backtick fence marker.
    lemma_raw_vs_lines(t, Seq::empty());
    assert(backtick_fence_line(Seq::<char>::empty()) == false) by {
        crate::text::lemma_ws_prefix_is(Seq::empty(), 0);
        assert(spec_trim_start(Seq::<char>::empty()) =~= Seq::<char>::empty());
    }
    assert forall|i: int| 0 <= i < raw.len() implies !backtick_fence_line(#[trigger] raw[i]) by {
        let lt = spec_lines(t);
        if raw == lt {
            assert(raw[i] == lt[i]);
        } else {
            assert(raw == lt + seq![Seq::<char>::empty()]);
            if i < lt.len() {
                assert(raw[i] == lt[i]);
            } else {
                assert(raw[i] == Seq::<char>::empty());
            }
        }
    }
    // The opening fence line opens the fence, the closing one closes it.
    assert(!is_ws(fence[0]));
    crate::text::lemma_ws_prefix_is(fence, 0);
    assert(spec_trim_start(fence) =~= fence);
    lemma_run_of_is(fence, '`', 3);
    assert(spec_fence_marker(fence) == Some(('`', 3int)));
    assert(spec_step(fence, None) == (fence, bt3));
    assert(spec_step(fence, bt3) == (fence, None::<(char, int)>));
    // Assemble the processing of the whole line list.
    assert(lw[0] == fence);
    assert(lw.skip(1) =~~= raw + seq![fence]);
    assert(spec_compact_lines(lw, None) == seq![fence] + spec_compact_lines(raw + seq![fence], bt3));
    assert forall|i: int| 0 <= i < raw.len() implies spec_step(#[trigger] raw[i], bt3) == (
        raw[i],
        bt3,
    ) by {
        lemma_step_in_fence(raw[i]);
    }
    lemma_passthrough(raw, seq![fence], bt3);
    assert(spec_compact_lines(seq![fence], bt3) == seq![fence] + spec_compact_lines(
        Seq::<Seq<char>>::empty(),
        None,
    )) by {
        assert(seq![fence][0] == fence);
        assert(seq![fence].skip(1) =~~= Seq::<Seq<char>>::empty());
    }
    assert(spec_compact_lines(seq![fence], bt3) =~~= seq![fence]);
    assert(spec_compact_lines(lw, None) == seq![fence] + (raw + seq![fence]));
    assert(spec_compact_lines(lw, None) == lw);
    // Rejoining the untouched lines reproduces the document.
    assert(w.last() == '`');
    assert(w.len() > 0);
    crate::text::lemma_join_of_lines(w, Seq::empty());
    assert(Seq::<char>::empty() + w =~= w);
    assert(spec_compact(w) == w);
}

/// `n` copies of `c`.
pub open spec fn char_repeat(c: char, n: nat) -> Seq<char> {
    Seq::new(n, |i: int| c)
}

/// Separator-cell normalization: a cell of one or more dashes with any
/// combination of leading and trailing colons compacts to exactly one of
/// `-`, `:-`, `-:` and `:-:`, the one that keeps its alignment colons.
pub proof fn lemma_separator_cell_normal_form(n: nat, lead: bool, trail: bool)
    requires
        n >= 1,
    ensures
        ({
            let cell = (if lead {
                seq![':']
            } else {
                Seq::<char>::empty()
            }) + char_repeat('-', n) + (if trail {
                seq![':']
            } else {
                Seq::<char>::empty()
            });
            spec_norm_cell(cell) == (if lead {
                seq![':']
            } else {
                Seq::<char>::empty()
            }) + seq!['-'] + (if trail {
                seq![':']
            } else {
                Seq::<char>::empty()
            }) && (spec_norm_cell(cell) == seq!['-'] || spec_norm_cell(cell) == seq![':', '-']
                || spec_norm_cell(cell) == seq!['-', ':'] || spec_norm_cell(cell) == seq![':', '-', ':'])
        }),
{
    let head: Seq<char> = if lead {
        seq![':']
    } else {
        Seq::empty()
    };
    let tail: Seq<char> = if trail {
        seq![':']
    } else {
        Seq::empty()
    };
    let cell = head + char_repeat('-', n) + tail;
    assert(cell.len() == head.len() + n + tail.len());
    assert forall|i: int| 0 <= i < cell.len() implies (cell[i] == '-' || cell[i] == ':') by {
        if i < head.len() {
            assert(cell[i] == ':');
        } else if i < head.len() + n {
            assert(cell[i] == char_repeat('-', n)[i - head.len()]);
        } else {
            assert(cell[i] == tail[i - head.len() - n]);
        }
    }
    assert(!is_ws(cell[0]));
    assert(!is_ws(cell[cell.len() - 1]));
    crate::text::lemma_ws_prefix_is(cell, 0);
    crate::text::lemma_ws_suffix_is(cell, 0);
    let t = spec_trim(cell);
    assert(t =~= cell);
    assert(is_sep_cell(t));
    if lead {
        assert(t[0] == ':');
    } else {
        assert(t[0] == char_repeat('-', n)[0]);
        assert(t[0] == '-');
    }
    if trail {
        assert(t.last() == ':');
    } else {
        assert(t.last() == char_repeat('-', n)[n - 1]);
        assert(t.last() == '-');
    }
    assert(spec_norm_cell(cell) == (if lead {
        seq![':']
    } else {
        Seq::<char>::empty()
    }) + seq!['-'] + (if trail {
        seq![':']
    } else {
        Seq::<char>::empty()
    }));
    if lead && trail {
        assert(spec_norm_cell(cell) =~= seq![':', '-', ':']);
    } else if lead {
        assert(spec_norm_cell(cell) =~= seq![':', '-']);
    } else if trail {
        assert(spec_norm_cell(cell) =~= seq!['-', ':']);
    } else {
        assert(spec_norm_cell(cell) =~= seq!['-']);
    }
}

fn fence_marker_vec(v: &Vec<char>) -> (r: Option<(char, usize)>)
    ensures
        r is None <==> spec_fence_marker(v@) is None,
        r matches Some(p) ==> spec_fence_marker(v@) == Some((p.0, p.1 as int)),
{
    if v.len() == 0 {
        return None;
    }
    let c = v[0];
    if c != '`' && c != '~' {
        return None;
    }
    let n: usize = v.len();
    let mut i: usize = 0;
    while i < n && v[i] == c
        invariant
            i <= n,
            n == v@.len(),
            forall|j: int| 0 <= j < i ==> v@[j] == c,
        decreases n - i,
    {
        i = i + 1;
    }
    proof {
        lemma_run_of_is(v@, c, i as int);
    }
    if i >= 3 {
        Some((c, i))
    } else {
        None
    }
}

/// Reads the fence marker of a line, if any: the fence character and the
/// length of its run.
pub fn fence_marker(line: &str) -> (r: Option<(char, usize)>)
    ensures
        r is None <==> spec_fence_marker(line@) is None,
        r matches Some(p) ==> spec_fence_marker(line@) == Some((p.0, p.1 as int)),
{
    let v: Vec<char> = chars_of(line);
    fence_marker_vec(&v)
}

fn is_sep_vec(t: &Vec<char>) -> (r: bool)
    ensures
        r == is_sep_cell(t@),
{
    if t.len() == 0 {
        return false;
    }
    let n: usize = t.len();
    let mut i: usize = 0;
    let mut ok: bool = true;
    while i < n
        invariant
            i <= n,
            n == t@.len(),
            ok <==> (forall|j: int| 0 <= j < i ==> t@[j] == '-' || t@[j] == ':'),
        decreases n - i,
    {
        if !(t[i] == '-' || t[i] == ':') {
            ok = false;
        }
        i = i + 1;
    }
    ok
}

fn norm_cell(c: &Vec<char>) -> (r: Vec<char>)
    ensures
        r@ == spec_norm_cell(c@),
{
    let t = trim_chars(c);
    if is_sep_vec(&t) {
        let mut r: Vec<char> = Vec::new();
        if t[0] == ':' {
            r.push(':');
        }
        r.push('-');
        if t[t.len() - 1] == ':' {
            r.push(':');
        }
        proof {
            assert(t@.last() == t@[t@.len() - 1]);
            assert(r@ =~= spec_norm_cell(c@));
        }
        r
    } else {
        t
    }
}

fn split_cells(inner: &Vec<char>) -> (cs: Vec<Vec<char>>)
    ensures
        views(cs@) == spec_cells(inner@),
{
    let n: usize = inner.len();
    let mut cs: Vec<Vec<char>> = Vec::new();
    let mut cur: Vec<char> = Vec::new();
    let mut i: usize = 0;
    proof {
        assert(inner@.skip(0) =~= inner@);
        assert(views(cs@) =~~= Seq::<Seq<char>>::empty());
        assert(Seq::<Seq<char>>::empty() + cells_from(inner@, Seq::empty()) =~~= cells_from(
            inner@,
            Seq::empty(),
        ));
    }
    while i < n
        invariant
            i <= n,
            n == inner@.len(),
            spec_cells(inner@) == views(cs@) + cells_from(inner@.skip(i as int), cur@),
        decreases n - i,
    {
        let ghost cs0 = cs@;
        let ghost cur0 = cur@;
        proof {
            assert(inner@.skip(i as int)[0] == inner@[i as int]);
            assert(inner@.skip(i as int).skip(1) =~= inner@.skip(i + 1));
        }
        let c = inner[i];
        if c == '|' {
            cs.push(cur);
            cur = Vec::new();
            proof {
                assert(views(cs@) =~~= views(cs0) + seq![cur0]);
                assert(cells_from(inner@.skip(i as int), cur0)
                    == seq![cur0] + cells_from(inner@.skip(i + 1), Seq::empty()));
                assert(views(cs0) + (seq![cur0] + cells_from(inner@.skip(i + 1), Seq::empty()))
                    =~~= (views(cs0) + seq![cur0]) + cells_from(inner@.skip(i + 1), Seq::empty()));
            }
        } else {
            cur.push(c);
            proof {
                assert(cells_from(inner@.skip(i as int), cur0)
                    == cells_from(inner@.skip(i + 1), cur0.push(inner@[i as int])));
            }
        }
        i = i + 1;
    }
    let ghost cs0 = cs@;
    let ghost cur0 = cur@;
    cs.push(cur);
    proof {
        assert(inner@.skip(n as int) =~= Seq::<char>::empty());
        assert(cells_from(Seq::<char>::empty(), cur0) == seq![cur0]);
        assert(views(cs@) =~~= views(cs0) + seq![cur0]);
    }
    cs
}

fn row_vec(v: &Vec<char>) -> (r: Vec<char>)
    requires
        v@.len() >= 2,
    ensures
        r@ == spec_row(v@),
{
    let inner = sub_chars(v, 1, v.len() - 1);
    let cs = split_cells(&inner);
    let mut norm: Vec<Vec<char>> = Vec::new();
    let n: usize = cs.len();
    let mut k: usize = 0;
    while k < n
        invariant
            k <= n,
            n == cs@.len(),
            views(cs@) == spec_cells(inner@),
            norm@.len() == k,
            forall|j: int| 0 <= j < k ==> views(norm@)[j] == spec_norm_cell(views(cs@)[j]),
        decreases n - k,
    {
        let ghost norm0 = norm@;
        let cell: &Vec<char> = &cs[k];
        let nc = norm_cell(cell);
        let ghost ncv = nc@;
        norm.push(nc);
        proof {
            assert forall|j: int| 0 <= j < k + 1 implies views(norm@)[j] == spec_norm_cell(
                views(cs@)[j],
            ) by {
                if j < k {
                    assert(norm@[j] == norm0[j]);
                    assert(views(norm@)[j] == views(norm0)[j]);
                } else {
                    assert(views(norm@)[j] == ncv);
                    assert(views(cs@)[j] == cell@);
                }
            }
        }
        k = k + 1;
    }
    proof {
        assert(views(norm@) =~~= views(cs@).map_values(|c: Seq<char>| spec_norm_cell(c)));
    }
    let mut sep: Vec<char> = Vec::new();
    sep.push(' ');
    sep.push('|');
    sep.push(' ');
    proof {
        assert(sep@ =~= seq![' ', '|', ' ']);
    }
    let mid = join_chars(&norm, &sep);
    let mut out: Vec<char> = Vec::new();
    out.push('|');
    out.push(' ');
    push_sub(&mut out, &mid, 0, mid.len());
    out.push(' ');
    out.push('|');
    proof {
        assert(mid@.subrange(0, mid@.len() as int) =~= mid@);
        assert(out@ =~= spec_row(v@));
    }
    out
}

/// Compacts one table row: the trimmed row with every cell trimmed,
/// separator cells reduced to their alignment form, and single-space
/// padding around each bar.
pub fn compact_table_row(row: &str) -> (r: String)
    requires
        is_table_row(row@),
    ensures
        r@ == spec_row(row@),
{
    let v: Vec<char> = chars_of(row);
    let out = row_vec(&v);
    string_from_chars(&out)
}

/// Compacts every Markdown table row of a document, leaving fenced code
/// blocks and all other lines untouched.
pub fn compact_markdown(md: &str) -> (r: String)
    ensures
        r@ == spec_compact(md@),
{
    let v: Vec<char> = chars_of(md);
    let ls = split_lines(&v);
    let ghost all: Seq<Seq<char>> = views(ls@);
    let n: usize = ls.len();
    let mut out_lines: Vec<Vec<char>> = Vec::new();
    let mut in_fence: bool = false;
    let mut fc: char = ' ';
    let mut flen: usize = 0;
    let mut i: usize = 0;
    proof {
        assert(all.skip(0) =~~= all);
        assert(views(out_lines@) =~~= Seq::<Seq<char>>::empty());
        assert(Seq::<Seq<char>>::empty() + spec_compact_lines(all, None::<(char, int)>)
            =~~= spec_compact_lines(all, None::<(char, int)>));
    }
    while i < n
        invariant
            i <= n,
            n == ls@.len(),
            all == views(ls@),
            all == spec_lines(md@),
            spec_compact_lines(all, None::<(char, int)>) == views(out_lines@)
                + spec_compact_lines(
                all.skip(i as int),
                if in_fence {
                    Some((fc, flen as int))
                } else {
                    None
                },
            ),
        decreases n - i,
    {
        let ghost st: Option<(char, int)> = if in_fence {
            Some((fc, flen as int))
        } else {
            None
        };
        let ghost out0 = views(out_lines@);
        let line: &Vec<char> = &ls[i];
        proof {
            assert(all[i as int] == line@);
            assert(all.skip(i as int)[0] == all[i as int]);
            assert(all.skip(i as int).skip(1) =~~= all.skip(i + 1));
        }
        let lo = ws_prefix(line);
        proof {
            lemma_ws_prefix(line@);
        }
        let lt = sub_chars(line, lo, line.len());
        proof {
            assert(lt@ =~= spec_trim_start(line@));
        }
        let m = fence_marker_vec(&lt);
        let ghost step = spec_step(line@, st);
        match m {
            Some((c, k)) if !in_fence => {
                let copy = sub_chars(line, 0, line.len());
                proof {
                    assert(copy@ =~= line@);
                }
                out_lines.push(copy);
                in_fence = true;
                fc = c;
                flen = k;
                proof {
                    assert(step == (line@, Some((c, k as int))));
                }
            },
            Some((c, k)) if c == fc && k >= flen => {
                let copy = sub_chars(line, 0, line.len());
                proof {
                    assert(copy@ =~= line@);
                }
                out_lines.push(copy);
                in_fence = false;
                proof {
                    assert(step == (line@, None::<(char, int)>));
                }
            },
            _ => {
                if in_fence {
                    let copy = sub_chars(line, 0, line.len());
                    proof {
                        assert(copy@ =~= line@);
                    }
                    out_lines.push(copy);
                    proof {
                        assert(step == (line@, st));
                    }
                } else {
                    let t = trim_chars(line);
                    if t.len() > 1 && t[0] == '|' && t[t.len() - 1] == '|' {
                        proof {
                            assert(t@.last() == t@[t@.len() - 1]);
                            assert(is_table_row(t@));
                        }
                        let rv = row_vec(&t);
                        out_lines.push(rv);
                        proof {
                            assert(step == (spec_row(spec_trim(line@)), None::<(char, int)>));
                        }
                    } else {
                        let copy = sub_chars(line, 0, line.len());
                        proof {
                            assert(copy@ =~= line@);
                            assert(!is_table_row(spec_trim(line@)));
                        }
                        out_lines.push(copy);
                        proof {
                            assert(step == (line@, None::<(char, int)>));
                        }
                    }
                }
            },
        }
        proof {
            assert(views(out_lines@) =~~= out0 + seq![step.0]);
            assert(spec_compact_lines(all.skip(i as int), st) == seq![step.0]
                + spec_compact_lines(all.skip(i + 1), step.1));
            assert(out0 + (seq![step.0] + spec_compact_lines(all.skip(i + 1), step.1))
                =~~= (out0 + seq![step.0]) + spec_compact_lines(all.skip(i + 1), step.1));
        }
        i = i + 1;
    }
    proof {
        assert(all.skip(n as int) =~~= Seq::<Seq<char>>::empty());
        assert(views(out_lines@) + Seq::<Seq<char>>::empty() =~~= views(out_lines@));
    }
    let mut nl: Vec<char> = Vec::new();
    nl.push('\n');
    proof {
        assert(nl@ =~= seq!['\n']);
    }
    let joined = join_chars(&out_lines, &nl);
    string_from_chars(&joined)
}

} // verus!
