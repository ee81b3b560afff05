//! Character-sequence primitives shared by the transforms: ASCII whitespace,
//! trimming, and newline-delimited line splitting and joining.

use vstd::prelude::*;

verus! {

/// ASCII whitespace, the set used for trimming and for separating a link
/// destination from its title.
pub open spec fn is_ws(c: char) -> bool {
    c == ' ' || c == '\t' || c == '\n' || c == '\r' || c == '\x0c'
}

/// Whether a line holds no newline character.
pub open spec fn no_nl(l: Seq<char>) -> bool {
    forall|j: int| 0 <= j < l.len() ==> l[j] != '\n'
}

/// Length of the run of whitespace at the front of `s`.
pub open spec fn ws_prefix_len(s: Seq<char>) -> int
    decreases s.len(),
{
    if s.len() > 0 && is_ws(s[0]) {
        1 + ws_prefix_len(s.skip(1))
    } else {
        0
    }
}

/// Length of the run of whitespace at the back of `s`.
pub open spec fn ws_suffix_len(s: Seq<char>) -> int
    decreases s.len(),
{
    if s.len() > 0 && is_ws(s.last()) {
        1 + ws_suffix_len(s.drop_last())
    } else {
        0
    }
}

/// `s` with leading whitespace removed.
pub open spec fn spec_trim_start(s: Seq<char>) -> Seq<char> {
    s.skip(ws_prefix_len(s))
}

/// `s` with leading and trailing whitespace removed.
pub open spec fn spec_trim(s: Seq<char>) -> Seq<char> {
    let lo = ws_prefix_len(s);
    if lo == s.len() {
        Seq::empty()
    } else {
        s.subrange(lo, s.len() - ws_suffix_len(s))
    }
}

pub proof fn lemma_ws_prefix(s: Seq<char>)
    ensures
        0 <= ws_prefix_len(s) <= s.len(),
        forall|i: int| 0 <= i < ws_prefix_len(s) ==> is_ws(s[i]),
        ws_prefix_len(s) < s.len() ==> !is_ws(s[ws_prefix_len(s)]),
    decreases s.len(),
{
    if s.len() > 0 && is_ws(s[0]) {
        lemma_ws_prefix(s.skip(1));
        assert forall|i: int| 0 <= i < ws_prefix_len(s) implies is_ws(s[i]) by {
            if i > 0 {
                assert(s.skip(1)[i - 1] == s[i]);
            }
        }
        if ws_prefix_len(s) < s.len() {
            assert(s.skip(1)[ws_prefix_len(s) - 1] == s[ws_prefix_len(s)]);
        }
    }
}

/// The whitespace prefix length is pinned down by its first-non-whitespace
/// characterization.
pub proof fn lemma_ws_prefix_is(s: Seq<char>, k: int)
    requires
        0 <= k <= s.len(),
        forall|j: int| 0 <= j < k ==> is_ws(s[j]),
        k < s.len() ==> !is_ws(s[k]),
    ensures
        ws_prefix_len(s) == k,
    decreases s.len(),
{
    if k == 0 {
    } else {
        assert(is_ws(s[0]));
        assert forall|j: int| 0 <= j < k - 1 implies is_ws(s.skip(1)[j]) by {
            assert(s.skip(1)[j] == s[j + 1]);
        }
        if k - 1 < s.skip(1).len() {
            assert(s.skip(1)[k - 1] == s[k]);
        }
        lemma_ws_prefix_is(s.skip(1), k - 1);
    }
}

pub proof fn lemma_ws_suffix(s: Seq<char>)
    ensures
        0 <= ws_suffix_len(s) <= s.len(),
        forall|i: int| s.len() - ws_suffix_len(s) <= i < s.len() ==> is_ws(s[i]),
        ws_suffix_len(s) < s.len() ==> !is_ws(s[s.len() - ws_suffix_len(s) - 1]),
    decreases s.len(),
{
    if s.len() > 0 && is_ws(s.last()) {
        lemma_ws_suffix(s.drop_last());
        assert forall|i: int| s.len() - ws_suffix_len(s) <= i < s.len() implies is_ws(s[i]) by {
            if i < s.len() - 1 {
                assert(s.drop_last()[i] == s[i]);
            }
        }
        if ws_suffix_len(s) < s.len() {
            assert(s.drop_last()[s.len() - ws_suffix_len(s) - 1] == s[s.len() - ws_suffix_len(s) - 1]);
        }
    }
}

/// The whitespace suffix length is pinned down by its last-non-whitespace
/// characterization.
pub proof fn lemma_ws_suffix_is(s: Seq<char>, k: int)
    requires
        0 <= k <= s.len(),
        forall|j: int| s.len() - k <= j < s.len() ==> is_ws(s[j]),
        k < s.len() ==> !is_ws(s[s.len() - k - 1]),
    ensures
        ws_suffix_len(s) == k,
    decreases s.len(),
{
    if k == 0 {
    } else {
        assert(is_ws(s.last()));
        assert forall|j: int| s.drop_last().len() - (k - 1) <= j < s.drop_last().len()
            implies is_ws(s.drop_last()[j]) by {
            assert(s.drop_last()[j] == s[j]);
        }
        if k - 1 < s.drop_last().len() {
            assert(s.drop_last()[s.drop_last().len() - (k - 1) - 1] == s[s.len() - k - 1]);
        }
        lemma_ws_suffix_is(s.drop_last(), k - 1);
    }
}

/// Splits `s` on newlines, `cur` being the partial line read so far; a final
/// empty partial line yields no extra entry, mirroring how line iteration
/// treats a trailing newline.
pub open spec fn lines_from(s: Seq<char>, cur: Seq<char>) -> Seq<Seq<char>>
    decreases s.len(),
{
    if s.len() == 0 {
        if cur.len() == 0 {
            Seq::empty()
        } else {
            seq![cur]
        }
    } else if s[0] == '\n' {
        seq![cur] + lines_from(s.skip(1), Seq::empty())
    } else {
        lines_from(s.skip(1), cur.push(s[0]))
    }
}

/// The lines of a document: newline-delimited pieces, with the empty piece
/// after a final newline dropped.
pub open spec fn spec_lines(s: Seq<char>) -> Seq<Seq<char>> {
    lines_from(s, Seq::empty())
}

/// Pieces rejoined with `sep` between neighbours.
pub open spec fn join_with(ls: Seq<Seq<char>>, sep: Seq<char>) -> Seq<char>
    decreases ls.len(),
{
    if ls.len() == 0 {
        Seq::empty()
    } else if ls.len() == 1 {
        ls[0]
    } else {
        ls[0] + sep + join_with(ls.skip(1), sep)
    }
}

/// Lines rejoined with a single newline between them.
pub open spec fn join_lines(ls: Seq<Seq<char>>) -> Seq<char> {
    join_with(ls, seq!['\n'])
}

/// What is still to be emitted when the first `i` pieces of a join are done.
pub open spec fn join_rest(ls: Seq<Seq<char>>, sep: Seq<char>, i: int) -> Seq<char> {
    if i <= 0 {
        join_with(ls, sep)
    } else if i >= ls.len() {
        Seq::empty()
    } else {
        sep + join_with(ls.skip(i), sep)
    }
}

/// One step of a join: emitting piece `i` (preceded by the separator when it
/// is not the first) accounts for the difference between rests.
pub proof fn lemma_join_step(ls: Seq<Seq<char>>, sep: Seq<char>, i: int)
    requires
        0 <= i < ls.len(),
    ensures
        join_rest(ls, sep, i) == (if i == 0 {
            ls[0]
        } else {
            sep + ls[i]
        }) + join_rest(ls, sep, i + 1),
{
    if i == 0 {
        if ls.len() == 1 {
            assert(join_rest(ls, sep, 0) =~= ls[0] + join_rest(ls, sep, 1));
        } else {
            assert(join_with(ls, sep) =~= ls[0] + (sep + join_with(ls.skip(1), sep)));
        }
    } else {
        let tail = ls.skip(i);
        assert(tail[0] == ls[i]);
        if tail.len() == 1 {
            assert(join_rest(ls, sep, i) =~= (sep + ls[i]) + join_rest(ls, sep, i + 1));
        } else {
            assert(tail.skip(1) =~= ls.skip(i + 1));
            assert(join_with(tail, sep) == tail[0] + sep + join_with(tail.skip(1), sep));
            assert(sep + (ls[i] + sep + join_with(ls.skip(i + 1), sep))
                =~= (sep + ls[i]) + (sep + join_with(ls.skip(i + 1), sep)));
        }
    }
}

/// The views of a sequence of character vectors.
pub open spec fn views(ls: Seq<Vec<char>>) -> Seq<Seq<char>> {
    Seq::new(ls.len(), |i: int| ls[i]@)
}

/// Splitting consumes a newline-free chunk by appending it to the partial
/// line.
pub proof fn lemma_lines_from_chunk(a: Seq<char>, b: Seq<char>, cur: Seq<char>)
    requires
        no_nl(a),
    ensures
        lines_from(a + b, cur) == lines_from(b, cur + a),
    decreases a.len(),
{
    if a.len() == 0 {
        assert(a + b =~= b);
        assert(cur + a =~= cur);
    } else {
        assert((a + b)[0] == a[0]);
        assert(a[0] != '\n');
        assert((a + b).skip(1) =~= a.skip(1) + b);
        assert(forall|j: int| 0 <= j < a.skip(1).len() ==> a.skip(1)[j] == a[j + 1]);
        lemma_lines_from_chunk(a.skip(1), b, cur.push(a[0]));
        assert(cur.push(a[0]) + a.skip(1) =~= cur + a);
    }
}

/// Every line produced by splitting is newline-free.
pub proof fn lemma_lines_no_nl(s: Seq<char>, cur: Seq<char>)
    requires
        no_nl(cur),
    ensures
        forall|i: int| 0 <= i < lines_from(s, cur).len() ==> #[trigger] no_nl(lines_from(s, cur)[i]),
    decreases s.len(),
{
    let r = lines_from(s, cur);
    if s.len() == 0 {
        if cur.len() > 0 {
            assert(r =~~= seq![cur]);
            assert forall|i: int| 0 <= i < r.len() implies #[trigger] no_nl(r[i]) by {
                assert(r[i] == cur);
            }
        }
    } else if s[0] == '\n' {
        let tail = lines_from(s.skip(1), Seq::empty());
        lemma_lines_no_nl(s.skip(1), Seq::empty());
        assert(r == seq![cur] + tail);
        assert forall|i: int| 0 <= i < r.len() implies #[trigger] no_nl(r[i]) by {
            if i == 0 {
                assert(r[i] == cur);
            } else {
                assert(r[i] == tail[i - 1]);
            }
        }
    } else {
        let cur2 = cur.push(s[0]);
        assert(no_nl(cur2)) by {
            assert forall|j: int| 0 <= j < cur2.len() implies cur2[j] != '\n' by {
                if j < cur.len() {
                    assert(cur2[j] == cur[j]);
                } else {
                    assert(cur2[j] == s[0]);
                }
            }
        }
        lemma_lines_no_nl(s.skip(1), cur2);
        assert(r == lines_from(s.skip(1), cur2));
    }
}

/// A single non-empty newline-free line splits to itself.
proof fn lemma_lines_single(l: Seq<char>)
    requires
        no_nl(l),
        l.len() > 0,
    ensures
        spec_lines(l) == seq![l],
{
    lemma_lines_from_chunk(l, Seq::empty(), Seq::empty());
    assert(l + Seq::<char>::empty() =~= l);
    assert(Seq::<char>::empty() + l =~= l);
    assert(lines_from(Seq::<char>::empty(), l) =~~= seq![l]);
}

/// Joining and re-splitting gives the lines back, provided each line is
/// newline-free and the last one is non-empty.
pub proof fn lemma_lines_of_join(ls: Seq<Seq<char>>)
    requires
        forall|i: int| 0 <= i < ls.len() ==> #[trigger] no_nl(ls[i]),
        ls.len() > 0 ==> ls.last().len() > 0,
    ensures
        spec_lines(join_lines(ls)) == ls,
    decreases ls.len(),
{
    if ls.len() == 0 {
    } else if ls.len() == 1 {
        assert(no_nl(ls[0]));
        assert(ls.last() == ls[0]);
        lemma_lines_single(ls[0]);
        assert(join_lines(ls) == ls[0]);
        assert(seq![ls[0]] =~~= ls);
    } else {
        let rest = ls.skip(1);
        assert(rest.len() == ls.len() - 1);
        assert(rest.last() == ls.last());
        assert forall|i: int| 0 <= i < rest.len() implies #[trigger] no_nl(rest[i]) by {
            assert(rest[i] == ls[i + 1]);
            assert(no_nl(ls[i + 1]));
        }
        lemma_lines_of_join(rest);
        let jr = join_lines(rest);
        let j = join_lines(ls);
        assert(j == ls[0] + seq!['\n'] + jr);
        assert(no_nl(ls[0]));
        let nl_rest = seq!['\n'] + jr;
        lemma_lines_from_chunk(ls[0], nl_rest, Seq::empty());
        assert(ls[0] + seq!['\n'] + jr =~= ls[0] + nl_rest);
        assert(Seq::<char>::empty() + ls[0] =~= ls[0]);
        assert(lines_from(j, Seq::empty()) == lines_from(nl_rest, ls[0]));
        assert(nl_rest[0] == '\n');
        assert(nl_rest.skip(1) =~= jr);
        assert(lines_from(nl_rest, ls[0]) == seq![ls[0]] + lines_from(jr, Seq::empty()));
        assert(lines_from(jr, Seq::empty()) == rest);
        assert(seq![ls[0]] + rest =~~= ls);
    }
}

/// A non-empty document has at least one line.
pub proof fn lemma_lines_from_len(s: Seq<char>, cur: Seq<char>)
    requires
        s.len() > 0,
    ensures
        lines_from(s, cur).len() >= 1,
    decreases s.len(),
{
    if s[0] == '\n' {
    } else if s.len() == 1 {
        assert(lines_from(s, cur) == lines_from(s.skip(1), cur.push(s[0])));
        assert(s.skip(1).len() == 0);
        assert(cur.push(s[0]).len() > 0);
        assert(lines_from(s.skip(1), cur.push(s[0])) == seq![cur.push(s[0])]);
    } else {
        lemma_lines_from_len(s.skip(1), cur.push(s[0]));
    }
}

/// Splitting and rejoining reproduces the document, provided it does not
/// end in a newline.
pub proof fn lemma_join_of_lines(s: Seq<char>, cur: Seq<char>)
    requires
        s.len() > 0,
        s.last() != '\n',
    ensures
        join_lines(lines_from(s, cur)) == cur + s,
    decreases s.len(),
{
    if s.len() == 1 {
        assert(s[0] == s.last());
        assert(lines_from(s, cur) == lines_from(s.skip(1), cur.push(s[0])));
        assert(s.skip(1).len() == 0);
        assert(cur.push(s[0]).len() > 0);
        assert(lines_from(s.skip(1), cur.push(s[0])) == seq![cur.push(s[0])]);
        assert(join_lines(seq![cur.push(s[0])]) == cur.push(s[0]));
        assert(cur.push(s[0]) =~= cur + s);
    } else if s[0] == '\n' {
        let x = lines_from(s.skip(1), Seq::empty());
        assert(s.skip(1).last() == s.last());
        lemma_join_of_lines(s.skip(1), Seq::empty());
        assert(join_lines(x) == Seq::<char>::empty() + s.skip(1));
        assert(Seq::<char>::empty() + s.skip(1) =~= s.skip(1));
        lemma_lines_from_len(s.skip(1), Seq::empty());
        let all = seq![cur] + x;
        assert(lines_from(s, cur) == all);
        assert(all.len() >= 2);
        assert(all[0] == cur);
        assert(all.skip(1) =~~= x);
        assert(join_lines(all) == cur + seq!['\n'] + join_lines(x));
        assert(cur + seq!['\n'] + s.skip(1) =~= cur + s);
    } else {
        assert(s.skip(1).last() == s.last());
        lemma_join_of_lines(s.skip(1), cur.push(s[0]));
        assert(lines_from(s, cur) == lines_from(s.skip(1), cur.push(s[0])));
        assert(cur.push(s[0]) + s.skip(1) =~= cur + s);
    }
}

/// The characters of a string, as a vector.
pub fn chars_of(s: &str) -> (v: Vec<char>)
    ensures
        v@ == s@,
{
    let n: usize = s.unicode_len();
    let mut v: Vec<char> = Vec::new();
    let mut i: usize = 0;
    while i < n
        invariant
            n == s@.len(),
            i <= n,
            v@ == s@.take(i as int),
        decreases n - i,
    {
        let c = s.get_char(i);
        v.push(c);
        proof {
            assert(s@.take(i + 1) =~= s@.take(i as int).push(s@[i as int]));
        }
        i = i + 1;
    }
    proof {
        assert(s@.take(n as int) =~= s@);
    }
    v
}

/// Relies on `String`'s `FromIterator<char>` impl from std: collecting
/// characters yields the string whose character sequence is exactly the
/// input.
#[verifier::external_body]
pub(crate) fn string_from_chars(v: &Vec<char>) -> (s: String)
    ensures
        s@ == v@,
{
    v.iter().collect()
}

/// Appends `v[from..to]` onto `out`.
pub fn push_sub(out: &mut Vec<char>, v: &Vec<char>, from: usize, to: usize)
    requires
        from <= to <= v@.len(),
    ensures
        final(out)@ == old(out)@ + v@.subrange(from as int, to as int),
{
    let mut i: usize = from;
    while i < to
        invariant
            from <= i <= to <= v@.len(),
            out@ == old(out)@ + v@.subrange(from as int, i as int),
        decreases to - i,
    {
        let c = v[i];
        out.push(c);
        proof {
            assert(v@.subrange(from as int, i + 1)
                =~= v@.subrange(from as int, i as int).push(v@[i as int]));
        }
        i = i + 1;
    }
}

/// The copy of `v[from..to]`.
pub fn sub_chars(v: &Vec<char>, from: usize, to: usize) -> (r: Vec<char>)
    requires
        from <= to <= v@.len(),
    ensures
        r@ == v@.subrange(from as int, to as int),
{
    let mut r: Vec<char> = Vec::new();
    push_sub(&mut r, v, from, to);
    proof {
        assert(Seq::<char>::empty() + v@.subrange(from as int, to as int)
            =~= v@.subrange(from as int, to as int));
    }
    r
}

/// Whether `c` is ASCII whitespace.
pub fn ws_char(c: char) -> (r: bool)
    ensures
        r == is_ws(c),
{
    c == ' ' || c == '\t' || c == '\n' || c == '\r' || c == '\x0c'
}

/// The index of the first non-whitespace character of `v`, or its length.
pub fn ws_prefix(v: &Vec<char>) -> (lo: usize)
    ensures
        lo as int == ws_prefix_len(v@),
{
    let n: usize = v.len();
    let mut i: usize = 0;
    while i < n && ws_char(v[i])
        invariant
            n == v@.len(),
            i <= n,
            forall|j: int| 0 <= j < i ==> is_ws(v@[j]),
        decreases n - i,
    {
        i = i + 1;
    }
    proof {
        lemma_ws_prefix_is(v@, i as int);
    }
    i
}

/// The length of the whitespace run at the back of `v`.
pub fn ws_suffix(v: &Vec<char>) -> (q: usize)
    ensures
        q as int == ws_suffix_len(v@),
{
    let n: usize = v.len();
    let mut i: usize = n;
    while i > 0 && ws_char(v[i - 1])
        invariant
            n == v@.len(),
            i <= n,
            forall|j: int| i <= j < n ==> is_ws(v@[j]),
        decreases i,
    {
        i = i - 1;
    }
    proof {
        lemma_ws_suffix_is(v@, n - i);
    }
    n - i
}

/// The copy of `v` with surrounding whitespace removed.
pub fn trim_chars(v: &Vec<char>) -> (t: Vec<char>)
    ensures
        t@ == spec_trim(v@),
{
    let lo: usize = ws_prefix(v);
    if lo == v.len() {
        let t: Vec<char> = Vec::new();
        return t;
    }
    let q: usize = ws_suffix(v);
    proof {
        lemma_ws_prefix(v@);
        lemma_ws_suffix(v@);
        if v@.len() - q <= lo {
            assert(is_ws(v@[lo as int]));
            assert(false);
        }
    }
    sub_chars(v, lo, v.len() - q)
}

/// Splits `v` into its lines.
pub fn split_lines(v: &Vec<char>) -> (ls: Vec<Vec<char>>)
    ensures
        views(ls@) == spec_lines(v@),
{
    let n: usize = v.len();
    let mut ls: Vec<Vec<char>> = Vec::new();
    let mut cur: Vec<char> = Vec::new();
    let mut i: usize = 0;
    proof {
        assert(v@.skip(0) =~= v@);
        assert(views(ls@) =~~= Seq::<Seq<char>>::empty());
        assert(Seq::<Seq<char>>::empty() + lines_from(v@, Seq::empty()) =~~= lines_from(
            v@,
            Seq::empty(),
        ));
    }
    while i < n
        invariant
            i <= n,
            n == v@.len(),
            spec_lines(v@) == views(ls@) + lines_from(v@.skip(i as int), cur@),
        decreases n - i,
    {
        let ghost ls0 = ls@;
        let ghost cur0 = cur@;
        proof {
            assert(v@.skip(i as int)[0] == v@[i as int]);
            assert(v@.skip(i as int).skip(1) =~= v@.skip(i + 1));
        }
        let c = v[i];
        if c == '\n' {
            ls.push(cur);
            cur = Vec::new();
            proof {
                assert(views(ls@) =~~= views(ls0) + seq![cur0]);
                assert(lines_from(v@.skip(i as int), cur0)
                    == seq![cur0] + lines_from(v@.skip(i + 1), Seq::empty()));
                assert(views(ls0) + (seq![cur0] + lines_from(v@.skip(i + 1), Seq::empty()))
                    =~~= (views(ls0) + seq![cur0]) + lines_from(v@.skip(i + 1), Seq::empty()));
            }
        } else {
            cur.push(c);
            proof {
                assert(lines_from(v@.skip(i as int), cur0)
                    == lines_from(v@.skip(i + 1), cur0.push(v@[i as int])));
            }
        }
        i = i + 1;
    }
    proof {
        assert(v@.skip(n as int) =~= Seq::<char>::empty());
    }
    if cur.len() > 0 {
        let ghost ls0 = ls@;
        let ghost cur0 = cur@;
        ls.push(cur);
        proof {
            assert(views(ls@) =~~= views(ls0) + seq![cur0]);
            assert(lines_from(Seq::<char>::empty(), cur0) == seq![cur0]);
        }
    } else {
        proof {
            assert(lines_from(Seq::<char>::empty(), cur@) =~~= Seq::<Seq<char>>::empty());
            assert(views(ls@) + Seq::<Seq<char>>::empty() =~~= views(ls@));
        }
    }
    ls
}

/// Joins the pieces of `ls` with `sep` between neighbours.
pub fn join_chars(ls: &Vec<Vec<char>>, sep: &Vec<char>) -> (r: Vec<char>)
    ensures
        r@ == join_with(views(ls@), sep@),
{
    let n: usize = ls.len();
    let mut out: Vec<char> = Vec::new();
    let mut i: usize = 0;
    while i < n
        invariant
            i <= n,
            n == ls@.len(),
            join_with(views(ls@), sep@) == out@ + join_rest(views(ls@), sep@, i as int),
        decreases n - i,
    {
        let ghost out0 = out@;
        if i > 0 {
            push_sub(&mut out, sep, 0, sep.len());
        }
        let piece: &Vec<char> = &ls[i];
        push_sub(&mut out, piece, 0, piece.len());
        proof {
            lemma_join_step(views(ls@), sep@, i as int);
            assert(sep@.subrange(0, sep@.len() as int) =~= sep@);
            assert(piece@.subrange(0, piece@.len() as int) =~= piece@);
            assert(views(ls@)[i as int] == piece@);
            if i == 0 {
                assert(out@ =~= out0 + views(ls@)[i as int]);
            } else {
                assert(out@ =~= out0 + (sep@ + views(ls@)[i as int]));
            }
            assert(out0 + ((if i == 0 {
                views(ls@)[0]
            } else {
                sep@ + views(ls@)[i as int]
            }) + join_rest(views(ls@), sep@, i + 1)) =~= out@ + join_rest(
                views(ls@),
                sep@,
                i + 1,
            ));
        }
        i = i + 1;
    }
    proof {
        assert(out@ + join_rest(views(ls@), sep@, n as int) =~= out@);
    }
    out
}

} // verus!
