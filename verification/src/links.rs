//! The link resolver: rewrites relative link and image destinations inside
//! Markdown to absolute URLs against a base URL.

use vstd::prelude::*;

use crate::text::chars_of;
use crate::text::is_ws;
use crate::text::push_sub;
use crate::text::string_from_chars;
use crate::text::sub_chars;

verus! {

/// Whether `s` parses as an absolute URL. Names the outcome of
/// `url::Url::parse`, which depends on the characters alone.
pub uninterp spec fn url_parse_ok(s: Seq<char>) -> bool;

/// The serialization of the reference `dest` resolved against the absolute
/// URL `base`, or nothing when resolution fails. Names the outcome of
/// `url::Url::join`, which depends on the characters alone.
pub uninterp spec fn url_join(base: Seq<char>, dest: Seq<char>) -> Option<Seq<char>>;

/// Relies on `url::Url::parse`: returns whether `s` parses as an absolute
/// URL.
#[verifier::external_body]
fn base_parses(s: &str) -> (r: bool)
    ensures
        r == url_parse_ok(s@),
{
    url::Url::parse(s).is_ok()
}

/// Relies on `url::Url::parse`, `url::Url::join` and `url::Url::as_str`:
/// parses `base`, resolves `dest` against it, and returns the serialization
/// of the resolved URL; `None` when either step fails.
#[verifier::external_body]
fn join_url(base: &str, dest: &Vec<char>) -> (r: Option<Vec<char>>)
    ensures
        r is Some <==> (url_parse_ok(base@) && url_join(base@, dest@) is Some),
        r matches Some(v) ==> v@ == url_join(base@, dest@).unwrap(),
{
    let b = match url::Url::parse(base) {
        Ok(b) => b,
        Err(_) => return None,
    };
    let d: String = dest.iter().collect();
    match b.join(&d) {
        Ok(u) => Some(u.as_str().chars().collect()),
        Err(_) => None,
    }
}

/// The index at or after `i` where the literal `](` occurs in `s`, if any.
pub open spec fn marker_rec(s: Seq<char>, i: int) -> Option<int>
    decreases s.len() - i,
{
    if i < 0 || i + 1 >= s.len() {
        None
    } else if s[i] == ']' && s[i + 1] == '(' {
        Some(i)
    } else {
        marker_rec(s, i + 1)
    }
}

pub proof fn lemma_marker_bounds(s: Seq<char>, i: int)
    requires
        0 <= i,
    ensures
        marker_rec(s, i) matches Some(j) ==> i <= j && j + 1 < s.len(),
    decreases s.len() - i,
{
    if i + 1 >= s.len() {
    } else if s[i] == ']' && s[i + 1] == '(' {
    } else {
        lemma_marker_bounds(s, i + 1);
    }
}

/// Scanning a suffix finds the same marker, shifted.
pub proof fn lemma_marker_shift(s: Seq<char>, c: int, i: int)
    requires
        0 <= c <= s.len(),
        0 <= i,
    ensures
        marker_rec(s, c + i) == match marker_rec(s.skip(c), i) {
            Some(j) => Some(j + c),
            None => None::<int>,
        },
    decreases s.len() - c - i,
{
    let t = s.skip(c);
    if i + 1 >= t.len() {
        assert(marker_rec(s, c + i) is None);
    } else {
        assert(t[i] == s[c + i]);
        assert(t[i + 1] == s[c + i + 1]);
        if t[i] == ']' && t[i + 1] == '(' {
        } else {
            lemma_marker_shift(s, c, i + 1);
        }
    }
}

/// The scan for the closing parenthesis of a link destination, one character
/// at a time from index `i`: `depth` open parentheses are pending, `bs`
/// backslashes immediately precede, `quote` is the active title quote, and
/// `sd`/`sw` record whether a destination character and then separating
/// whitespace have been seen. The answer is the index where `depth` reaches
/// zero.
pub open spec fn find_close_rec(
    s: Seq<char>,
    i: int,
    depth: int,
    bs: int,
    quote: Option<char>,
    sd: bool,
    sw: bool,
) -> Option<int>
    decreases s.len() - i,
{
    if i < 0 || i >= s.len() {
        None
    } else {
        let c = s[i];
        let escaped = c != '\\' && bs % 2 == 1;
        if c == '\\' {
            find_close_rec(s, i + 1, depth, bs + 1, quote, sd, sw)
        } else if quote is Some {
            if c == quote.unwrap() && !escaped {
                find_close_rec(s, i + 1, depth, 0, None, sd, sw)
            } else {
                find_close_rec(s, i + 1, depth, 0, quote, sd, sw)
            }
        } else if depth == 1 && sw && (c == '"' || c == '\'') {
            find_close_rec(s, i + 1, depth, 0, Some(c), sd, sw)
        } else {
            let sd2 = if depth == 1 && !is_ws(c) {
                true
            } else {
                sd
            };
            let sw2 = if depth == 1 {
                if is_ws(c) {
                    sd || sw
                } else {
                    false
                }
            } else {
                sw
            };
            if c == '(' && !escaped {
                find_close_rec(s, i + 1, depth + 1, 0, None, sd2, sw2)
            } else if c == ')' && !escaped {
                if depth == 1 {
                    Some(i)
                } else {
                    find_close_rec(s, i + 1, depth - 1, 0, None, sd2, sw2)
                }
            } else {
                find_close_rec(s, i + 1, depth, 0, None, sd2, sw2)
            }
        }
    }
}

pub proof fn lemma_find_close_bounds(
    s: Seq<char>,
    i: int,
    depth: int,
    bs: int,
    quote: Option<char>,
    sd: bool,
    sw: bool,
)
    requires
        0 <= i,
    ensures
        find_close_rec(s, i, depth, bs, quote, sd, sw) matches Some(k) ==> i <= k < s.len(),
    decreases s.len() - i,
{
    if i >= s.len() {
    } else {
        let c = s[i];
        let escaped = c != '\\' && bs % 2 == 1;
        if c == '\\' {
            lemma_find_close_bounds(s, i + 1, depth, bs + 1, quote, sd, sw);
        } else if quote is Some {
            if c == quote.unwrap() && !escaped {
                lemma_find_close_bounds(s, i + 1, depth, 0, None, sd, sw);
            } else {
                lemma_find_close_bounds(s, i + 1, depth, 0, quote, sd, sw);
            }
        } else if depth == 1 && sw && (c == '"' || c == '\'') {
            lemma_find_close_bounds(s, i + 1, depth, 0, Some(c), sd, sw);
        } else {
            let sd2 = if depth == 1 && !is_ws(c) {
                true
            } else {
                sd
            };
            let sw2 = if depth == 1 {
                if is_ws(c) {
                    sd || sw
                } else {
                    false
                }
            } else {
                sw
            };
            if c == '(' && !escaped {
                lemma_find_close_bounds(s, i + 1, depth + 1, 0, None, sd2, sw2);
            } else if c == ')' && !escaped {
                if depth == 1 {
                } else {
                    lemma_find_close_bounds(s, i + 1, depth - 1, 0, None, sd2, sw2);
                }
            } else {
                lemma_find_close_bounds(s, i + 1, depth, 0, None, sd2, sw2);
            }
        }
    }
}

/// The closing parenthesis matching the implicit one opened by `](`.
pub open spec fn spec_find_close(s: Seq<char>) -> Option<int> {
    find_close_rec(s, 0, 1, 0, None, false, false)
}

/// The first `>` at or after `i` not escaped by a preceding odd run of
/// backslashes.
pub open spec fn find_gt_rec(s: Seq<char>, i: int, bs: int) -> Option<int>
    decreases s.len() - i,
{
    if i < 0 || i >= s.len() {
        None
    } else if s[i] == '\\' {
        find_gt_rec(s, i + 1, bs + 1)
    } else if s[i] == '>' && bs % 2 == 0 {
        Some(i)
    } else {
        find_gt_rec(s, i + 1, 0)
    }
}

/// The first whitespace character at or after `i` not escaped by a preceding
/// odd run of backslashes.
pub open spec fn find_ws_rec(s: Seq<char>, i: int, bs: int) -> Option<int>
    decreases s.len() - i,
{
    if i < 0 || i >= s.len() {
        None
    } else if s[i] == '\\' {
        find_ws_rec(s, i + 1, bs + 1)
    } else if is_ws(s[i]) && bs % 2 == 0 {
        Some(i)
    } else {
        find_ws_rec(s, i + 1, 0)
    }
}

/// Splits the text between `](` and its matching `)` into destination,
/// trailing title text, and whether the destination stood in angle brackets.
/// The angle form ends at the first unescaped `>`; the bare form ends at the
/// first unescaped whitespace.
pub open spec fn spec_split(inside: Seq<char>) -> (Seq<char>, Seq<char>, bool) {
    if inside.len() > 0 && inside[0] == '<' && find_gt_rec(inside, 1, 0) is Some {
        let g = find_gt_rec(inside, 1, 0).unwrap();
        (inside.subrange(1, g), inside.skip(g + 1), true)
    } else {
        match find_ws_rec(inside, 0, 0) {
            Some(w) => (inside.take(w), inside.skip(w), false),
            None => (inside, Seq::empty(), false),
        }
    }
}

/// The document from `s` on with every complete link span rewritten: text up
/// to and including each `](` is copied, the destination is resolved against
/// `base` (kept as it stood when resolution fails, wrapped again in angle
/// brackets when it had them, left empty when empty), the title text and
/// closing parenthesis are copied, and an unterminated span ends the rewrite
/// with the remainder copied verbatim.
pub open spec fn spec_resolve_from(s: Seq<char>, base: Seq<char>) -> Seq<char>
    decreases s.len(),
{
    match marker_rec(s, 0) {
        None => s,
        Some(j) => {
            let head = s.take(j + 2);
            let rest = s.skip(j + 2);
            match spec_find_close(rest) {
                None => s,
                Some(k) => {
                    let inside = rest.take(k);
                    let sp = spec_split(inside);
                    let emitted = if sp.0.len() > 0 {
                        match url_join(base, sp.0) {
                            Some(u) => if sp.2 {
                                seq!['<'] + u + seq!['>']
                            } else {
                                u
                            },
                            None => if sp.2 {
                                seq!['<'] + sp.0 + seq!['>']
                            } else {
                                sp.0
                            },
                        }
                    } else {
                        if sp.2 {
                            seq!['<', '>']
                        } else {
                            Seq::empty()
                        }
                    };
                    proof {
                        lemma_marker_bounds(s, 0);
                        lemma_find_close_bounds(rest, 0, 1, 0, None, false, false);
                    }
                    head + emitted + sp.1 + seq![')'] + spec_resolve_from(rest.skip(k + 1), base)
                },
            }
        },
    }
}

/// The whole document resolved: unchanged when the base URL does not parse.
pub open spec fn spec_resolve(md: Seq<char>, base: Seq<char>) -> Seq<char> {
    if url_parse_ok(base) {
        spec_resolve_from(md, base)
    } else {
        md
    }
}

/// An empty destination is preserved: a link with empty parentheses comes
/// back unchanged, whatever the base URL, parseable or not.
pub proof fn lemma_empty_destination_preserved(base: Seq<char>)
    ensures
        spec_resolve(seq!['[', 'l', 'i', 'n', 'k', ']', '(', ')'], base) == seq![
            '[', 'l', 'i', 'n', 'k', ']', '(', ')',
        ],
{
    let s = seq!['[', 'l', 'i', 'n', 'k', ']', '(', ')'];
    assert(s.len() == 8);
    assert(s[0] == '[' && s[1] == 'l' && s[2] == 'i' && s[3] == 'n' && s[4] == 'k' && s[5] == ']'
        && s[6] == '(' && s[7] == ')');
    assert(marker_rec(s, 5) == Some(5int));
    assert(marker_rec(s, 4) == Some(5int));
    assert(marker_rec(s, 3) == Some(5int));
    assert(marker_rec(s, 2) == Some(5int));
    assert(marker_rec(s, 1) == Some(5int));
    assert(marker_rec(s, 0) == Some(5int));
    let rest = s.skip(7);
    assert(rest =~= seq![')']);
    assert(rest[0] == ')');
    assert(!is_ws(')'));
    assert(spec_find_close(rest) == Some(0int));
    let inside = rest.take(0);
    assert(inside =~= Seq::<char>::empty());
    assert(find_ws_rec(inside, 0, 0) is None);
    assert(spec_split(inside).0 == inside && spec_split(inside).1 == Seq::<char>::empty()
        && spec_split(inside).2 == false);
    let tail = rest.skip(1);
    assert(tail =~= Seq::<char>::empty());
    assert(marker_rec(tail, 0) is None);
    assert(spec_resolve_from(tail, base) == tail);
    assert(spec_resolve_from(s, base) == s.take(7) + Seq::<char>::empty() + Seq::<char>::empty()
        + seq![')'] + tail);
    assert(s.take(7) + Seq::<char>::empty() + Seq::<char>::empty() + seq![')']
        + Seq::<char>::empty() =~= s);
}

fn find_marker(v: &Vec<char>, from: usize) -> (r: Option<usize>)
    requires
        from <= v@.len(),
    ensures
        r is None ==> marker_rec(v@, from as int) is None,
        r matches Some(j) ==> marker_rec(v@, from as int) == Some(j as int) && from <= j && j + 1
            < v@.len(),
{
    let n: usize = v.len();
    if n == 0 {
        return None;
    }
    let mut i: usize = from;
    while i < n - 1
        invariant
            from <= i,
            i <= n,
            n == v@.len(),
            n >= 1,
            marker_rec(v@, from as int) == marker_rec(v@, i as int),
        decreases n - i,
    {
        if v[i] == ']' && v[i + 1] == '(' {
            return Some(i);
        }
        i = i + 1;
    }
    None
}

fn find_close_vec(s: &Vec<char>) -> (r: Option<usize>)
    ensures
        r is None ==> spec_find_close(s@) is None,
        r matches Some(k) ==> spec_find_close(s@) == Some(k as int) && k < s@.len(),
{
    let n: usize = s.len();
    let mut i: usize = 0;
    let mut depth: u128 = 1;
    let mut bs: u128 = 0;
    let mut qa: bool = false;
    let mut qc: char = '"';
    let mut sd: bool = false;
    let mut sw: bool = false;
    while i < n
        invariant
            i <= n,
            n == s@.len(),
            depth >= 1,
            depth <= i + 1,
            bs <= i,
            spec_find_close(s@) == find_close_rec(
                s@,
                i as int,
                depth as int,
                bs as int,
                if qa {
                    Some(qc)
                } else {
                    None
                },
                sd,
                sw,
            ),
        decreases n - i,
    {
        let c = s[i];
        let escaped = c != '\\' && bs % 2 == 1;
        if c == '\\' {
            bs = bs + 1;
        } else if qa {
            if c == qc && !escaped {
                qa = false;
            }
            bs = 0;
        } else if depth == 1 && sw && (c == '"' || c == '\'') {
            qa = true;
            qc = c;
            bs = 0;
        } else {
            if depth == 1 {
                if crate::text::ws_char(c) {
                    if sd {
                        sw = true;
                    }
                } else {
                    sd = true;
                    sw = false;
                }
            }
            if c == '(' && !escaped {
                depth = depth + 1;
            } else if c == ')' && !escaped {
                if depth == 1 {
                    return Some(i);
                }
                depth = depth - 1;
            }
            bs = 0;
        }
        i = i + 1;
    }
    None
}

/// Finds the closing parenthesis that matches the implicit one opened by
/// `](`, given the text that follows `](`. The answer counts characters.
pub fn find_link_close_paren(s: &str) -> (r: Option<usize>)
    ensures
        r is None ==> spec_find_close(s@) is None,
        r matches Some(k) ==> spec_find_close(s@) == Some(k as int) && k < s@.len(),
{
    let v: Vec<char> = chars_of(s);
    find_close_vec(&v)
}

fn split_vec(inside: &Vec<char>) -> (r: (Vec<char>, Vec<char>, bool))
    ensures
        r.0@ == spec_split(inside@).0,
        r.1@ == spec_split(inside@).1,
        r.2 == spec_split(inside@).2,
{
    let n: usize = inside.len();
    if n > 0 && inside[0] == '<' {
        let mut i: usize = 1;
        let mut bs: u128 = 0;
        let mut gt: Option<usize> = None;
        while i < n && gt.is_none()
            invariant
                1 <= i <= n,
                n == inside@.len(),
                bs <= i,
                gt is None ==> find_gt_rec(inside@, 1, 0) == find_gt_rec(
                    inside@,
                    i as int,
                    bs as int,
                ),
                gt matches Some(g) ==> find_gt_rec(inside@, 1, 0) == Some(g as int) && 1 <= g
                    < n,
            decreases n - i,
        {
            let c = inside[i];
            if c == '\\' {
                bs = bs + 1;
            } else if c == '>' && bs % 2 == 0 {
                gt = Some(i);
            } else {
                bs = 0;
            }
            i = i + 1;
        }
        match gt {
            Some(g) => {
                let dest = sub_chars(inside, 1, g);
                let title = sub_chars(inside, g + 1, n);
                proof {
                    assert(inside@.skip(g + 1) =~= inside@.subrange(g + 1, n as int));
                }
                return (dest, title, true);
            },
            None => {
                proof {
                    assert(find_gt_rec(inside@, 1, 0) is None);
                }
            },
        }
    }
    let mut i: usize = 0;
    let mut bs: u128 = 0;
    let mut w: Option<usize> = None;
    while i < n && w.is_none()
        invariant
            i <= n,
            n == inside@.len(),
            bs <= i,
            w is None ==> find_ws_rec(inside@, 0, 0) == find_ws_rec(inside@, i as int, bs as int),
            w matches Some(x) ==> find_ws_rec(inside@, 0, 0) == Some(x as int) && x < n,
        decreases n - i,
    {
        let c = inside[i];
        if c == '\\' {
            bs = bs + 1;
        } else if crate::text::ws_char(c) && bs % 2 == 0 {
            w = Some(i);
        } else {
            bs = 0;
        }
        i = i + 1;
    }
    match w {
        Some(x) => {
            let dest = sub_chars(inside, 0, x);
            let title = sub_chars(inside, x, n);
            proof {
                assert(inside@.take(x as int) =~= inside@.subrange(0, x as int));
                assert(inside@.skip(x as int) =~= inside@.subrange(x as int, n as int));
            }
            (dest, title, false)
        },
        None => {
            let dest = sub_chars(inside, 0, n);
            let title: Vec<char> = Vec::new();
            proof {
                assert(find_ws_rec(inside@, 0, 0) is None);
                assert(inside@.subrange(0, n as int) =~= inside@);
            }
            (dest, title, false)
        },
    }
}

/// Splits a link destination span into destination, trailing title text, and
/// whether the destination stood in angle brackets.
pub fn split_link_destination(inside: &str) -> (r: (String, String, bool))
    ensures
        r.0@ == spec_split(inside@).0,
        r.1@ == spec_split(inside@).1,
        r.2 == spec_split(inside@).2,
{
    let v: Vec<char> = chars_of(inside);
    let (dest, title, angle) = split_vec(&v);
    (string_from_chars(&dest), string_from_chars(&title), angle)
}

/// Rewrites every link and image destination in `md` to an absolute URL
/// against `base_url`; the document is returned unchanged when `base_url`
/// does not parse as an absolute URL.
#[verifier::rlimit(100)]
pub fn resolve_markdown_urls(md: &str, base_url: &str) -> (r: String)
    ensures
        r@ == spec_resolve(md@, base_url@),
        !url_parse_ok(base_url@) ==> r@ == md@,
{
    if !base_parses(base_url) {
        return md.to_owned();
    }
    let v: Vec<char> = chars_of(md);
    let n: usize = v.len();
    let mut out: Vec<char> = Vec::new();
    let mut cursor: usize = 0;
    proof {
        assert(v@.skip(0) =~= v@);
        assert(Seq::<char>::empty() + spec_resolve_from(v@, base_url@) =~= spec_resolve_from(
            v@,
            base_url@,
        ));
    }
    while cursor < n
        invariant
            cursor <= n,
            n == v@.len(),
            v@ == md@,
            url_parse_ok(base_url@),
            spec_resolve_from(md@, base_url@) == out@ + spec_resolve_from(
                v@.skip(cursor as int),
                base_url@,
            ),
        decreases n - cursor,
    {
        let ghost suffix = v@.skip(cursor as int);
        let ghost out0 = out@;
        let m = find_marker(&v, cursor);
        proof {
            lemma_marker_shift(v@, cursor as int, 0);
        }
        match m {
            None => {
                proof {
                    assert(marker_rec(suffix, 0) is None);
                    assert(spec_resolve_from(suffix, base_url@) == suffix);
                }
                push_sub(&mut out, &v, cursor, n);
                proof {
                    assert(v@.subrange(cursor as int, n as int) =~= suffix);
                }
                cursor = n;
            },
            Some(j) => {
                let ghost jr = j - cursor;
                proof {
                    assert(marker_rec(suffix, 0) == Some(jr as int));
                    lemma_marker_bounds(suffix, 0);
                }
                let rest = sub_chars(&v, j + 2, n);
                proof {
                    assert(rest@ =~= v@.skip(j + 2));
                    assert(suffix.skip(jr + 2) =~= v@.skip(j + 2));
                }
                let cl = find_close_vec(&rest);
                match cl {
                    None => {
                        proof {
                            assert(spec_find_close(suffix.skip(jr + 2)) is None);
                            assert(spec_resolve_from(suffix, base_url@) == suffix);
                        }
                        push_sub(&mut out, &v, cursor, n);
                        proof {
                            assert(v@.subrange(cursor as int, n as int) =~= suffix);
                        }
                        cursor = n;
                    },
                    Some(k) => {
                        let ghost sp = spec_split(suffix.skip(jr + 2).take(k as int));
                        proof {
                            assert(spec_find_close(suffix.skip(jr + 2)) == Some(k as int));
                        }
                        push_sub(&mut out, &v, cursor, j + 2);
                        proof {
                            assert(v@.subrange(cursor as int, j + 2) =~= suffix.take(jr + 2));
                        }
                        let inside = sub_chars(&rest, 0, k);
                        proof {
                            assert(inside@ =~= suffix.skip(jr + 2).take(k as int));
                        }
                        let (dest, title, angle) = split_vec(&inside);
                        let ghost out_head = out@;
                        if dest.len() > 0 {
                            match join_url(base_url, &dest) {
                                Some(u) => {
                                    if angle {
                                        out.push('<');
                                        push_sub(&mut out, &u, 0, u.len());
                                        out.push('>');
                                        proof {
                                            assert(u@.subrange(0, u@.len() as int) =~= u@);
                                            assert(out@ =~= out_head + (seq!['<'] + u@
                                                + seq!['>']));
                                        }
                                    } else {
                                        push_sub(&mut out, &u, 0, u.len());
                                        proof {
                                            assert(u@.subrange(0, u@.len() as int) =~= u@);
                                        }
                                    }
                                },
                                None => {
                                    if angle {
                                        out.push('<');
                                        push_sub(&mut out, &dest, 0, dest.len());
                                        out.push('>');
                                        proof {
                                            assert(dest@.subrange(0, dest@.len() as int)
                                                =~= dest@);
                                            assert(out@ =~= out_head + (seq!['<'] + sp.0
                                                + seq!['>']));
                                        }
                                    } else {
                                        push_sub(&mut out, &dest, 0, dest.len());
                                        proof {
                                            assert(dest@.subrange(0, dest@.len() as int)
                                                =~= dest@);
                                        }
                                    }
                                },
                            }
                        } else if angle {
                            out.push('<');
                            out.push('>');
                            proof {
                                assert(out@ =~= out_head + seq!['<', '>']);
                            }
                        }
                        let ghost out_emitted = out@;
                        push_sub(&mut out, &title, 0, title.len());
                        out.push(')');
                        proof {
                            assert(title@.subrange(0, title@.len() as int) =~= title@);
                            assert(out@ =~= out_emitted + sp.1 + seq![')']);
                        }
                        proof {
                            lemma_find_close_bounds(suffix.skip(jr + 2), 0, 1, 0, None, false,
                                false);
                        }
                        let next: usize = j + 2 + k + 1;
                        proof {
                            assert(suffix.skip(jr + 2).skip(k + 1) =~= v@.skip(next as int));
                            let emitted = if sp.0.len() > 0 {
                                match url_join(base_url@, sp.0) {
                                    Some(u) => if sp.2 {
                                        seq!['<'] + u + seq!['>']
                                    } else {
                                        u
                                    },
                                    None => if sp.2 {
                                        seq!['<'] + sp.0 + seq!['>']
                                    } else {
                                        sp.0
                                    },
                                }
                            } else {
                                if sp.2 {
                                    seq!['<', '>']
                                } else {
                                    Seq::empty()
                                }
                            };
                            assert(spec_resolve_from(suffix, base_url@) == suffix.take(jr + 2)
                                + emitted + sp.1 + seq![')'] + spec_resolve_from(
                                v@.skip(next as int),
                                base_url@,
                            ));
                            assert(out@ =~= out0 + (suffix.take(jr + 2) + emitted + sp.1
                                + seq![')']));
                            assert(out0 + (suffix.take(jr + 2) + emitted + sp.1 + seq![')']
                                + spec_resolve_from(v@.skip(next as int), base_url@)) =~= out@
                                + spec_resolve_from(v@.skip(next as int), base_url@));
                        }
                        cursor = next;
                    },
                }
            },
        }
    }
    proof {
        assert(v@.skip(n as int) =~= Seq::<char>::empty());
        assert(marker_rec(Seq::<char>::empty(), 0) is None);
        assert(spec_resolve_from(Seq::<char>::empty(), base_url@) =~= Seq::<char>::empty());
        assert(out@ + Seq::<char>::empty() =~= out@);
    }
    string_from_chars(&out)
}

} // verus!
