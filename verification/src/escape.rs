//! Escaping a CSS selector string as a JavaScript string literal.

use vstd::prelude::*;

use crate::text::chars_of;
use crate::text::string_from_chars;

verus! {

/// The escape of one character inside a JavaScript double-quoted literal:
/// quote, backslash, newline, carriage return and the two JavaScript line
/// separators get escapes, everything else passes through.
pub open spec fn escape_char(c: char) -> Seq<char> {
    if c == '"' {
        seq!['\\', '"']
    } else if c == '\\' {
        seq!['\\', '\\']
    } else if c == '\n' {
        seq!['\\', 'n']
    } else if c == '\r' {
        seq!['\\', 'r']
    } else if c == '\u{2028}' {
        seq!['\\', 'u', '2', '0', '2', '8']
    } else if c == '\u{2029}' {
        seq!['\\', 'u', '2', '0', '2', '9']
    } else {
        seq![c]
    }
}

/// The concatenated escapes of all characters of `s`.
pub open spec fn escape_body(s: Seq<char>) -> Seq<char>
    decreases s.len(),
{
    if s.len() == 0 {
        Seq::empty()
    } else {
        escape_char(s[0]) + escape_body(s.skip(1))
    }
}

/// The whole JavaScript literal: escaped body wrapped in double quotes.
pub open spec fn spec_escape_js(s: Seq<char>) -> Seq<char> {
    seq!['"'] + escape_body(s) + seq!['"']
}

proof fn lemma_escape_snoc(a: Seq<char>, x: char)
    ensures
        escape_body(a.push(x)) == escape_body(a) + escape_char(x),
    decreases a.len(),
{
    if a.len() == 0 {
        let p = a.push(x);
        assert(p[0] == x);
        assert(p.skip(1) =~= Seq::<char>::empty());
        assert(escape_body(Seq::<char>::empty()) == Seq::<char>::empty());
        assert(escape_body(p) == escape_char(x) + escape_body(p.skip(1)));
        assert(escape_char(x) + Seq::<char>::empty() =~= escape_char(x));
        assert(escape_body(a) + escape_char(x) =~= escape_char(x));
    } else {
        assert(a.push(x)[0] == a[0]);
        assert(a.push(x).skip(1) =~= a.skip(1).push(x));
        lemma_escape_snoc(a.skip(1), x);
        assert(escape_char(a[0]) + (escape_body(a.skip(1)) + escape_char(x))
            =~= (escape_char(a[0]) + escape_body(a.skip(1))) + escape_char(x));
    }
}

/// Escapes a CSS selector as a JavaScript string literal.
pub fn escape_js_string(s: &str) -> (r: String)
    ensures
        r@ == spec_escape_js(s@),
{
    let v: Vec<char> = chars_of(s);
    let mut out: Vec<char> = Vec::new();
    out.push('"');
    let mut i: usize = 0;
    while i < v.len()
        invariant
            v@ == s@,
            i <= v@.len(),
            out@ == seq!['"'] + escape_body(s@.take(i as int)),
        decreases v@.len() - i,
    {
        let c = v[i];
        if c == '"' {
            out.push('\\');
            out.push('"');
        } else if c == '\\' {
            out.push('\\');
            out.push('\\');
        } else if c == '\n' {
            out.push('\\');
            out.push('n');
        } else if c == '\r' {
            out.push('\\');
            out.push('r');
        } else if c == '\u{2028}' {
            out.push('\\');
            out.push('u');
            out.push('2');
            out.push('0');
            out.push('2');
            out.push('8');
        } else if c == '\u{2029}' {
            out.push('\\');
            out.push('u');
            out.push('2');
            out.push('0');
            out.push('2');
            out.push('9');
        } else {
            out.push(c);
        }
        proof {
            lemma_escape_snoc(s@.take(i as int), s@[i as int]);
            assert(s@.take(i + 1) =~= s@.take(i as int).push(s@[i as int]));
            assert(out@ =~= seq!['"'] + escape_body(s@.take(i + 1)));
        }
        i = i + 1;
    }
    out.push('"');
    proof {
        assert(s@.take(s@.len() as int) =~= s@);
        assert(out@ =~= spec_escape_js(s@));
    }
    string_from_chars(&out)
}

} // verus!
