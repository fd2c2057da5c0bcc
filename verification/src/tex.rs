//! Escaping text for TeX.

use vstd::prelude::*;

verus! {

/// The TeX source for the character `c`.
pub open spec fn tex_char(c: char) -> Seq<char> {
    if c == '&' || c == '%' || c == '$' || c == '#' || c == '_' || c == '{' || c == '}' {
        seq!['\\', c]
    } else if c == '~' {
        seq!['\\', 't', 'e', 'x', 't', 'a', 's', 'c', 'i', 'i', 't', 'i', 'l', 'd', 'e', ' ']
    } else if c == '^' {
        seq!['\\', 't', 'e', 'x', 't', 'a', 's', 'c', 'i', 'i', 'c', 'i', 'r', 'c', 'u', 'm', ' ']
    } else if c == '\\' {
        seq!['\\', 't', 'e', 'x', 't', 'b', 'a', 'c', 'k', 's', 'l', 'a', 's', 'h', ' ']
    } else {
        seq![c]
    }
}

/// The TeX source for the text `s`, character by character.
pub open spec fn tex_text(s: Seq<char>) -> Seq<char>
    decreases s.len(),
{
    if s.len() == 0 {
        Seq::empty()
    } else {
        tex_text(s.drop_last()) + tex_char(s.last())
    }
}

pub(crate) fn push_all(out: &mut Vec<char>, w: &[char])
    ensures final(out)@ == old(out)@ + w@,
{
    let mut i: usize = 0;
    while i < w.len()
        invariant
            i <= w@.len(),
            out@ == old(out)@ + w@.subrange(0, i as int),
        decreases w@.len() - i,
    {
        out.push(w[i]);
        i = i + 1;
        assert(out@ =~= old(out)@ + w@.subrange(0, i as int));
    }
    assert(w@.subrange(0, w@.len() as int) =~= w@);
}

/// `input` with the characters that TeX treats specially escaped.
pub fn tex_escaped(input: &str) -> (r: String)
    ensures r@ == tex_text(input@),
{
    let s = crate::parser::chars_of(input);
    let mut out: Vec<char> = Vec::new();
    let mut i: usize = 0;
    while i < s.len()
        invariant
            s@ == input@,
            i <= s@.len(),
            out@ == tex_text(s@.subrange(0, i as int)),
        decreases s@.len() - i,
    {
        let c = s[i];
        let ghost before = out@;
        if c == '&' || c == '%' || c == '$' || c == '#' || c == '_' || c == '{' || c == '}' {
            let w = ['\\', c];
            assert(w@ =~= tex_char(c));
            push_all(&mut out, &w);
        } else if c == '~' {
            let w = ['\\', 't', 'e', 'x', 't', 'a', 's', 'c', 'i', 'i', 't', 'i', 'l', 'd', 'e', ' '];
            assert(w@ =~= tex_char(c));
            push_all(&mut out, &w);
        } else if c == '^' {
            let w = ['\\', 't', 'e', 'x', 't', 'a', 's', 'c', 'i', 'i', 'c', 'i', 'r', 'c', 'u', 'm', ' '];
            assert(w@ =~= tex_char(c));
            push_all(&mut out, &w);
        } else if c == '\\' {
            let w = ['\\', 't', 'e', 'x', 't', 'b', 'a', 'c', 'k', 's', 'l', 'a', 's', 'h', ' '];
            assert(w@ =~= tex_char(c));
            push_all(&mut out, &w);
        } else {
            let w = [c];
            assert(w@ =~= tex_char(c));
            push_all(&mut out, &w);
        }
        proof {
            let s1 = s@.subrange(0, i as int + 1);
            assert(s1.drop_last() =~= s@.subrange(0, i as int));
            assert(s1.last() == c);
        }
        i = i + 1;
    }
    assert(s@.subrange(0, s@.len() as int) =~= s@);
    crate::symbol::string_from_chars(&out)
}

} // verus!
