use vstd::prelude::*;
use vstd::string::*;

verus! {

/// What one character becomes in TeX text: `&` and `$` get a backslash.
pub open spec fn tex_char(c: char) -> Seq<char> {
    if c == '&' || c == '$' {
        seq!['\\', c]
    } else {
        seq![c]
    }
}

pub open spec fn tex_escaped(s: Seq<char>) -> Seq<char>
    decreases s.len(),
{
    if s.len() == 0 {
        seq![]
    } else {
        tex_escaped(s.drop_last()) + tex_char(s.last())
    }
}

/// Relies on `String::push`, which appends one character.
#[verifier::external_body]
pub(crate) fn push_char(s: &mut String, c: char)
    ensures
        final(s)@ == old(s)@.push(c),
{
    s.push(c)
}

/// The text with a backslash before every `&` and `$`, so that TeX prints
/// them as they are.
pub fn escape_string_for_tex(str: &String) -> (r: String)
    ensures
        r@ == tex_escaped(str@),
{
    let mut r = String::new();
    for c in it: str.as_str().chars()
        invariant
            it.seq() == str@,
            r@ == tex_escaped(str@.subrange(0, it.index() as int)),
    {
        let ghost k = it.index() as int;
        proof {
            assert(str@.subrange(0, k + 1).drop_last() =~= str@.subrange(0, k));
            reveal_strlit("\\&");
            reveal_strlit("\\$");
        }
        if c == '&' {
            r.append("\\&");
        } else if c == '$' {
            r.append("\\$");
        } else {
            push_char(&mut r, c);
        }
        proof {
            assert(r@ =~= tex_escaped(str@.subrange(0, k + 1)));
        }
    }
    proof {
        assert(str@.subrange(0, str@.len() as int) =~= str@);
    }
    r
}

} // verus!
