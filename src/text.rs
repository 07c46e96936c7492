use vstd::prelude::*;

verus! {

/// `s` with every run of two or more U+0020 spaces collapsed to one space;
/// every other character stays where it was.
pub open spec fn collapse_spaces(s: Seq<char>) -> Seq<char>
    decreases s.len(),
{
    if s.len() == 0 {
        s
    } else {
        let p = collapse_spaces(s.drop_last());
        if s.len() >= 2 && s.last() == ' ' && s[s.len() - 2] == ' ' {
            p
        } else {
            p.push(s.last())
        }
    }
}

/// No two neighbouring characters of `s` are both spaces.
pub open spec fn no_double_space(s: Seq<char>) -> bool {
    forall|i: int| 0 <= i < s.len() - 1 ==> !(#[trigger] s[i] == ' ' && s[i + 1] == ' ')
}

/// Relies on String::push: appends one character.
#[verifier::external_body]
fn push_char(s: &mut String, c: char)
    ensures
        final(s)@ == old(s)@.push(c),
{
    s.push(c)
}

/// Collapses each maximal run of spaces in `t` to a single space.
pub fn normalize_text(t: &String) -> (r: String)
    ensures
        r@ == collapse_spaces(t@),
{
    let ghost s = t@;
    let mut r = String::new();
    let mut prev_space = false;
    for c in it: t.as_str().chars()
        invariant
            it.seq() == s,
            r@ == collapse_spaces(s.take(it.index() as int)),
            prev_space == (it.index() > 0 && s[it.index() - 1] == ' '),
    {
        let ghost i = it.index() as int;
        proof {
            assert(c == s[i]);
            assert(s.take(i + 1).drop_last() =~= s.take(i));
        }
        if !(c == ' ' && prev_space) {
            push_char(&mut r, c);
        }
        prev_space = c == ' ';
    }
    proof {
        assert(s.take(s.len() as int) =~= s);
    }
    r
}

} // verus!
