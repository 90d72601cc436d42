//! Collapsing runs of spaces to a single space.

use vstd::prelude::*;

verus! {

/// What collapsing space runs leaves of a character sequence: of each
/// maximal run of two or more spaces only one space remains, while a lone
/// space, and every other character, stays as it is.
pub open spec fn collapsed(s: Seq<char>) -> Seq<char>
    decreases s.len(),
{
    if s.len() == 0 {
        Seq::empty()
    } else if s.len() >= 2 && s[0] == ' ' && s[1] == ' ' {
        collapsed(s.drop_first())
    } else {
        seq![s[0]] + collapsed(s.drop_first())
    }
}

/// No two consecutive spaces anywhere in `s`.
pub open spec fn no_double_space(s: Seq<char>) -> bool {
    forall|i: int| 0 <= i && i + 1 < s.len() ==> !(#[trigger] s[i] == ' ' && s[i + 1] == ' ')
}

/// Collapsing never empties a non-empty sequence, and the first character
/// of the result is a space exactly when the input began with one; a
/// non-space head is kept unchanged.
pub proof fn lemma_collapsed_head(s: Seq<char>)
    ensures
        collapsed(s).len() == 0 <==> s.len() == 0,
        s.len() > 0 ==> ((collapsed(s)[0] == ' ') <==> (s[0] == ' ')),
        s.len() > 0 && s[0] != ' ' ==> collapsed(s)[0] == s[0],
    decreases s.len(),
{
    if s.len() == 0 {
    } else if s.len() >= 2 && s[0] == ' ' && s[1] == ' ' {
        lemma_collapsed_head(s.drop_first());
    }
}

/// After collapsing, no run of two or more spaces is left.
pub proof fn lemma_collapsed_no_double(s: Seq<char>)
    ensures
        no_double_space(collapsed(s)),
    decreases s.len(),
{
    if s.len() == 0 {
    } else if s.len() >= 2 && s[0] == ' ' && s[1] == ' ' {
        lemma_collapsed_no_double(s.drop_first());
    } else {
        let d = s.drop_first();
        let t = collapsed(d);
        let cs = collapsed(s);
        lemma_collapsed_no_double(d);
        lemma_collapsed_head(d);
        assert forall|i: int| 0 <= i && i + 1 < cs.len() implies !(#[trigger] cs[i] == ' ' && cs[i
            + 1] == ' ') by {
            if i == 0 {
                assert(cs[0] == s[0]);
                assert(cs[1] == t[0]);
                if s[0] == ' ' {
                    assert(d.len() > 0);
                    assert(d[0] == s[1]);
                    assert(s[1] != ' ');
                }
            } else {
                assert(cs[i] == t[i - 1]);
                assert(cs[i + 1] == t[i]);
            }
        }
    }
}

/// A sequence without double spaces is untouched by collapsing.
pub proof fn lemma_no_double_fixpoint(s: Seq<char>)
    requires
        no_double_space(s),
    ensures
        collapsed(s) == s,
    decreases s.len(),
{
    if s.len() == 0 {
        assert(collapsed(s) =~= s);
    } else {
        let d = s.drop_first();
        assert(!(s.len() >= 2 && s[0] == ' ' && s[1] == ' '));
        assert forall|i: int| 0 <= i && i + 1 < d.len() implies !(#[trigger] d[i] == ' ' && d[i + 1]
            == ' ') by {
            assert(d[i] == s[i + 1]);
            assert(d[i + 1] == s[i + 2]);
        }
        lemma_no_double_fixpoint(d);
        assert(collapsed(s) =~= s);
    }
}

/// Collapsing introduces no character that was not already present.
pub proof fn lemma_collapsed_chars(s: Seq<char>, c: char)
    requires
        collapsed(s).contains(c),
    ensures
        s.contains(c),
    decreases s.len(),
{
    if s.len() == 0 {
    } else if s.len() >= 2 && s[0] == ' ' && s[1] == ' ' {
        let d = s.drop_first();
        lemma_collapsed_chars(d, c);
        let j = choose|j: int| 0 <= j < d.len() && d[j] == c;
        assert(s[j + 1] == c);
    } else {
        let d = s.drop_first();
        let i = choose|i: int| 0 <= i < collapsed(s).len() && collapsed(s)[i] == c;
        if i == 0 {
            assert(s[0] == c);
        } else {
            assert(collapsed(d)[i - 1] == c);
            assert(collapsed(d).contains(c));
            lemma_collapsed_chars(d, c);
            let j = choose|j: int| 0 <= j < d.len() && d[j] == c;
            assert(s[j + 1] == c);
        }
    }
}

} // verus!
