//! Tidy spacing inside Markdown list items.
//!
//! The one operation, [`remove_consecutive_spaces`], rewrites a text blob
//! line by line: on a line whose first non-whitespace character is a dash,
//! every run of two or more spaces from the dash onward collapses to a
//! single space; the indentation before the dash and every other line are
//! left exactly as they were.

use vstd::prelude::*;

mod collapse;
mod line;
mod lines;

pub use crate::collapse::{collapsed, no_double_space};
pub use crate::line::{is_list_line, is_wspace, lead_len, line_norm, normalize_line};
pub use crate::lines::{join_lines, split_lines};
use crate::line::{lemma_line_norm_idempotent, lemma_line_norm_list, lemma_line_norm_no_nl};
use crate::lines::{
    join_text, lemma_split_join, lemma_split_lines_len, lemma_split_lines_no_nl, split_text,
};

verus! {

/// What normalizing makes of a whole text: every line rewritten by
/// [`line_norm`], the count and order of lines untouched.
pub open spec fn text_norm(s: Seq<char>) -> Seq<char> {
    join_lines(split_lines(s).map_values(|l: Seq<char>| line_norm(l)))
}

/// Remove consecutive spaces on lines that begin with a dash, keeping
/// leading spaces.
///
/// The text is split on newline characters; a line whose first
/// non-whitespace character is a dash keeps everything up to that dash
/// and has every run of two or more spaces after it collapsed to one
/// space; every other line is returned byte for byte. The operation is
/// total: it returns `Ok` for every input.
pub fn remove_consecutive_spaces(file_contents: String) -> (r: Result<String, ()>)
    ensures
        r is Ok,
        r->Ok_0@ == text_norm(file_contents@),
{
    let ghost sv = file_contents@;
    let lines = split_text(file_contents.as_str());
    let ghost mapped = split_lines(sv).map_values(|l: Seq<char>| line_norm(l));
    let mut normed: Vec<String> = Vec::new();
    let mut i: usize = 0;
    while i < lines.len()
        invariant
            i <= lines.len(),
            lines.deep_view() == split_lines(sv),
            mapped == split_lines(sv).map_values(|l: Seq<char>| line_norm(l)),
            normed.deep_view() == mapped.take(i as int),
        decreases lines.len() - i,
    {
        let ghost prev = normed.deep_view();
        let one = normalize_line(lines[i].as_str());
        normed.push(one);
        proof {
            assert(lines@[i as int]@ == lines.deep_view()[i as int]);
            assert(mapped[i as int] == line_norm(split_lines(sv)[i as int]));
            assert(normed.deep_view() =~~= prev.push(one@));
            assert(mapped.take(i + 1) =~~= mapped.take(i as int).push(mapped[i as int]));
        }
        i = i + 1;
    }
    proof {
        lemma_split_lines_len(sv);
        assert(normed.deep_view() =~~= mapped);
        assert(normed.len() == normed.deep_view().len());
    }
    let joined = join_text(&normed);
    Ok(joined)
}

/// Normalizing rewrites each line by [`line_norm`] and changes nothing
/// else: the output has exactly as many lines as the input, and its
/// `i`-th line is the normalized `i`-th input line.
pub proof fn lemma_text_norm_lines(s: Seq<char>)
    ensures
        split_lines(text_norm(s)).len() == split_lines(s).len(),
        forall|i: int|
            0 <= i < split_lines(s).len() ==> #[trigger] split_lines(text_norm(s))[i] == line_norm(
                split_lines(s)[i],
            ),
{
    let ls = split_lines(s);
    let mapped = ls.map_values(|l: Seq<char>| line_norm(l));
    lemma_split_lines_len(s);
    lemma_split_lines_no_nl(s);
    assert forall|i: int| 0 <= i < mapped.len() implies !(#[trigger] mapped[i]).contains('\n') by {
        lemma_line_norm_no_nl(ls[i]);
    }
    lemma_split_join(mapped);
}

/// A line that is not a list line comes through normalizing unchanged.
pub proof fn lemma_plain_line_unchanged(s: Seq<char>, i: int)
    requires
        0 <= i < split_lines(s).len(),
        !is_list_line(split_lines(s)[i]),
    ensures
        split_lines(text_norm(s))[i] == split_lines(s)[i],
{
    lemma_text_norm_lines(s);
}

/// On a list line, the segment before the dash survives normalizing
/// byte for byte.
pub proof fn lemma_list_line_lead_unchanged(s: Seq<char>, i: int)
    requires
        0 <= i < split_lines(s).len(),
        is_list_line(split_lines(s)[i]),
    ensures
        split_lines(text_norm(s))[i].take(lead_len(split_lines(s)[i]) as int) == split_lines(
            s,
        )[i].take(lead_len(split_lines(s)[i]) as int),
{
    lemma_text_norm_lines(s);
    lemma_line_norm_list(split_lines(s)[i]);
}

/// On a list line, no run of two or more spaces is left from the dash
/// onward after normalizing.
pub proof fn lemma_list_line_tail_collapsed(s: Seq<char>, i: int)
    requires
        0 <= i < split_lines(s).len(),
        is_list_line(split_lines(s)[i]),
    ensures
        no_double_space(split_lines(text_norm(s))[i].skip(lead_len(split_lines(s)[i]) as int)),
{
    lemma_text_norm_lines(s);
    lemma_line_norm_list(split_lines(s)[i]);
}

/// Normalizing is idempotent: a second pass changes nothing.
pub proof fn lemma_text_norm_idempotent(s: Seq<char>)
    ensures
        text_norm(text_norm(s)) == text_norm(s),
{
    let ls = split_lines(s);
    let mapped = ls.map_values(|l: Seq<char>| line_norm(l));
    lemma_text_norm_lines(s);
    assert(split_lines(text_norm(s)) =~~= mapped);
    let twice = mapped.map_values(|l: Seq<char>| line_norm(l));
    assert forall|i: int| 0 <= i < mapped.len() implies #[trigger] twice[i] == mapped[i] by {
        lemma_line_norm_idempotent(ls[i]);
    }
    assert(twice =~~= mapped);
}

} // verus!
