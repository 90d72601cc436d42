//! Classifying a single line and rewriting its spacing.

use vstd::prelude::*;
use vstd::string::{StrSliceExecFns, StringExecFns};
use crate::collapse::{collapsed, no_double_space, lemma_collapsed_head, lemma_collapsed_no_double,
    lemma_no_double_fixpoint, lemma_collapsed_chars};

verus! {

/// The characters that count as whitespace when the start of a line is
/// inspected: Unicode's White_Space set.
pub open spec fn is_wspace(c: char) -> bool {
    c == ' ' || c == '\t' || c == '\n' || c == '\u{B}' || c == '\u{C}' || c == '\r' || c
        == '\u{85}' || c == '\u{A0}' || c == '\u{1680}' || c == '\u{2000}' || c == '\u{2001}' || c
        == '\u{2002}' || c == '\u{2003}' || c == '\u{2004}' || c == '\u{2005}' || c == '\u{2006}'
        || c == '\u{2007}' || c == '\u{2008}' || c == '\u{2009}' || c == '\u{200A}' || c
        == '\u{2028}' || c == '\u{2029}' || c == '\u{202F}' || c == '\u{205F}' || c == '\u{3000}'
}

/// A list line: one whose content, after the leading whitespace, begins
/// with a dash.
pub open spec fn is_list_line(l: Seq<char>) -> bool
    decreases l.len(),
{
    if l.len() == 0 {
        false
    } else if l[0] == '-' {
        true
    } else if is_wspace(l[0]) {
        is_list_line(l.drop_first())
    } else {
        false
    }
}

/// How many whitespace characters the line begins with; on a list line
/// this is also where its first dash stands.
pub open spec fn lead_len(l: Seq<char>) -> nat
    decreases l.len(),
{
    if l.len() == 0 || !is_wspace(l[0]) {
        0
    } else {
        1 + lead_len(l.drop_first())
    }
}

/// What normalizing leaves of one line: a list line keeps everything up to
/// its dash and has the space runs from the dash onward collapsed; any
/// other line stays as it is.
pub open spec fn line_norm(l: Seq<char>) -> Seq<char> {
    if is_list_line(l) {
        l.take(lead_len(l) as int) + collapsed(l.skip(lead_len(l) as int))
    } else {
        l
    }
}

/// The leading whitespace of a line is exactly its first `lead_len`
/// characters, and a line is a list line exactly when the character right
/// after them is a dash.
pub proof fn lemma_lead(l: Seq<char>)
    ensures
        lead_len(l) <= l.len(),
        forall|k: int| 0 <= k < lead_len(l) ==> is_wspace(#[trigger] l[k]),
        lead_len(l) < l.len() ==> !is_wspace(l[lead_len(l) as int]),
        is_list_line(l) <==> (lead_len(l) < l.len() && l[lead_len(l) as int] == '-'),
    decreases l.len(),
{
    if l.len() == 0 || !is_wspace(l[0]) {
    } else {
        let d = l.drop_first();
        lemma_lead(d);
        assert forall|k: int| 0 <= k < lead_len(l) implies is_wspace(#[trigger] l[k]) by {
            if k > 0 {
                assert(d[k - 1] == l[k]);
            }
        }
    }
}

/// Any sequence that begins with `m` whitespace characters followed by a
/// non-whitespace one (or its end) has `m` as its leading-whitespace
/// count.
pub proof fn lemma_lead_from_prefix(r: Seq<char>, m: int)
    requires
        0 <= m <= r.len(),
        forall|k: int| 0 <= k < m ==> is_wspace(#[trigger] r[k]),
        m < r.len() ==> !is_wspace(r[m]),
    ensures
        lead_len(r) == m,
    decreases m,
{
    if m == 0 {
    } else {
        let d = r.drop_first();
        assert(is_wspace(r[0]));
        assert forall|k: int| 0 <= k < m - 1 implies is_wspace(#[trigger] d[k]) by {
            assert(d[k] == r[k + 1]);
        }
        assert(m - 1 < d.len() ==> d[m - 1] == r[m]);
        lemma_lead_from_prefix(d, m - 1);
    }
}

/// On a list line, normalizing keeps the segment before the dash
/// unchanged, rewrites the rest to its collapsed form, and leaves no
/// double space there.
pub proof fn lemma_line_norm_list(l: Seq<char>)
    requires
        is_list_line(l),
    ensures
        line_norm(l).take(lead_len(l) as int) == l.take(lead_len(l) as int),
        line_norm(l).skip(lead_len(l) as int) == collapsed(l.skip(lead_len(l) as int)),
        no_double_space(line_norm(l).skip(lead_len(l) as int)),
{
    let m = lead_len(l) as int;
    lemma_lead(l);
    assert(line_norm(l).take(m) =~= l.take(m));
    assert(line_norm(l).skip(m) =~= collapsed(l.skip(m)));
    lemma_collapsed_no_double(l.skip(m));
}

/// Normalizing a line is idempotent.
pub proof fn lemma_line_norm_idempotent(l: Seq<char>)
    ensures
        line_norm(line_norm(l)) == line_norm(l),
{
    if is_list_line(l) {
        let m = lead_len(l) as int;
        let r = line_norm(l);
        lemma_lead(l);
        let tail = l.skip(m);
        assert(tail[0] == l[m]);
        lemma_collapsed_head(tail);
        assert(collapsed(tail)[0] == '-');
        assert forall|k: int| 0 <= k < m implies is_wspace(#[trigger] r[k]) by {
            assert(r[k] == l[k]);
        }
        assert(r[m] == collapsed(tail)[0]);
        assert(!is_wspace('-'));
        lemma_lead_from_prefix(r, m);
        lemma_lead(r);
        assert(is_list_line(r));
        assert(r.take(m) =~= l.take(m));
        assert(r.skip(m) =~= collapsed(tail));
        lemma_collapsed_no_double(tail);
        lemma_no_double_fixpoint(collapsed(tail));
        assert(line_norm(r) == r.take(m) + collapsed(r.skip(m)));
        assert(line_norm(r) == r.take(m) + collapsed(collapsed(tail)));
        assert(line_norm(r) =~= r);
    }
}

/// A line without a newline character still has none after normalizing.
pub proof fn lemma_line_norm_no_nl(l: Seq<char>)
    requires
        !l.contains('\n'),
    ensures
        !line_norm(l).contains('\n'),
{
    if is_list_line(l) {
        let m = lead_len(l) as int;
        lemma_lead(l);
        if line_norm(l).contains('\n') {
            let i = choose|i: int| 0 <= i < line_norm(l).len() && line_norm(l)[i] == '\n';
            if i < m {
                assert(line_norm(l)[i] == l[i]);
                assert(l.contains('\n'));
            } else {
                assert(line_norm(l)[i] == collapsed(l.skip(m))[i - m]);
                assert(collapsed(l.skip(m)).contains('\n'));
                lemma_collapsed_chars(l.skip(m), '\n');
                let j = choose|j: int| 0 <= j < l.skip(m).len() && l.skip(m)[j] == '\n';
                assert(l[j + m] == '\n');
                assert(l.contains('\n'));
            }
        }
    }
}

/// Whether `c` is whitespace, as the classification of a line's start
/// sees it.
pub(crate) fn char_is_wspace(c: char) -> (b: bool)
    ensures
        b == is_wspace(c),
{
    c == ' ' || c == '\t' || c == '\n' || c == '\u{B}' || c == '\u{C}' || c == '\r' || c
        == '\u{85}' || c == '\u{A0}' || c == '\u{1680}' || c == '\u{2000}' || c == '\u{2001}' || c
        == '\u{2002}' || c == '\u{2003}' || c == '\u{2004}' || c == '\u{2005}' || c == '\u{2006}'
        || c == '\u{2007}' || c == '\u{2008}' || c == '\u{2009}' || c == '\u{200A}' || c
        == '\u{2028}' || c == '\u{2029}' || c == '\u{202F}' || c == '\u{205F}' || c == '\u{3000}'
}

/// Rewrite one line: on a list line every run of two or more spaces from
/// the dash onward becomes a single space; any other line comes back
/// unchanged.
pub fn normalize_line(line: &str) -> (r: String)
    ensures
        r@ == line_norm(line@),
{
    let n: usize = line.unicode_len();
    let mut j: usize = 0;
    proof {
        assert(line@.skip(0) =~= line@);
    }
    while j < n && char_is_wspace(line.get_char(j))
        invariant
            j <= n,
            n == line@.len(),
            is_list_line(line@) == is_list_line(line@.skip(j as int)),
            lead_len(line@) == j + lead_len(line@.skip(j as int)),
        decreases n - j,
    {
        proof {
            let t = line@.skip(j as int);
            assert(t[0] == line@[j as int]);
            assert(t.drop_first() =~= line@.skip(j as int + 1));
            assert(!(t[0] == '-'));
        }
        j = j + 1;
    }
    let is_list = j < n && line.get_char(j) == '-';
    proof {
        let t = line@.skip(j as int);
        if j < n {
            assert(t[0] == line@[j as int]);
            assert(t.drop_first() =~= line@.skip(j as int + 1));
        }
        assert(is_list == is_list_line(line@));
        assert(is_list ==> lead_len(line@) == j);
    }
    if !is_list {
        return String::from_str(line);
    }
    let mut out = String::from_str(line.substring_char(0, j));
    proof {
        assert(out@ =~= line@.take(j as int));
    }
    let mut k: usize = j;
    while k < n
        invariant
            j <= k <= n,
            n == line@.len(),
            is_list_line(line@),
            lead_len(line@) == j,
            out@ + collapsed(line@.skip(k as int)) == line_norm(line@),
        decreases n - k,
    {
        let c = line.get_char(k);
        if c == ' ' && k + 1 < n && line.get_char(k + 1) == ' ' {
            proof {
                let t = line@.skip(k as int);
                assert(t[0] == line@[k as int]);
                assert(t[1] == line@[k as int + 1]);
                assert(t.drop_first() =~= line@.skip(k as int + 1));
            }
        } else {
            let piece = line.substring_char(k, k + 1);
            out.append(piece);
            proof {
                let t = line@.skip(k as int);
                assert(t[0] == line@[k as int]);
                if t.len() >= 2 {
                    assert(t[1] == line@[k as int + 1]);
                }
                assert(t.drop_first() =~= line@.skip(k as int + 1));
                assert(piece@ =~= seq![line@[k as int]]);
                assert(collapsed(t) == seq![t[0]] + collapsed(t.drop_first()));
            }
        }
        k = k + 1;
    }
    proof {
        assert(line@.skip(n as int) =~= Seq::<char>::empty());
        assert(out@ + collapsed(Seq::<char>::empty()) =~= out@);
    }
    out
}

} // verus!
