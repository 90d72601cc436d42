//! Splitting a text into lines on newlines and joining them back.

use vstd::prelude::*;
use vstd::string::{StrSliceExecFns, StringExecFns};

verus! {

/// The lines of `s`, split on every newline character: one more line than
/// there are newlines, each line free of them. An empty text is a single
/// empty line.
pub open spec fn split_lines(s: Seq<char>) -> Seq<Seq<char>>
    decreases s.len(),
{
    if s.len() == 0 {
        seq![Seq::<char>::empty()]
    } else if s.last() == '\n' {
        split_lines(s.drop_last()).push(Seq::<char>::empty())
    } else {
        let r = split_lines(s.drop_last());
        r.update(r.len() - 1, r.last().push(s.last()))
    }
}

/// The lines joined back with a newline between each two.
pub open spec fn join_lines(ls: Seq<Seq<char>>) -> Seq<char>
    decreases ls.len(),
{
    if ls.len() <= 1 {
        if ls.len() == 0 {
            Seq::<char>::empty()
        } else {
            ls[0]
        }
    } else {
        join_lines(ls.drop_last()) + seq!['\n'] + ls.last()
    }
}

/// Splitting always yields at least one line.
pub proof fn lemma_split_lines_len(s: Seq<char>)
    ensures
        split_lines(s).len() >= 1,
    decreases s.len(),
{
    if s.len() > 0 {
        lemma_split_lines_len(s.drop_last());
    }
}

/// No line that splitting yields contains a newline.
pub proof fn lemma_split_lines_no_nl(s: Seq<char>)
    ensures
        forall|i: int|
            0 <= i < split_lines(s).len() ==> !(#[trigger] split_lines(s)[i]).contains('\n'),
    decreases s.len(),
{
    if s.len() == 0 {
        assert(!seq![Seq::<char>::empty()][0].contains('\n'));
    } else {
        let r = split_lines(s.drop_last());
        lemma_split_lines_no_nl(s.drop_last());
        lemma_split_lines_len(s.drop_last());
        if s.last() == '\n' {
            assert forall|i: int| 0 <= i < split_lines(s).len() implies !(
            #[trigger] split_lines(s)[i]).contains('\n') by {
                if i < r.len() {
                    assert(split_lines(s)[i] == r[i]);
                } else {
                    assert(split_lines(s)[i] =~= Seq::<char>::empty());
                }
            }
        } else {
            assert forall|i: int| 0 <= i < split_lines(s).len() implies !(
            #[trigger] split_lines(s)[i]).contains('\n') by {
                if i < r.len() - 1 {
                    assert(split_lines(s)[i] == r[i]);
                } else {
                    let t = r.last().push(s.last());
                    assert(split_lines(s)[i] == t);
                    if t.contains('\n') {
                        let j = choose|j: int| 0 <= j < t.len() && t[j] == '\n';
                        if j < r.last().len() {
                            assert(r.last()[j] == '\n');
                            assert(r.last().contains('\n'));
                        } else {
                            assert(t[j] == s.last());
                        }
                    }
                }
            }
        }
    }
}

/// A text without a newline splits into just itself.
pub proof fn lemma_split_single(l: Seq<char>)
    requires
        !l.contains('\n'),
    ensures
        split_lines(l) == seq![l],
    decreases l.len(),
{
    if l.len() == 0 {
        assert(split_lines(l) =~~= seq![l]);
    } else {
        assert(l[l.len() - 1] == l.last());
        assert(l.last() != '\n');
        assert forall|j: int| 0 <= j < l.drop_last().len() implies #[trigger] l.drop_last()[j]
            != '\n' by {
            assert(l.drop_last()[j] == l[j]);
        }
        assert(!l.drop_last().contains('\n'));
        lemma_split_single(l.drop_last());
        assert(l.drop_last().push(l.last()) =~= l);
        assert(split_lines(l) =~~= seq![l]);
    }
}

/// Appending newline-free text extends the last line and nothing else.
pub proof fn lemma_split_append_line(a: Seq<char>, b: Seq<char>)
    requires
        !b.contains('\n'),
    ensures
        split_lines(a + b) == split_lines(a).update(
            split_lines(a).len() - 1,
            split_lines(a).last() + b,
        ),
    decreases b.len(),
{
    lemma_split_lines_len(a);
    let r = split_lines(a);
    if b.len() == 0 {
        assert(a + b =~= a);
        assert(r.last() + b =~= r.last());
        assert(r.update(r.len() - 1, r.last() + b) =~~= r);
    } else {
        let b0 = b.drop_last();
        let c = b.last();
        assert(b[b.len() - 1] == c);
        assert(c != '\n');
        assert forall|j: int| 0 <= j < b0.len() implies #[trigger] b0[j] != '\n' by {
            assert(b0[j] == b[j]);
        }
        assert(!b0.contains('\n'));
        lemma_split_append_line(a, b0);
        let p = a + b;
        assert(p.len() > 0);
        assert(p.last() == c);
        assert(p.drop_last() =~= a + b0);
        let q = split_lines(a + b0);
        assert(split_lines(p) == q.update(q.len() - 1, q.last().push(c)));
        assert(q == r.update(r.len() - 1, r.last() + b0));
        assert(q.len() == r.len());
        assert(q.last() == r.last() + b0);
        assert(q.last().push(c) =~= r.last() + b);
        assert(q.update(q.len() - 1, q.last().push(c)) =~~= r.update(r.len() - 1, r.last() + b));
    }
}

/// A closing newline starts a new, empty, last line.
pub proof fn lemma_split_push_nl(a: Seq<char>)
    ensures
        split_lines(a.push('\n')) == split_lines(a).push(Seq::<char>::empty()),
{
    let p = a.push('\n');
    assert(p.last() == '\n');
    assert(p.drop_last() =~= a);
}

/// Splitting undoes joining, as long as every joined line was free of
/// newlines.
pub proof fn lemma_split_join(ls: Seq<Seq<char>>)
    requires
        ls.len() >= 1,
        forall|i: int| 0 <= i < ls.len() ==> !(#[trigger] ls[i]).contains('\n'),
    ensures
        split_lines(join_lines(ls)) == ls,
    decreases ls.len(),
{
    if ls.len() == 1 {
        lemma_split_single(ls[0]);
        assert(join_lines(ls) == ls[0]);
        assert(split_lines(join_lines(ls)) =~~= ls);
    } else {
        let front = ls.drop_last();
        assert forall|i: int| 0 <= i < front.len() implies !(#[trigger] front[i]).contains(
            '\n',
        ) by {
            assert(front[i] == ls[i]);
        }
        lemma_split_join(front);
        let jf = join_lines(front);
        assert(join_lines(ls) == jf + seq!['\n'] + ls.last());
        lemma_split_push_nl(jf);
        assert(jf + seq!['\n'] =~= jf.push('\n'));
        lemma_split_append_line(jf + seq!['\n'], ls.last());
        assert((jf + seq!['\n']) + ls.last() =~= jf + seq!['\n'] + ls.last());
        let w = split_lines(jf + seq!['\n']);
        assert(w == front.push(Seq::<char>::empty()));
        assert(w.last() =~= Seq::<char>::empty());
        assert(w.last() + ls.last() =~= ls.last());
        assert(w.update(w.len() - 1, w.last() + ls.last()) =~~= ls);
    }
}

/// Cut a text into its lines, one `String` per line.
pub(crate) fn split_text(s: &str) -> (r: Vec<String>)
    ensures
        r.deep_view() == split_lines(s@),
{
    let n: usize = s.unicode_len();
    let mut acc: Vec<String> = Vec::new();
    let mut cur: String = String::new();
    let mut i: usize = 0;
    proof {
        assert(s@.take(0) =~= Seq::<char>::empty());
        assert(acc.deep_view().push(cur@) =~~= seq![Seq::<char>::empty()]);
    }
    while i < n
        invariant
            i <= n,
            n == s@.len(),
            acc.deep_view().push(cur@) == split_lines(s@.take(i as int)),
        decreases n - i,
    {
        let ghost prev = acc.deep_view().push(cur@);
        let c = s.get_char(i);
        if c == '\n' {
            acc.push(cur);
            cur = String::new();
        } else {
            let piece = s.substring_char(i, i + 1);
            cur.append(piece);
        }
        proof {
            let p = s@.take(i + 1);
            assert(p.last() == s@[i as int]);
            assert(p.drop_last() =~= s@.take(i as int));
            if c == '\n' {
                assert(acc.deep_view() =~~= prev);
                assert(acc.deep_view().push(cur@) =~~= prev.push(Seq::<char>::empty()));
            } else {
                assert(cur@ =~= prev.last().push(c));
                assert(acc.deep_view().push(cur@) =~~= prev.update(
                    prev.len() - 1,
                    prev.last().push(c),
                ));
            }
        }
        i = i + 1;
    }
    acc.push(cur);
    proof {
        assert(s@.take(n as int) =~= s@);
        assert(acc.deep_view() =~~= split_lines(s@));
    }
    acc
}

/// Join lines back into one text, a newline between each two.
pub(crate) fn join_text(ls: &Vec<String>) -> (r: String)
    requires
        ls.len() >= 1,
    ensures
        r@ == join_lines(ls.deep_view()),
{
    let mut out = String::from_str(ls[0].as_str());
    let mut k: usize = 1;
    proof {
        assert(ls.deep_view().take(1)[0] == ls@[0]@);
        assert(out@ == join_lines(ls.deep_view().take(1)));
    }
    while k < ls.len()
        invariant
            1 <= k <= ls.len(),
            out@ == join_lines(ls.deep_view().take(k as int)),
        decreases ls.len() - k,
    {
        out.append("\n");
        out.append(ls[k].as_str());
        proof {
            reveal_strlit("\n");
            assert("\n"@ =~= seq!['\n']);
            let dv = ls.deep_view();
            assert(dv.take(k + 1).drop_last() =~= dv.take(k as int));
            assert(dv.take(k + 1).last() == dv[k as int]);
            assert(dv[k as int] == ls@[k as int]@);
        }
        k = k + 1;
    }
    proof {
        assert(ls.deep_view().take(ls.len() as int) =~= ls.deep_view());
    }
    out
}

} // verus!
