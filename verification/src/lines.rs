//! Splitting text into lines at `'\n'` and joining lines back, with the
//! lemmas making the two exact inverses.  The on-disk entry format is framed
//! in lines, so the serializer and the parser both rest on these.

use vstd::prelude::*;
use crate::text::lemma_find_absent;
use crate::text::lemma_find_is_first;
use crate::text::lemma_find_props;
use crate::text::spec_find;

verus! {

/// The pieces of `s` between the `'\n'` characters; always at least one
/// piece, and the pieces themselves are newline-free.
pub open spec fn spec_split_nl(s: Seq<char>) -> Seq<Seq<char>>
    decreases s.len(),
{
    let i = spec_find(s, '\n');
    if i >= s.len() {
        seq![s]
    } else {
        seq![s.take(i as int)] + spec_split_nl(s.skip(i as int + 1))
    }
}

/// The lines joined with a single `'\n'` between consecutive lines.
pub open spec fn spec_join_nl(ls: Seq<Seq<char>>) -> Seq<char>
    decreases ls.len(),
{
    if ls.len() == 0 {
        Seq::empty()
    } else if ls.len() == 1 {
        ls[0]
    } else {
        ls[0] + seq!['\n'] + spec_join_nl(ls.drop_first())
    }
}

/// Splitting yields at least one piece, and every piece is newline-free.
pub proof fn lemma_split_pieces(s: Seq<char>)
    ensures
        spec_split_nl(s).len() >= 1,
        forall|k: int|
            0 <= k < spec_split_nl(s).len() ==> !(#[trigger] spec_split_nl(s)[k]).contains('\n'),
    decreases s.len(),
{
    lemma_find_props(s, '\n');
    let i = spec_find(s, '\n');
    if i >= s.len() {
        assert forall|k: int|
            0 <= k < spec_split_nl(s).len() implies !(#[trigger] spec_split_nl(s)[k]).contains(
            '\n',
        ) by {
            assert(spec_split_nl(s)[k] == s);
            if s.contains('\n') {
                let j = choose|j: int| 0 <= j < s.len() && s[j] == '\n';
                assert(s[j] != '\n');
            }
        }
    } else {
        lemma_split_pieces(s.skip(i as int + 1));
        assert forall|k: int|
            0 <= k < spec_split_nl(s).len() implies !(#[trigger] spec_split_nl(s)[k]).contains(
            '\n',
        ) by {
            if k == 0 {
                assert(spec_split_nl(s)[0] == s.take(i as int));
                if s.take(i as int).contains('\n') {
                    let j = choose|j: int|
                        0 <= j < s.take(i as int).len() && s.take(i as int)[j] == '\n';
                    assert(s[j] != '\n');
                }
            } else {
                assert(spec_split_nl(s)[k] == spec_split_nl(s.skip(i as int + 1))[k - 1]);
            }
        }
    }
}

/// Splitting text whose first newline-free part is `line` peels `line` off.
pub proof fn lemma_split_prepend(line: Seq<char>, rest: Seq<char>)
    requires
        !line.contains('\n'),
    ensures
        spec_split_nl(line + seq!['\n'] + rest) == seq![line] + spec_split_nl(rest),
{
    let s = line + seq!['\n'] + rest;
    assert forall|i: int| 0 <= i < line.len() implies s[i] != '\n' by {
        assert(s[i] == line[i]);
        if line[i] == '\n' {
            assert(line.contains('\n'));
        }
    }
    assert(s[line.len() as int] == '\n');
    lemma_find_is_first(s, '\n', line.len() as int);
    assert(s.take(line.len() as int) =~= line);
    assert(s.skip(line.len() as int + 1) =~= rest);
}

/// Splitting newline-free text yields exactly that text as one piece.
pub proof fn lemma_split_absent(s: Seq<char>)
    requires
        !s.contains('\n'),
    ensures
        spec_split_nl(s) == seq![s],
{
    assert forall|i: int| 0 <= i < s.len() implies s[i] != '\n' by {
        if s[i] == '\n' {
            assert(s.contains('\n'));
        }
    }
    lemma_find_absent(s, '\n');
}

/// Joining the pieces of a split restores the text exactly.
pub proof fn lemma_join_split(s: Seq<char>)
    ensures
        spec_join_nl(spec_split_nl(s)) == s,
    decreases s.len(),
{
    lemma_find_props(s, '\n');
    let i = spec_find(s, '\n');
    if i >= s.len() {
        assert(spec_split_nl(s) == seq![s]);
    } else {
        lemma_join_split(s.skip(i as int + 1));
        lemma_split_pieces(s.skip(i as int + 1));
        let ls = seq![s.take(i as int)] + spec_split_nl(s.skip(i as int + 1));
        assert(ls.len() >= 2);
        assert(ls.drop_first() =~= spec_split_nl(s.skip(i as int + 1)));
        assert(s.take(i as int) + seq!['\n'] + s.skip(i as int + 1) =~= s);
    }
}

/// Splitting a join of newline-free lines restores the lines exactly.
pub proof fn lemma_split_join(ls: Seq<Seq<char>>)
    requires
        ls.len() >= 1,
        forall|k: int| 0 <= k < ls.len() ==> !(#[trigger] ls[k]).contains('\n'),
    ensures
        spec_split_nl(spec_join_nl(ls)) == ls,
    decreases ls.len(),
{
    if ls.len() == 1 {
        lemma_split_absent(ls[0]);
        assert(seq![ls[0]] =~= ls);
    } else {
        lemma_split_join(ls.drop_first());
        lemma_split_prepend(ls[0], spec_join_nl(ls.drop_first()));
        assert(seq![ls[0]] + ls.drop_first() =~= ls);
    }
}

/// Joining one more line appends a separator and that line.
pub proof fn lemma_join_snoc(ls: Seq<Seq<char>>, x: Seq<char>)
    requires
        ls.len() >= 1,
    ensures
        spec_join_nl(ls.push(x)) == spec_join_nl(ls) + seq!['\n'] + x,
    decreases ls.len(),
{
    assert(ls.push(x).len() == ls.len() + 1);
    assert(ls.push(x)[0] == ls[0]);
    assert(spec_join_nl(ls.push(x)) == ls[0] + seq!['\n'] + spec_join_nl(ls.push(x).drop_first()));
    if ls.len() == 1 {
        assert(ls.push(x).drop_first() =~= seq![x]);
        assert(spec_join_nl(seq![x]) == x);
        assert(spec_join_nl(ls) == ls[0]);
    } else {
        lemma_join_snoc(ls.drop_first(), x);
        assert(ls.push(x).drop_first() =~= ls.drop_first().push(x));
        assert(spec_join_nl(ls) == ls[0] + seq!['\n'] + spec_join_nl(ls.drop_first()));
        assert(ls[0] + seq!['\n'] + (spec_join_nl(ls.drop_first()) + seq!['\n'] + x) =~= (ls[0]
            + seq!['\n'] + spec_join_nl(ls.drop_first())) + seq!['\n'] + x);
    }
}

/// The deep view of a vector of character vectors is the sequence of the
/// character sequences it holds.
pub proof fn lemma_deep_view_index(w: Vec<Vec<char>>)
    ensures
        w.deep_view().len() == w@.len(),
        forall|i: int| 0 <= i < w@.len() ==> w.deep_view()[i] == (#[trigger] w@[i])@,
{
    assert forall|i: int| 0 <= i < w@.len() implies w.deep_view()[i] == (#[trigger] w@[i])@ by {
        assert(w.deep_view()[i] == w@[i].deep_view());
        assert(w@[i].deep_view() =~= w@[i]@);
    }
}

/// The lines of `v`, split at `'\n'`.
pub fn split_lines(v: &Vec<char>) -> (r: Vec<Vec<char>>)
    ensures
        r.deep_view() == spec_split_nl(v@),
{
    let mut out: Vec<Vec<char>> = Vec::new();
    let mut cur: Vec<char> = Vec::new();
    let ghost mut start: int = 0;
    let mut i: usize = 0;
    proof {
        lemma_deep_view_index(out);
        assert(v@.skip(0) =~= v@);
        assert(out.deep_view() + spec_split_nl(v@) =~= spec_split_nl(v@));
    }
    while i < v.len()
        invariant
            0 <= start <= i <= v@.len(),
            cur@ == v@.subrange(start, i as int),
            !cur@.contains('\n'),
            spec_split_nl(v@) == out.deep_view() + spec_split_nl(v@.skip(start)),
        decreases v@.len() - i,
    {
        let c = v[i];
        if c == '\n' {
            proof {
                assert(v@.skip(start) =~= cur@ + seq!['\n'] + v@.skip(i as int + 1));
                lemma_split_prepend(cur@, v@.skip(i as int + 1));
            }
            let ghost prev = out;
            let ghost cur_view = cur@;
            out.push(cur);
            cur = Vec::new();
            proof {
                lemma_deep_view_index(prev);
                lemma_deep_view_index(out);
                assert(out.deep_view() =~= prev.deep_view().push(cur_view));
                start = i as int + 1;
                assert(out.deep_view() + spec_split_nl(v@.skip(start)) =~= prev.deep_view() + (
                seq![cur_view] + spec_split_nl(v@.skip(start))));
            }
        } else {
            cur.push(c);
            proof {
                if cur@.contains('\n') {
                    let j = choose|j: int| 0 <= j < cur@.len() && cur@[j] == '\n';
                    assert(v@.subrange(start, i as int)[j] != '\n');
                }
                assert(cur@ =~= v@.subrange(start, i as int + 1));
            }
        }
        i = i + 1;
    }
    proof {
        assert(v@.skip(start) =~= cur@);
        lemma_split_absent(cur@);
    }
    let ghost prev = out;
    let ghost cur_view = cur@;
    out.push(cur);
    proof {
        lemma_deep_view_index(prev);
        lemma_deep_view_index(out);
        assert(out.deep_view() =~= prev.deep_view().push(cur_view));
        assert(prev.deep_view() + seq![cur_view] =~= prev.deep_view().push(cur_view));
    }
    out
}

/// The lines from position `from` on, joined with `'\n'`.
pub fn join_lines_from(lines: &Vec<Vec<char>>, from: usize) -> (r: Vec<char>)
    requires
        from <= lines@.len(),
    ensures
        r@ == spec_join_nl(lines.deep_view().skip(from as int)),
{
    let mut out: Vec<char> = Vec::new();
    if from >= lines.len() {
        proof {
            assert(lines.deep_view().skip(from as int) =~= Seq::<Seq<char>>::empty());
        }
        return out;
    }
    crate::text::push_all(&mut out, &lines[from]);
    proof {
        assert(lines.deep_view().subrange(from as int, from as int + 1) =~= seq![
            lines.deep_view()[from as int],
        ]);
        assert(out@ =~= spec_join_nl(lines.deep_view().subrange(from as int, from as int + 1)));
    }
    let mut k: usize = from + 1;
    while k < lines.len()
        invariant
            from < k <= lines@.len(),
            lines.deep_view().len() == lines@.len(),
            out@ == spec_join_nl(lines.deep_view().subrange(from as int, k as int)),
        decreases lines@.len() - k,
    {
        out.push('\n');
        crate::text::push_all(&mut out, &lines[k]);
        proof {
            lemma_join_snoc(
                lines.deep_view().subrange(from as int, k as int),
                lines.deep_view()[k as int],
            );
            assert(lines.deep_view().subrange(from as int, k as int).push(
                lines.deep_view()[k as int],
            ) =~= lines.deep_view().subrange(from as int, k as int + 1));
        }
        k = k + 1;
    }
    proof {
        assert(lines.deep_view().subrange(from as int, lines@.len() as int) =~= lines.deep_view()
            .skip(from as int));
    }
    out
}

} // verus!
