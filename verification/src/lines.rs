//! Sorting lines of text and joining them with line breaks.
use vstd::prelude::*;
use vstd::multiset::Multiset;
use vstd::relations::sorted_by;
use vstd::seq_lib::{lemma_sorted_unique, to_multiset_insert};

use crate::text::{
    compare_chars, lemma_lex_le_total_ordering, lemma_lex_lt_asymmetric, lemma_lex_lt_connected,
    lemma_lex_lt_transitive, lex_le, lex_lt, TextOrder,
};

verus! {

/// The contents of a list of character vectors.
pub open spec fn texts_view(v: Seq<Vec<char>>) -> Seq<Seq<char>> {
    v.map_values(|x: Vec<char>| x@)
}

/// The lines in lexicographic order (a permutation of `lines`).
pub open spec fn sorted_lines(lines: Seq<Seq<char>>) -> Seq<Seq<char>> {
    lines.sort_by(|a: Seq<char>, b: Seq<char>| lex_le(a, b))
}

/// The lines separated by `\n` (no line break after the last one).
pub open spec fn join_lines(lines: Seq<Seq<char>>) -> Seq<char>
    decreases lines.len(),
{
    if lines.len() == 0 {
        seq![]
    } else if lines.len() == 1 {
        lines[0]
    } else {
        join_lines(lines.drop_last()) + seq!['\n'] + lines.last()
    }
}

/// `sorted_lines` is in order and holds the same lines.
pub proof fn lemma_sorted_lines(lines: Seq<Seq<char>>)
    ensures
        sorted_by(sorted_lines(lines), |a: Seq<char>, b: Seq<char>| lex_le(a, b)),
        sorted_lines(lines).to_multiset() == lines.to_multiset(),
        sorted_lines(lines).len() == lines.len(),
{
    lemma_lex_le_total_ordering();
    lines.lemma_sort_by_ensures(|a: Seq<char>, b: Seq<char>| lex_le(a, b));
    broadcast use vstd::seq_lib::group_to_multiset_ensures;

    assert(sorted_lines(lines).len() == sorted_lines(lines).to_multiset().len());
}

/// Sorts texts lexicographically.
pub fn sort_texts(v: Vec<Vec<char>>) -> (r: Vec<Vec<char>>)
    ensures
        texts_view(r@) == sorted_lines(texts_view(v@)),
{
    let ghost le = |a: Seq<char>, b: Seq<char>| lex_le(a, b);
    let ghost input = texts_view(v@);
    let mut out: Vec<Vec<char>> = Vec::new();
    let mut rest = v;
    proof {
        broadcast use vstd::seq_lib::group_to_multiset_ensures;
        broadcast use vstd::multiset::group_multiset_properties;
        broadcast use vstd::multiset::group_multiset_axioms;

        assert(texts_view(out@) =~= Seq::<Seq<char>>::empty());
        assert(texts_view(out@).to_multiset() =~= Multiset::empty());
        assert(texts_view(out@).to_multiset().add(texts_view(rest@).to_multiset())
            =~= input.to_multiset());
    }
    // Move the elements into `out` one by one, from the back of `rest`.
    while rest.len() > 0
        invariant
            sorted_by(texts_view(out@), le),
            le == (|a: Seq<char>, b: Seq<char>| lex_le(a, b)),
            texts_view(out@).to_multiset().add(texts_view(rest@).to_multiset())
                == input.to_multiset(),
        decreases rest.len(),
    {
        let ghost rest_before = texts_view(rest@);
        let x = rest.pop().unwrap();
        proof {
            broadcast use vstd::seq_lib::group_to_multiset_ensures;

            assert(rest_before =~= texts_view(rest@).push(x@));
        }
        let ghost ov = texts_view(out@);
        let mut pos: usize = 0;
        while pos < out.len() && compare_chars(&x, &out[pos]) != TextOrder::Less
            invariant
                pos <= out.len(),
                ov == texts_view(out@),
                forall|j: int| 0 <= j < pos ==> !lex_lt(x@, #[trigger] ov[j]),
            decreases out.len() - pos,
        {
            pos = pos + 1;
        }
        let ghost nv = ov.insert(pos as int, x@);
        proof {
            assert forall|a: int, b: int| 0 <= a < b < nv.len() implies #[trigger] le(
                nv[a],
                nv[b],
            ) by {
                if b < pos {
                    assert(le(ov[a], ov[b]));
                } else if b == pos {
                    assert(!lex_lt(x@, ov[a]));
                } else if a < pos {
                    assert(nv[b] == ov[b - 1]);
                    assert(le(ov[a], ov[b - 1]));
                } else if a == pos {
                    assert(nv[b] == ov[b - 1]);
                    assert(lex_lt(x@, ov[pos as int]));
                    if b - 1 > pos {
                        assert(le(ov[pos as int], ov[b - 1]));
                        if lex_lt(ov[b - 1], x@) {
                            lemma_lex_lt_transitive(ov[b - 1], x@, ov[pos as int]);
                        }
                    } else {
                        lemma_lex_lt_asymmetric(x@, ov[b - 1]);
                    }
                } else {
                    assert(nv[a] == ov[a - 1] && nv[b] == ov[b - 1]);
                    assert(le(ov[a - 1], ov[b - 1]));
                }
            }
            to_multiset_insert(ov, pos as int, x@);
        }
        out.insert(pos, x);
        proof {
            assert(texts_view(out@) =~= nv);
            broadcast use vstd::multiset::group_multiset_axioms;

            assert(texts_view(out@).to_multiset().add(texts_view(rest@).to_multiset())
                =~= input.to_multiset());
        }
    }
    proof {
        broadcast use vstd::seq_lib::group_to_multiset_ensures;
        broadcast use vstd::multiset::group_multiset_properties;
        broadcast use vstd::multiset::group_multiset_axioms;

        assert(texts_view(rest@).len() == 0);
        assert(texts_view(rest@).to_multiset() =~= Multiset::empty());

        assert(texts_view(out@).to_multiset() =~= input.to_multiset());
        lemma_sorted_lines(input);
        lemma_lex_le_total_ordering();
        lemma_sorted_unique(texts_view(out@), sorted_lines(input), le);
    }
    out
}

/// Joins texts with `\n` between them.
pub fn join_texts(v: &Vec<Vec<char>>) -> (r: String)
    ensures
        r@ == join_lines(texts_view(v@)),
{
    let ghost lv = texts_view(v@);
    let mut s = String::new();
    let mut i: usize = 0;
    while i < v.len()
        invariant
            i <= v.len(),
            lv == texts_view(v@),
            s@ == join_lines(lv.take(i as int)),
        decreases v.len() - i,
    {
        let ghost before = s@;
        if i > 0 {
            s.push('\n');
        }
        let line = &v[i];
        let mut j: usize = 0;
        while j < line.len()
            invariant
                j <= line.len(),
                s@ == before + (if i > 0 {
                    seq!['\n']
                } else {
                    seq![]
                }) + line@.take(j as int),
            decreases line.len() - j,
        {
            s.push(line[j]);
            assert(line@.take(j + 1) =~= line@.take(j as int).push(line@[j as int]));
            j = j + 1;
        }
        proof {
            let t = lv.take(i + 1);
            assert(t.drop_last() =~= lv.take(i as int));
            assert(t.last() == line@);
            assert(line@.take(j as int) =~= line@);
            if i == 0 {
                assert(lv.take(0) =~= Seq::<Seq<char>>::empty());
                assert(t[0] == line@);
            }
        }
        assert(s@ =~= join_lines(lv.take(i + 1)));
        i = i + 1;
    }
    assert(lv.take(i as int) =~= lv);
    s
}

} // verus!
