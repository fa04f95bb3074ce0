use vstd::prelude::*;
use crate::backtracker::{add_fragment, emit, join_words, merges_with, tokens_of};
use crate::cost_model::CostModelView;
use crate::language_model::{installed, segment_of};
use crate::segmenter::{
    best_split,
    candidate,
    cost_array,
    is_best_split,
    lemma_best_split_unique,
    window_start,
};

verus! {

/// `s` without its space characters.
pub open spec fn strip_spaces(s: Seq<char>) -> Seq<char>
    decreases s.len(),
{
    if s.len() == 0 {
        Seq::empty()
    } else {
        let rest = strip_spaces(s.drop_last());
        if s.last() == ' ' {
            rest
        } else {
            rest.push(s.last())
        }
    }
}

proof fn lemma_strip_concat(a: Seq<char>, b: Seq<char>)
    ensures
        strip_spaces(a + b) == strip_spaces(a) + strip_spaces(b),
    decreases b.len(),
{
    if b.len() == 0 {
        assert(a + b == a);
        assert(strip_spaces(a) + strip_spaces(b) == strip_spaces(a));
    } else {
        lemma_strip_concat(a, b.drop_last());
        assert((a + b).drop_last() == a + b.drop_last());
        assert((a + b).last() == b.last());
        if b.last() != ' ' {
            assert(strip_spaces(a) + strip_spaces(b.drop_last()).push(b.last()) == (strip_spaces(a)
                + strip_spaces(b.drop_last())).push(b.last()));
        }
    }
}

proof fn lemma_strip_no_spaces(s: Seq<char>)
    requires
        !s.contains(' '),
    ensures
        strip_spaces(s) == s,
    decreases s.len(),
{
    if s.len() > 0 {
        let d = s.drop_last();
        assert(!d.contains(' ')) by {
            if d.contains(' ') {
                let p = choose|p: int| 0 <= p < d.len() && d[p] == ' ';
                assert(s[p] == ' ');
            }
        }
        lemma_strip_no_spaces(d);
        assert(s.last() != ' ') by {
            assert(s[s.len() - 1] == s.last());
        }
        assert(d.push(s.last()) == s);
    }
}

/// The first least candidate among split lengths `1..=n`.
spec fn argmin_upto(m: CostModelView, t: Seq<char>, c: Seq<u64>, i: int, n: int) -> int
    decreases n,
{
    if n <= 1 {
        1
    } else {
        let b = argmin_upto(m, t, c, i, n - 1);
        if candidate(m, t, c, i, n) < candidate(m, t, c, i, b) {
            n
        } else {
            b
        }
    }
}

proof fn lemma_argmin_upto(m: CostModelView, t: Seq<char>, c: Seq<u64>, i: int, n: int)
    requires
        n >= 1,
    ensures
        1 <= argmin_upto(m, t, c, i, n) <= n,
        forall|j: int|
            1 <= j <= n ==> candidate(m, t, c, i, argmin_upto(m, t, c, i, n)) <= #[trigger] candidate(
                m,
                t,
                c,
                i,
                j,
            ),
        forall|j: int|
            1 <= j < argmin_upto(m, t, c, i, n) ==> candidate(m, t, c, i, argmin_upto(m, t, c, i, n))
                < #[trigger] candidate(m, t, c, i, j),
    decreases n,
{
    if n > 1 {
        lemma_argmin_upto(m, t, c, i, n - 1);
    }
}

/// At every position past the start a best split exists, and it stays
/// within the text read so far.
pub proof fn lemma_best_split_exists(m: CostModelView, t: Seq<char>, c: Seq<u64>, i: int)
    requires
        i >= 1,
    ensures
        is_best_split(m, t, c, i, best_split(m, t, c, i)),
        1 <= best_split(m, t, c, i) <= i,
{
    let n = i - window_start(m, i);
    lemma_argmin_upto(m, t, c, i, n);
    let a = argmin_upto(m, t, c, i, n);
    assert(is_best_split(m, t, c, i, a));
    lemma_best_split_unique(m, t, c, i, a);
}

proof fn lemma_flatten_prepend(x: Seq<char>, rest: Seq<Seq<char>>)
    ensures
        (seq![x] + rest).flatten() == x + rest.flatten(),
{
    let s = seq![x] + rest;
    assert(s.first() == x);
    assert(s.drop_first() == rest);
}

proof fn lemma_reverse_last(acc: Seq<Seq<char>>)
    requires
        acc.len() > 0,
    ensures
        acc.reverse() == seq![acc.last()] + acc.drop_last().reverse(),
{
    assert(acc.reverse() =~= seq![acc.last()] + acc.drop_last().reverse());
}

proof fn lemma_add_fragment_flat(acc: Seq<Seq<char>>, f: Seq<char>, merge: bool)
    ensures
        add_fragment(acc, f, merge).reverse().flatten() == f + acc.reverse().flatten(),
{
    let next = add_fragment(acc, f, merge);
    if merges_with(acc, f, merge) {
        let last = acc.last();
        lemma_reverse_last(acc);
        lemma_reverse_last(next);
        assert(next.drop_last() == acc.drop_last());
        assert(next.last() == f + last);
        lemma_flatten_prepend(f + last, acc.drop_last().reverse());
        lemma_flatten_prepend(last, acc.drop_last().reverse());
        assert(f + last + acc.drop_last().reverse().flatten() == f + (last + acc.drop_last().reverse().flatten()));
    } else {
        lemma_reverse_last(next);
        assert(next.drop_last() == acc);
        lemma_flatten_prepend(f, acc.reverse());
    }
}

proof fn lemma_emit_flat(
    m: CostModelView,
    t: Seq<char>,
    c: Seq<u64>,
    i: nat,
    acc: Seq<Seq<char>>,
    merge: bool,
)
    requires
        i <= t.len(),
    ensures
        emit(m, t, c, i, acc, merge).reverse().flatten() == t.subrange(0, i as int) + acc.reverse().flatten(),
    decreases i,
{
    if i == 0 {
        assert(t.subrange(0, 0) + acc.reverse().flatten() == acc.reverse().flatten());
    } else {
        lemma_best_split_exists(m, t, c, i as int);
        let k = best_split(m, t, c, i as int);
        let f = t.subrange(i - k, i as int);
        let next = add_fragment(acc, f, merge);
        lemma_emit_flat(m, t, c, (i - k) as nat, next, merge);
        lemma_add_fragment_flat(acc, f, merge);
        assert(t.subrange(0, i - k) + f == t.subrange(0, i as int));
        assert(t.subrange(0, i - k) + (f + acc.reverse().flatten()) == t.subrange(0, i - k) + f
            + acc.reverse().flatten());
    }
}

proof fn lemma_strip_join(ws: Seq<Seq<char>>)
    ensures
        strip_spaces(join_words(ws)) == strip_spaces(ws.flatten()),
    decreases ws.len(),
{
    broadcast use Seq::lemma_flatten_push;
    if ws.len() == 1 {
        lemma_flatten_prepend(ws[0], Seq::empty());
        assert(seq![ws[0]] + Seq::<Seq<char>>::empty() == ws);
        assert(ws[0] + Seq::<char>::empty() == ws[0]);
    } else if ws.len() > 1 {
        let d = ws.drop_last();
        lemma_strip_join(d);
        assert(d.push(ws.last()) == ws);
        lemma_strip_concat(join_words(d) + seq![' '], ws.last());
        lemma_strip_concat(join_words(d), seq![' ']);
        lemma_strip_concat(d.flatten(), ws.last());
        assert(seq![' '].drop_last() == Seq::<char>::empty());
        assert(seq![' '].last() == ' ');
        assert(strip_spaces(Seq::<char>::empty()) == Seq::<char>::empty());
        assert(strip_spaces(seq![' ']) == Seq::<char>::empty());
        assert(strip_spaces(join_words(d)) + Seq::<char>::empty() == strip_spaces(join_words(d)));
    }
}

/// The tokens of a text, read in order, spell the text again.
pub proof fn lemma_tokens_spell_text(m: CostModelView, t: Seq<char>, merge: bool)
    ensures
        tokens_of(m, t, merge).flatten() == t,
{
    let c = cost_array(m, t, t.len());
    lemma_emit_flat(m, t, c, t.len(), Seq::empty(), merge);
    assert(Seq::<Seq<char>>::empty().reverse() == Seq::<Seq<char>>::empty());
    assert(Seq::<Seq<char>>::empty().flatten() == Seq::<char>::empty());
    assert(t.subrange(0, t.len() as int) + Seq::<char>::empty() == t);
}

/// Segmentation only inserts spaces: with the spaces taken out, the output
/// holds the characters of the input in order, and is the input itself
/// where the input has no space.
pub proof fn lemma_segment_keeps_characters(m: CostModelView, t: Seq<char>, merge: bool)
    ensures
        strip_spaces(segment_of(m, t, merge)) == strip_spaces(t),
        !t.contains(' ') ==> strip_spaces(segment_of(m, t, merge)) == t,
{
    lemma_tokens_spell_text(m, t, merge);
    lemma_strip_join(tokens_of(m, t, merge));
    if !t.contains(' ') {
        lemma_strip_no_spaces(t);
    }
}

/// The empty text segments to the empty string.
pub proof fn lemma_empty_text(m: CostModelView, merge: bool)
    ensures
        segment_of(m, Seq::empty(), merge) == Seq::<char>::empty(),
{
    assert(tokens_of(m, Seq::empty(), merge) == Seq::<Seq<char>>::empty());
}

/// Segmentation is a function of the model and the text: equal inputs give
/// equal outputs.
pub proof fn lemma_segment_deterministic(
    m1: CostModelView,
    m2: CostModelView,
    t1: Seq<char>,
    t2: Seq<char>,
    merge: bool,
)
    requires
        m1 == m2,
        t1 == t2,
    ensures
        segment_of(m1, t1, merge) == segment_of(m2, t2, merge),
{
}

/// A cost model is built at most once: once `install_cost_model` has stored
/// one, no later corpus replaces it.
pub proof fn lemma_cost_model_built_once(
    current: Option<CostModelView>,
    words1: Seq<Seq<char>>,
    costs1: Seq<u64>,
    words2: Seq<Seq<char>>,
    costs2: Seq<u64>,
    fold_case: bool,
)
    ensures
        installed(current, words1, costs1, fold_case) is Some,
        current is Some ==> installed(current, words1, costs1, fold_case) == current,
        installed(installed(current, words1, costs1, fold_case), words2, costs2, fold_case)
            == installed(current, words1, costs1, fold_case),
{
}

} // verus!
