use vstd::prelude::*;
use crate::cost_model::{CostModel, CostModelView, views_of};
use crate::segmenter::{best_match, best_split, cost_array, lemma_best_split_unique};

verus! {

/// A decimal digit.
pub open spec fn is_digit(c: char) -> bool {
    '0' <= c && c <= '9'
}

/// Whether fragment `f` joins the token emitted last instead of standing
/// alone: a bare apostrophe never does; any other fragment does when the
/// last token is `'s`, or when both begin with a digit.
pub open spec fn merges_with(acc: Seq<Seq<char>>, f: Seq<char>, merge: bool) -> bool {
    &&& merge
    &&& f != seq!['\'']
    &&& acc.len() > 0
    &&& (acc.last() == seq!['\'', 's'] || (f.len() > 0 && acc.last().len() > 0 && is_digit(f[0])
        && is_digit(acc.last()[0])))
}

/// The tokens, last first, after fragment `f` is emitted.
pub open spec fn add_fragment(acc: Seq<Seq<char>>, f: Seq<char>, merge: bool) -> Seq<Seq<char>> {
    if merges_with(acc, f, merge) {
        acc.update(acc.len() - 1, f + acc.last())
    } else {
        acc.push(f)
    }
}

/// The tokens, last first, that the walk back from position `i` over the
/// cost array `c` adds to `acc`.
pub open spec fn emit(
    m: CostModelView,
    t: Seq<char>,
    c: Seq<u64>,
    i: nat,
    acc: Seq<Seq<char>>,
    merge: bool,
) -> Seq<Seq<char>>
    decreases i,
{
    if i == 0 {
        acc
    } else {
        let k = best_split(m, t, c, i as int);
        if 1 <= k <= i {
            emit(
                m,
                t,
                c,
                (i - k) as nat,
                add_fragment(acc, t.subrange(i - k, i as int), merge),
                merge,
            )
        } else {
            acc
        }
    }
}

/// The tokens of `t`, in reading order.
pub open spec fn tokens_of(m: CostModelView, t: Seq<char>, merge: bool) -> Seq<Seq<char>> {
    emit(m, t, cost_array(m, t, t.len()), t.len(), Seq::empty(), merge).reverse()
}

/// The words joined by single spaces.
pub open spec fn join_words(ws: Seq<Seq<char>>) -> Seq<char>
    decreases ws.len(),
{
    if ws.len() == 0 {
        Seq::empty()
    } else if ws.len() == 1 {
        ws[0]
    } else {
        join_words(ws.drop_last()) + seq![' '] + ws.last()
    }
}

fn is_decimal_digit(c: char) -> (r: bool)
    ensures
        r == is_digit(c),
{
    '0' <= c && c <= '9'
}

/// Walks the cost array back from the end of `text`, emitting the best
/// split at each step; returns the tokens last first.
pub fn minimal_cost(model: &CostModel, text: &str, cost: &Vec<u64>, merge: bool) -> (r: Vec<
    String,
>)
    requires
        cost@.len() == text@.len() + 1,
    ensures
        views_of(r@) == emit(model@, text@, cost@, text@.len(), Seq::empty(), merge),
        forall|j: int| 0 <= j < r@.len() ==> (#[trigger] r@[j])@.len() > 0,
{
    let ghost m = model@;
    let ghost whole = emit(m, text@, cost@, text@.len(), Seq::empty(), merge);
    let mut result: Vec<String> = Vec::new();
    let mut i: usize = text.unicode_len();
    assert(views_of(result@) == Seq::<Seq<char>>::empty());
    while i > 0
        invariant
            m == model@,
            cost@.len() == text@.len() + 1,
            i <= text@.len(),
            whole == emit(m, text@, cost@, i as nat, views_of(result@), merge),
            forall|j: int| 0 <= j < result@.len() ==> (#[trigger] result@[j])@.len() > 0,
        decreases i,
    {
        let (_c, k) = best_match(model, text, cost, i);
        proof {
            lemma_best_split_unique(m, text@, cost@, i as int, k as int);
        }
        let frag = text.substring_char(i - k, i);
        let ghost acc = views_of(result@);
        let ghost next = add_fragment(acc, frag@, merge);
        let mut joins = false;
        let bare_apostrophe = k == 1 && frag.get_char(0) == '\'';
        assert(bare_apostrophe <==> frag@ == seq!['\'']) by {
            if bare_apostrophe {
                assert(frag@ =~= seq!['\'']);
            }
        }
        if merge && !bare_apostrophe && result.len() > 0 {
            let n = result.len();
            let last = &result[n - 1];
            assert(last@ == acc.last());
            let last_len = last.as_str().unicode_len();
            let is_s = last_len == 2 && last.as_str().get_char(0) == '\''
                && last.as_str().get_char(1) == 's';
            assert(is_s <==> last@ == seq!['\'', 's']) by {
                if is_s {
                    assert(last@ =~= seq!['\'', 's']);
                }
            }
            joins = is_s || (is_decimal_digit(frag.get_char(0)) && is_decimal_digit(
                last.as_str().get_char(0),
            ));
        }
        assert(joins == merges_with(acc, frag@, merge));
        if joins {
            let last = result.pop().unwrap();
            let mut merged = frag.to_owned();
            merged.append(last.as_str());
            result.push(merged);
            assert(views_of(result@) =~= next);
        } else {
            result.push(frag.to_owned());
            assert(views_of(result@) =~= next);
        }
        i = i - k;
    }
    result
}

/// Joins the tokens, taken from last to first, with single spaces.
pub fn join_reversed(tokens: &Vec<String>) -> (r: String)
    ensures
        r@ == join_words(views_of(tokens@).reverse()),
{
    let ghost rev = views_of(tokens@).reverse();
    let n = tokens.len();
    let mut out = String::new();
    let mut j: usize = 0;
    assert(rev.take(0) =~= Seq::<Seq<char>>::empty());
    while j < n
        invariant
            n == tokens@.len(),
            rev == views_of(tokens@).reverse(),
            j <= n,
            out@ == join_words(rev.take(j as int)),
        decreases n - j,
    {
        proof {
            reveal_strlit(" ");
        }
        if j > 0 {
            out.append(" ");
        }
        out.append(tokens[n - 1 - j].as_str());
        assert(rev.take(j + 1).drop_last() =~= rev.take(j as int));
        assert(rev[j as int] == tokens@[n - 1 - j]@);
        j = j + 1;
    }
    assert(rev.take(n as int) =~= rev);
    out
}

} // verus!
