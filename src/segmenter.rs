use vstd::prelude::*;
use crate::cost_model::{CostModel, CostModelView, add_cost, add_costs, cost_of};

verus! {

/// `s` with `x` placed before its first element that `x` is at least.
pub open spec fn insert_desc(s: Seq<u64>, x: u64) -> Seq<u64>
    decreases s.len(),
{
    if s.len() == 0 {
        seq![x]
    } else if x >= s[0] {
        seq![x] + s
    } else {
        seq![s[0]] + insert_desc(s.drop_first(), x)
    }
}

/// The values of `s` in descending order.
pub open spec fn sort_desc(s: Seq<u64>) -> Seq<u64>
    decreases s.len(),
{
    if s.len() == 0 {
        Seq::empty()
    } else {
        insert_desc(sort_desc(s.drop_last()), s.last())
    }
}

pub open spec fn is_desc(s: Seq<u64>) -> bool {
    forall|a: int, b: int| 0 <= a < b < s.len() ==> s[a] >= s[b]
}

proof fn lemma_insert_desc(s: Seq<u64>, x: u64)
    ensures
        insert_desc(s, x).len() == s.len() + 1,
        insert_desc(s, x).to_multiset() == s.to_multiset().insert(x),
        is_desc(s) ==> is_desc(insert_desc(s, x)),
    decreases s.len(),
{
    broadcast use vstd::seq_lib::group_to_multiset_ensures;
    if s.len() == 0 {
        assert(seq![x] == Seq::<u64>::empty().push(x));
    } else if x >= s[0] {
        assert(seq![x] + s == s.insert(0, x));
    } else {
        let t = s.drop_first();
        lemma_insert_desc(t, x);
        assert(s == seq![s[0]] + t);
        let r = seq![s[0]] + insert_desc(t, x);
        assert(r == insert_desc(t, x).insert(0, s[0]));
        assert(s == t.insert(0, s[0]));
        if is_desc(s) {
            let it = insert_desc(t, x);
            assert forall|v: u64| #[trigger] it.contains(v) implies v <= s[0] by {
                assert(it.to_multiset().count(v) > 0);
                if v != x {
                    assert(t.to_multiset().count(v) > 0);
                    let p = choose|p: int| 0 <= p < t.len() && t[p] == v;
                    assert(s[p + 1] == v);
                }
            }
            assert forall|a: int, b: int| 0 <= a < b < r.len() implies r[a] >= r[b] by {
                if a == 0 {
                    assert(it.contains(r[b]));
                } else {
                    assert(r[a] == it[a - 1] && r[b] == it[b - 1]);
                }
            }
        }
    }
}

/// The sorted order is descending and holds the same values.
pub proof fn lemma_sort_desc(s: Seq<u64>)
    ensures
        sort_desc(s).len() == s.len(),
        sort_desc(s).to_multiset() == s.to_multiset(),
        is_desc(sort_desc(s)),
    decreases s.len(),
{
    broadcast use vstd::seq_lib::group_to_multiset_ensures;
    if s.len() > 0 {
        lemma_sort_desc(s.drop_last());
        lemma_insert_desc(sort_desc(s.drop_last()), s.last());
        assert(s == s.drop_last().push(s.last()));
    }
}

proof fn lemma_insert_desc_at(s: Seq<u64>, x: u64, j: int)
    requires
        0 <= j <= s.len(),
        forall|p: int| 0 <= p < j ==> x < s[p],
        j == s.len() || x >= s[j],
    ensures
        insert_desc(s, x) == s.insert(j, x),
    decreases s.len(),
{
    if s.len() > 0 {
        if j == 0 {
            assert(seq![x] + s == s.insert(0, x));
        } else {
            let t = s.drop_first();
            lemma_insert_desc_at(t, x, j - 1);
            assert(seq![s[0]] + t.insert(j - 1, x) == s.insert(j, x));
        }
    } else {
        assert(seq![x] == s.insert(0, x));
    }
}

/// Inserts `x` into a vector kept in the order of `insert_desc`.
fn insert_sorted(v: &mut Vec<u64>, x: u64)
    ensures
        final(v)@ == insert_desc(old(v)@, x),
{
    let mut j: usize = 0;
    while j < v.len() && x < v[j]
        invariant
            j <= v.len(),
            forall|p: int| 0 <= p < j ==> x < v@[p],
        decreases v.len() - j,
    {
        j = j + 1;
    }
    proof {
        lemma_insert_desc_at(v@, x, j as int);
    }
    v.insert(j, x);
}

/// How many positions back a word may reach: the longest corpus word, and at
/// least one, so that every character can stand as a word of its own.
pub open spec fn lookback(m: CostModelView) -> int {
    if m.max_word_len == 0 {
        1
    } else {
        m.max_word_len as int
    }
}

/// The first prefix length in the window that ends at `i`.
pub open spec fn window_start(m: CostModelView, i: int) -> int {
    if i > lookback(m) {
        i - lookback(m)
    } else {
        0
    }
}

/// The prefix costs of the window that ends at `i`, in descending order.
pub open spec fn window(m: CostModelView, c: Seq<u64>, i: int) -> Seq<u64> {
    sort_desc(c.subrange(window_start(m, i), i))
}

/// The total cost of the split of length `k` at `i`: the `k`-th largest
/// prefix cost of the window, plus (by `add_costs`) the cost of the last `k`
/// characters.
/// Where the window's costs do not decrease, the `k`-th largest is the cost
/// of the prefix of length `i - k`; elsewhere the pairing by sorted position
/// still decides, and segmentations depend on it.
pub open spec fn candidate(m: CostModelView, t: Seq<char>, c: Seq<u64>, i: int, k: int) -> u64 {
    add_costs(window(m, c, i)[k - 1], cost_of(m, t.subrange(i - k, i)))
}

/// `k` gives the least candidate at `i`, and no shorter split gives as little.
pub open spec fn is_best_split(m: CostModelView, t: Seq<char>, c: Seq<u64>, i: int, k: int) -> bool {
    &&& 1 <= k <= i - window_start(m, i)
    &&& forall|j: int|
        1 <= j <= i - window_start(m, i) ==> candidate(m, t, c, i, k) <= #[trigger] candidate(
            m,
            t,
            c,
            i,
            j,
        )
    &&& forall|j: int| 1 <= j < k ==> candidate(m, t, c, i, k) < #[trigger] candidate(m, t, c, i, j)
}

/// The split length chosen at `i`.
pub open spec fn best_split(m: CostModelView, t: Seq<char>, c: Seq<u64>, i: int) -> int {
    choose|k: int| is_best_split(m, t, c, i, k)
}

/// The least total cost of a split at `i`.
pub open spec fn best_cost(m: CostModelView, t: Seq<char>, c: Seq<u64>, i: int) -> u64 {
    candidate(m, t, c, i, best_split(m, t, c, i))
}

/// Only one split length is best.
pub proof fn lemma_best_split_unique(m: CostModelView, t: Seq<char>, c: Seq<u64>, i: int, k: int)
    requires
        is_best_split(m, t, c, i, k),
    ensures
        best_split(m, t, c, i) == k,
{
    let b = best_split(m, t, c, i);
    assert(is_best_split(m, t, c, i, b));
    if b < k {
        assert(candidate(m, t, c, i, k) < candidate(m, t, c, i, b));
    } else if k < b {
        assert(candidate(m, t, c, i, b) < candidate(m, t, c, i, k));
    }
}

/// The cost array of the first `n` characters: entry `p` is the least cost of
/// the first `p` characters.
pub open spec fn cost_array(m: CostModelView, t: Seq<char>, n: nat) -> Seq<u64>
    decreases n,
{
    if n == 0 {
        seq![0u64]
    } else {
        let p = cost_array(m, t, (n - 1) as nat);
        p.push(best_cost(m, t, p, n as int))
    }
}

/// The best split at `i`, with its total cost.
pub fn best_match(model: &CostModel, text: &str, cost: &Vec<u64>, i: usize) -> (r: (u64, usize))
    requires
        1 <= i <= text@.len(),
        i <= cost.len(),
    ensures
        is_best_split(model@, text@, cost@, i as int, r.1 as int),
        r.0 == candidate(model@, text@, cost@, i as int, r.1 as int),
{
    let ghost m = model@;
    let max_len = model.max_word_len();
    let back: usize = if max_len == 0 {
        1
    } else {
        max_len
    };
    let start: usize = if i > back {
        i - back
    } else {
        0
    };
    let ghost slice = cost@.subrange(start as int, i as int);
    let mut sorted: Vec<u64> = Vec::new();
    let mut p: usize = start;
    while p < i
        invariant
            start <= p <= i <= cost.len(),
            sorted@ == sort_desc(cost@.subrange(start as int, p as int)),
        decreases i - p,
    {
        assert(cost@.subrange(start as int, p + 1).drop_last() == cost@.subrange(
            start as int,
            p as int,
        ));
        insert_sorted(&mut sorted, cost[p]);
        p = p + 1;
    }
    proof {
        lemma_sort_desc(slice);
    }
    let n = i - start;
    let mut best: u64 = 0;
    let mut best_k: usize = 0;
    let mut done: usize = 0;
    while done < n
        invariant
            m == model@,
            n == i - start,
            n >= 1,
            start == window_start(m, i as int),
            sorted@ == window(m, cost@, i as int),
            sorted@.len() == n,
            done <= n,
            i <= text@.len(),
            done > 0 ==> 1 <= best_k <= done,
            done > 0 ==> best == candidate(m, text@, cost@, i as int, best_k as int),
            forall|j: int|
                1 <= j <= done ==> best <= #[trigger] candidate(m, text@, cost@, i as int, j),
            forall|j: int|
                1 <= j < best_k ==> best < #[trigger] candidate(m, text@, cost@, i as int, j),
        decreases n - done,
    {
        let k = done + 1;
        let frag = text.substring_char(i - k, i);
        let wc = model.cost_of_fragment(frag);
        let cand = add_cost(sorted[k - 1], wc);
        assert(frag@ == text@.subrange(i - k, i as int));
        assert(cand == candidate(m, text@, cost@, i as int, k as int));
        if k == 1 || cand < best {
            best = cand;
            best_k = k;
        }
        done = k;
    }
    (best, best_k)
}

/// The cost array of `text`: entry `p` is the least total cost of the first
/// `p` characters, entry 0 being 0.
pub fn build_cost_array(model: &CostModel, text: &str) -> (r: Vec<u64>)
    ensures
        r@ == cost_array(model@, text@, text@.len()),
        r@.len() == text@.len() + 1,
{
    let len = text.unicode_len();
    let mut cost: Vec<u64> = Vec::new();
    cost.push(0);
    let mut done: usize = 0;
    while done < len
        invariant
            len == text@.len(),
            done <= len,
            cost@ == cost_array(model@, text@, done as nat),
            cost@.len() == done + 1,
        decreases len - done,
    {
        let i = done + 1;
        let (c, k) = best_match(model, text, &cost, i);
        proof {
            lemma_best_split_unique(model@, text@, cost@, i as int, k as int);
        }
        cost.push(c);
        done = i;
    }
    cost
}

} // verus!
