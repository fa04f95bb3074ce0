use vstd::prelude::*;
use vstd::hash_map::StringHashMap;

verus! {

/// The cost given to a fragment that the corpus does not hold: strongly
/// discouraged, never forbidden. It is the largest finite cost.
pub const UNKNOWN_COST: u64 = 0xffff_ffff_ffff_fffe;

/// The cost beyond every finite one: a total that holds two unknown
/// fragments, or that outgrows `UNKNOWN_COST`.
pub const INFINITE_COST: u64 = 0xffff_ffff_ffff_ffff;

/// The sum of two costs. A finite cost added to `UNKNOWN_COST` stays
/// `UNKNOWN_COST`, so one unknown fragment outweighs any known ones; two
/// unknown fragments, or a sum past `UNKNOWN_COST`, give `INFINITE_COST`,
/// which absorbs everything added to it.
pub open spec fn add_costs(a: u64, b: u64) -> u64 {
    if a == INFINITE_COST || b == INFINITE_COST {
        INFINITE_COST
    } else if a == UNKNOWN_COST && b == UNKNOWN_COST {
        INFINITE_COST
    } else if a == UNKNOWN_COST || b == UNKNOWN_COST {
        UNKNOWN_COST
    } else if a + b <= UNKNOWN_COST {
        (a + b) as u64
    } else {
        INFINITE_COST
    }
}

/// Adds two costs as `add_costs` says.
pub fn add_cost(a: u64, b: u64) -> (r: u64)
    ensures
        r == add_costs(a, b),
{
    if a == INFINITE_COST || b == INFINITE_COST {
        INFINITE_COST
    } else if a == UNKNOWN_COST && b == UNKNOWN_COST {
        INFINITE_COST
    } else if a == UNKNOWN_COST || b == UNKNOWN_COST {
        UNKNOWN_COST
    } else if a <= UNKNOWN_COST - b {
        a + b
    } else {
        INFINITE_COST
    }
}

/// What `str::to_lowercase` makes of a sequence of characters.
pub uninterp spec fn lower_of(s: Seq<char>) -> Seq<char>;

/// Relies on `str::to_lowercase`: the lower-case form of `s`, a function of
/// its characters alone.
#[verifier::external_body]
pub(crate) fn lowercase(s: &str) -> (r: String)
    ensures
        r@ == lower_of(s@),
{
    s.to_lowercase()
}

/// The form under which a word is stored and looked up.
pub open spec fn key_of(word: Seq<char>, fold_case: bool) -> Seq<char> {
    if fold_case {
        lower_of(word)
    } else {
        word
    }
}

/// The dictionary built from ranked words and their costs: each word in
/// order, a later entry overwriting an earlier one with the same key.
pub open spec fn dict_of(words: Seq<Seq<char>>, costs: Seq<u64>, fold_case: bool) -> Map<
    Seq<char>,
    u64,
>
    decreases words.len(),
{
    if words.len() == 0 {
        Map::empty()
    } else {
        let n = (words.len() - 1) as int;
        dict_of(words.take(n), costs, fold_case).insert(key_of(words[n], fold_case), costs[n])
    }
}

/// The number of characters of the longest word.
pub open spec fn max_len_of(words: Seq<Seq<char>>) -> nat
    decreases words.len(),
{
    if words.len() == 0 {
        0
    } else {
        let n = (words.len() - 1) as int;
        let rest = max_len_of(words.take(n));
        if words[n].len() > rest {
            words[n].len()
        } else {
            rest
        }
    }
}

/// The views of a list of strings.
pub open spec fn views_of(words: Seq<String>) -> Seq<Seq<char>> {
    words.map_values(|w: String| w@)
}

/// The mathematical content of a cost model.
pub ghost struct CostModelView {
    pub dict: Map<Seq<char>, u64>,
    pub max_word_len: nat,
    pub fold_case: bool,
}

/// The model built from ranked words and the cost of each rank.
pub open spec fn model_of_corpus(words: Seq<Seq<char>>, costs: Seq<u64>, fold_case: bool) -> CostModelView {
    CostModelView {
        dict: dict_of(words, costs, fold_case),
        max_word_len: max_len_of(words),
        fold_case,
    }
}

/// The cost of a fragment under a model: its dictionary entry, or
/// `UNKNOWN_COST` where there is none.
pub open spec fn cost_of(m: CostModelView, frag: Seq<char>) -> u64 {
    let key = key_of(frag, m.fold_case);
    if m.dict.contains_key(key) {
        m.dict[key]
    } else {
        UNKNOWN_COST
    }
}

/// A word-to-cost lookup with the length of the longest word, built once
/// from a ranked corpus and read-only afterwards.
pub struct CostModel {
    dict: StringHashMap<u64>,
    max_word_len: usize,
    fold_case: bool,
}

impl View for CostModel {
    type V = CostModelView;

    closed spec fn view(&self) -> CostModelView {
        CostModelView {
            dict: self.dict@,
            max_word_len: self.max_word_len as nat,
            fold_case: self.fold_case,
        }
    }
}

impl CostModel {
    /// Builds the model from words ordered by rank, most frequent first, and
    /// the cost of each rank. With `fold_case` the words are stored, and
    /// fragments looked up, in lower case.
    pub fn from_ranked(words: &Vec<String>, costs: &Vec<u64>, fold_case: bool) -> (r: CostModel)
        requires
            words.len() == costs.len(),
        ensures
            r@ == model_of_corpus(views_of(words@), costs@, fold_case),
    {
        let ghost ws = views_of(words@);
        let mut dict: StringHashMap<u64> = StringHashMap::new();
        let mut max_len: usize = 0;
        let mut i: usize = 0;
        while i < words.len()
            invariant
                words.len() == costs.len(),
                ws == views_of(words@),
                0 <= i <= words.len(),
                dict@ == dict_of(ws.take(i as int), costs@, fold_case),
                max_len as nat == max_len_of(ws.take(i as int)),
            decreases words.len() - i,
        {
            let word = &words[i];
            let len = word.as_str().unicode_len();
            let key = if fold_case {
                lowercase(word.as_str())
            } else {
                word.clone()
            };
            assert(ws.take(i + 1).take(i as int) == ws.take(i as int));
            assert(ws[i as int] == word@);
            dict.insert(key, costs[i]);
            if len > max_len {
                max_len = len;
            }
            i = i + 1;
        }
        assert(ws.take(words.len() as int) == ws);
        CostModel { dict, max_word_len: max_len, fold_case }
    }

    /// The length in characters of the longest corpus word.
    pub fn max_word_len(&self) -> (r: usize)
        ensures
            r == self@.max_word_len,
    {
        self.max_word_len
    }

    /// Whether fragments are looked up in lower case.
    pub fn fold_case(&self) -> (r: bool)
        ensures
            r == self@.fold_case,
    {
        self.fold_case
    }

    /// The cost stored under `key` exactly as given, or `UNKNOWN_COST`.
    pub fn cost_of_key(&self, key: &str) -> (r: u64)
        ensures
            r == (if self@.dict.contains_key(key@) {
                self@.dict[key@]
            } else {
                UNKNOWN_COST
            }),
    {
        match self.dict.get(key) {
            Some(c) => *c,
            None => UNKNOWN_COST,
        }
    }

    /// The cost of a fragment of text, folded to lower case first where the
    /// model does so.
    pub fn cost_of_fragment(&self, frag: &str) -> (r: u64)
        ensures
            r == cost_of(self@, frag@),
    {
        if self.fold_case {
            let key = lowercase(frag);
            self.cost_of_key(key.as_str())
        } else {
            self.cost_of_key(frag)
        }
    }
}

} // verus!
