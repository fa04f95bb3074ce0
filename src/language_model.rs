use vstd::prelude::*;
use crate::backtracker::{join_reversed, join_words, minimal_cost, tokens_of};
use crate::cost_model::{CostModel, CostModelView, model_of_corpus, views_of};
use crate::laws::lemma_empty_text;
use crate::segmenter::build_cost_array;

verus! {

/// The segmentation of `t`: its tokens joined by single spaces.
pub open spec fn segment_of(m: CostModelView, t: Seq<char>, merge: bool) -> Seq<char> {
    join_words(tokens_of(m, t, merge))
}

/// Segments `text` under `model`, merging possessive and digit fragments
/// where `merge` is set.
pub fn segment(model: &CostModel, text: &str, merge: bool) -> (r: String)
    ensures
        r@ == segment_of(model@, text@, merge),
{
    let cost = build_cost_array(model, text);
    let tokens = minimal_cost(model, text, &cost, merge);
    join_reversed(&tokens)
}

/// Segments `text` under a shared model, with both merge rules on.
pub fn split_wrapper(model: &CostModel, text: String) -> (r: String)
    ensures
        r@ == segment_of(model@, text@, true),
{
    segment(model, text.as_str(), true)
}

/// The model that a language model holds after it is offered one built
/// from `words` and `costs`: the one it held already, if any.
pub open spec fn installed(
    current: Option<CostModelView>,
    words: Seq<Seq<char>>,
    costs: Seq<u64>,
    fold_case: bool,
) -> Option<CostModelView> {
    match current {
        Some(m) => Some(m),
        None => Some(model_of_corpus(words, costs, fold_case)),
    }
}

/// Why a language model could not segment.
#[derive(Debug, Clone, Copy, PartialEq, Eq, Structural)]
pub enum SplitError {
    /// Its corpus has not been loaded yet: the caller reads the corpus and
    /// hands it to `install_cost_model` first.
    ModelNotLoaded,
}

/// A segmenter over the corpus at `corpus_path`, whose cost model is built
/// the first time a corpus is handed to it and kept from then on.
pub struct LanguageModel {
    pub corpus_path: String,
    pub cost_dict: Option<CostModel>,
    pub fold_case: bool,
    pub merge_fragments: bool,
}

impl LanguageModel {
    /// The view of the cost model held, if any.
    pub open spec fn model(&self) -> Option<CostModelView> {
        match self.cost_dict {
            Some(m) => Some(m@),
            None => None,
        }
    }

    /// A language model for the corpus at `corpus_path`, with case folding
    /// and both merge rules on, and no cost model yet.
    pub fn new(corpus_path: String) -> (r: LanguageModel)
        ensures
            r.corpus_path == corpus_path,
            r.cost_dict is None,
            r.fold_case,
            r.merge_fragments,
    {
        LanguageModel { corpus_path, cost_dict: None, fold_case: true, merge_fragments: true }
    }

    /// Whether the cost model has been built.
    pub fn is_loaded(&self) -> (r: bool)
        ensures
            r == self.cost_dict is Some,
    {
        self.cost_dict.is_some()
    }

    /// Builds a cost model from the ranked corpus `words` and the cost of
    /// each rank, folding case as this language model does. `self` is left
    /// as it is: the caller stores the model.
    pub fn set_cost_dict(&self, words: &Vec<String>, costs: &Vec<u64>) -> (r: CostModel)
        requires
            words.len() == costs.len(),
        ensures
            r@ == model_of_corpus(views_of(words@), costs@, self.fold_case),
    {
        CostModel::from_ranked(words, costs, self.fold_case)
    }

    /// Builds the cost model from the ranked corpus `words` and the cost of
    /// each rank and stores it, unless one is held already: a model is built
    /// at most once.
    pub fn install_cost_model(&mut self, words: &Vec<String>, costs: &Vec<u64>)
        requires
            words.len() == costs.len(),
        ensures
            final(self).model() == installed(
                old(self).model(),
                views_of(words@),
                costs@,
                old(self).fold_case,
            ),
            old(self).cost_dict is Some ==> final(self).cost_dict == old(self).cost_dict,
            final(self).corpus_path == old(self).corpus_path,
            final(self).fold_case == old(self).fold_case,
            final(self).merge_fragments == old(self).merge_fragments,
    {
        if self.cost_dict.is_none() {
            let model = self.set_cost_dict(words, costs);
            self.cost_dict = Some(model);
        }
    }

    /// Segments `text` under the model held. The empty text needs no model:
    /// it gives the empty string.
    pub fn split_wrapper(&mut self, text: String) -> (r: String)
        requires
            old(self).cost_dict is Some || text@.len() == 0,
        ensures
            *final(self) == *old(self),
            text@.len() == 0 ==> r@ == Seq::<char>::empty(),
            old(self).cost_dict is Some ==> r@ == segment_of(
                old(self).cost_dict->Some_0@,
                text@,
                old(self).merge_fragments,
            ),
    {
        match &self.cost_dict {
            Some(model) => {
                proof {
                    lemma_empty_text(model@, self.merge_fragments);
                }
                segment(model, text.as_str(), self.merge_fragments)
            },
            None => String::new(),
        }
    }

    /// Segments `text`, or fails when it is not empty and no cost model has
    /// been built yet.
    pub fn split(&mut self, text: String) -> (r: Result<String, SplitError>)
        ensures
            *final(self) == *old(self),
            (old(self).cost_dict is None && text@.len() > 0) <==> r == Err::<String, SplitError>(
                SplitError::ModelNotLoaded,
            ),
            r is Ok ==> r->Ok_0@ == (if text@.len() == 0 {
                Seq::<char>::empty()
            } else {
                segment_of(old(self).cost_dict->Some_0@, text@, old(self).merge_fragments)
            }),
    {
        if self.is_loaded() || text.as_str().unicode_len() == 0 {
            Ok(self.split_wrapper(text))
        } else {
            Err(SplitError::ModelNotLoaded)
        }
    }
}

} // verus!
