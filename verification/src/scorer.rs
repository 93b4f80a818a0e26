use vstd::prelude::*;
use crate::model::Row;
use rayon::iter::IntoParallelRefIterator;
use rayon::iter::ParallelIterator;

verus! {

/// What the fuzzy matcher answers for a given (text, query) pair: `None` when
/// the query does not match the text, otherwise the relevance score together
/// with the character positions of `text` that took part in the match.
/// The matcher is a pure, deterministic function of its two arguments, so its
/// result can be given a name; nothing is assumed about the values themselves.
pub uninterp spec fn fuzzy_result(text: Seq<char>, query: Seq<char>) -> Option<(i64, Seq<usize>)>;

/// Relies on fuzzy_matcher's `SkimMatcherV2::fuzzy_indices`, called on a
/// default-configured matcher: a deterministic, side-effect-free function of
/// the text and the query, returning a score and the matched character
/// positions on a match and `None` otherwise.
#[verifier::external_body]
fn skim_fuzzy_indices(text: &str, query: &str) -> (r: Option<(i64, Vec<usize>)>)
    ensures
        r.deep_view() == fuzzy_result(text@, query@),
{
    fuzzy_matcher::FuzzyMatcher::fuzzy_indices(
        &fuzzy_matcher::skim::SkimMatcherV2::default(),
        text,
        query,
    )
}

/// Scores a single item text against the query.
pub fn score_item(text: &String, query: &str) -> (r: Option<(i64, Vec<usize>)>)
    ensures
        r.deep_view() == fuzzy_result(text@, query@),
{
    skim_fuzzy_indices(text.as_str(), query)
}

/// Relies on rayon's `par_iter().map(..).collect()` over a `Vec`: an indexed
/// parallel iterator collects into a `Vec` in the order of the source, so the
/// result holds, per item, exactly what `score_item` returns for it.
#[verifier::external_body]
pub fn score_all(rows: &Vec<Row>, query: &str) -> (r: Vec<Option<(i64, Vec<usize>)>>)
    ensures
        r@.len() == rows@.len(),
        forall|i: int|
            0 <= i < rows@.len() ==> (#[trigger] r@[i]).deep_view() == fuzzy_result(
                rows@[i].text@,
                query@,
            ),
{
    rows.par_iter().map(|row| score_item(&row.text, query)).collect()
}

} // verus!
