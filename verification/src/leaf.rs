//! The leaf step of a search: one search per split, and one response for all of them.

use itertools::Itertools;
use vstd::prelude::*;

verus! {

/// A split that could not be searched.
#[derive(Debug, PartialEq)]
pub struct SplitSearchError {
    pub split_id: String,
    pub error: String,
    /// Can the search of the split be tried again?
    pub retryable_error: bool,
}

/// What a [`SplitSearchError`] is, with its texts as characters.
pub struct SplitSearchErrorView {
    pub split_id: Seq<char>,
    pub error: Seq<char>,
    pub retryable_error: bool,
}

impl View for SplitSearchError {
    type V = SplitSearchErrorView;

    open spec fn view(&self) -> SplitSearchErrorView {
        SplitSearchErrorView {
            split_id: self.split_id@,
            error: self.error@,
            retryable_error: self.retryable_error,
        }
    }
}

/// What a leaf answers: what the collectors found, and the splits that could not be searched.
#[derive(Debug, PartialEq)]
pub struct LeafSearchResponse<H> {
    pub hits: H,
    pub failed_splits: Vec<SplitSearchError>,
}

/// Why a search failed.
#[derive(Debug, PartialEq)]
pub enum SearchError<E> {
    /// Something went wrong that the search itself does not report.
    InternalError(String),
    /// The search reported an error.
    Search(E),
}

/// The search of a split panicked.
#[derive(Clone, Copy, Debug, PartialEq, Eq, Structural)]
pub struct Panicked;

/// What the search of a split comes to: its response or its error; a panic is an internal error
/// that names the split.
pub fn leaf_search_single_split<R, E>(
    split_id: &str,
    search: Result<Result<R, E>, Panicked>,
) -> (outcome: Result<R, SearchError<E>>)
    ensures
        match search {
            Ok(Ok(response)) => outcome == Ok::<R, SearchError<E>>(response),
            Ok(Err(error)) => outcome == Err::<R, SearchError<E>>(SearchError::Search(error)),
            Err(_) => outcome matches Err(SearchError::InternalError(message)) && message@
                == "Leaf search panicked. split="@ + split_id@,
        },
{
    match search {
        Ok(Ok(response)) => Ok(response),
        Ok(Err(error)) => Err(SearchError::Search(error)),
        Err(_) => Err(
            SearchError::InternalError(
                "Leaf search panicked. split=".to_owned().concat(split_id),
            ),
        ),
    }
}

/// The values of the results that have one, in their order.
pub open spec fn successes<T, E>(results: Seq<Result<T, E>>) -> Seq<T>
    decreases results.len(),
{
    if results.len() == 0 {
        Seq::empty()
    } else {
        let front = successes(results.drop_last());
        match results.last() {
            Ok(value) => front.push(value),
            Err(_) => front,
        }
    }
}

/// The errors of the results that are one, in their order.
pub open spec fn failures<T, E>(results: Seq<Result<T, E>>) -> Seq<E>
    decreases results.len(),
{
    if results.len() == 0 {
        Seq::empty()
    } else {
        let front = failures(results.drop_last());
        match results.last() {
            Ok(_) => front,
            Err(error) => front.push(error),
        }
    }
}

/// Calls `itertools::Itertools::partition_result`: the values on one side and the errors on the
/// other, each in their order.
#[verifier::external_body]
fn partition_results<T, E>(results: Vec<Result<T, E>>) -> (sides: (Vec<T>, Vec<E>))
    ensures
        sides.0@ == successes(results@),
        sides.1@ == failures(results@),
{
    results.into_iter().partition_result()
}

/// What failed splits are.
pub open spec fn failed_split_views(failed: Seq<SplitSearchError>) -> Seq<SplitSearchErrorView> {
    failed.map_values(|split: SplitSearchError| split@)
}

/// How a leaf reports the splits whose search failed, given their IDs and their errors: the
/// search of each can be tried again.
pub open spec fn reported(failed: Seq<(String, String)>) -> Seq<SplitSearchErrorView> {
    failed.map_values(
        |split: (String, String)|
            SplitSearchErrorView {
                split_id: split.0@,
                error: split.1@,
                retryable_error: true,
            },
    )
}

/// Is `response` what comes of the results of the splits, where `merge` puts the responses
/// together? The splits that failed are reported behind those that the merged response reports.
pub open spec fn is_leaf_response<
    H,
    E,
    M: FnOnce(Vec<LeafSearchResponse<H>>) -> Result<LeafSearchResponse<H>, E>,
>(
    results: Seq<Result<LeafSearchResponse<H>, (String, String)>>,
    merge: M,
    response: Result<LeafSearchResponse<H>, E>,
) -> bool {
    exists|
        responses: Vec<LeafSearchResponse<H>>,
        merged: Result<LeafSearchResponse<H>, E>,
    | #[trigger]
        merge.ensures((responses,), merged) && {
            &&& responses@ == successes(results)
            &&& match merged {
                Err(error) => response == Err::<LeafSearchResponse<H>, E>(error),
                Ok(merged) => response matches Ok(r) && {
                    &&& r.hits == merged.hits
                    &&& failed_split_views(r.failed_splits@) == failed_split_views(
                        merged.failed_splits@,
                    ) + reported(failures(results))
                },
            }
        }
}

/// `leaf` step of search.
///
/// Puts the responses of the splits together with `merge`, which gets them in the order of the
/// splits, and reports the splits whose search failed. A result that is an error holds the ID of
/// its split and the text of the error.
pub fn leaf_search<
    H,
    E,
    M: FnOnce(Vec<LeafSearchResponse<H>>) -> Result<LeafSearchResponse<H>, E>,
>(
    split_search_results: Vec<Result<LeafSearchResponse<H>, (String, String)>>,
    merge: M,
) -> (response: Result<LeafSearchResponse<H>, E>)
    requires
        forall|responses: Vec<LeafSearchResponse<H>>|
            responses@ == successes(split_search_results@) ==> merge.requires((responses,)),
    ensures
        is_leaf_response(split_search_results@, merge, response),
{
    let (split_search_responses, errors) = partition_results(split_search_results);
    let merged = merge(split_search_responses);
    match merged {
        Err(error) => Err(error),
        Ok(mut merged_search_response) => {
            let ghost before = failed_split_views(merged_search_response.failed_splits@);
            let mut i: usize = 0;
            assert(reported(errors@.take(0)) =~= Seq::<SplitSearchErrorView>::empty());
            assert(before + reported(errors@.take(0)) =~= before);
            while i < errors.len()
                invariant
                    i <= errors.len(),
                    merged_search_response.hits == merged->Ok_0.hits,
                    failed_split_views(merged_search_response.failed_splits@) == before + reported(
                        errors@.take(i as int),
                    ),
                decreases errors.len() - i,
            {
                let ghost so_far = failed_split_views(merged_search_response.failed_splits@);
                let failed = SplitSearchError {
                    split_id: errors[i].0.clone(),
                    error: errors[i].1.clone(),
                    retryable_error: true,
                };
                merged_search_response.failed_splits.push(failed);
                proof {
                    assert(failed_split_views(merged_search_response.failed_splits@)
                        =~= so_far.push(failed@));
                    assert(errors@.take(i + 1) =~= errors@.take(i as int).push(
                        errors@[i as int],
                    ));
                    assert(reported(errors@.take(i + 1)) =~= reported(errors@.take(i as int)).push(
                        failed@,
                    ));
                    assert(failed_split_views(merged_search_response.failed_splits@) =~= before
                        + reported(errors@.take(i + 1)));
                }
                i = i + 1;
            }
            assert(errors@.take(i as int) =~= errors@);
            Ok(merged_search_response)
        },
    }
}

/// Every split is accounted for: its search either gave a response or is reported as failed.
pub proof fn every_split_is_accounted_for<T, E>(results: Seq<Result<T, E>>)
    ensures
        successes(results).len() + failures(results).len() == results.len(),
        forall|value: T| #[trigger]
            successes(results).contains(value) <==> results.contains(Ok::<T, E>(value)),
        forall|error: E| #[trigger]
            failures(results).contains(error) <==> results.contains(Err::<T, E>(error)),
    decreases results.len(),
{
    if results.len() > 0 {
        let front = results.drop_last();
        let last = results.last();
        every_split_is_accounted_for(front);
        assert(results =~= front.push(last));
        assert forall|value: T| #[trigger]
            successes(results).contains(value) <==> results.contains(Ok::<T, E>(value)) by {
            crate::lists::lemma_contains_push(front, last, Ok::<T, E>(value));
            if last is Ok {
                crate::lists::lemma_contains_push(successes(front), last->Ok_0, value);
            }
        }
        assert forall|error: E| #[trigger]
            failures(results).contains(error) <==> results.contains(Err::<T, E>(error)) by {
            crate::lists::lemma_contains_push(front, last, Err::<T, E>(error));
            if last is Err {
                crate::lists::lemma_contains_push(failures(front), last->Err_0, error);
            }
        }
    }
}

/// The values of the results that have one, in their order: `at` says of which result each is, and
/// every result with a value is one of them.
pub proof fn successes_are_the_values<T, E>(results: Seq<Result<T, E>>) -> (at: Seq<int>)
    ensures
        at.len() == successes(results).len(),
        forall|i: int, j: int| 0 <= i < j < at.len() ==> #[trigger] at[i] < #[trigger] at[j],
        forall|i: int|
            0 <= i < at.len() ==> 0 <= #[trigger] at[i] < results.len() && results[at[i]] == Ok::<
                T,
                E,
            >(successes(results)[i]),
        forall|i: int| 0 <= i < results.len() && #[trigger] results[i] is Ok ==> at.contains(i),
    decreases results.len(),
{
    if results.len() == 0 {
        Seq::empty()
    } else {
        let front = results.drop_last();
        let last = results.len() - 1;
        let before = successes_are_the_values(front);
        let at = if results.last() is Ok {
            before.push(last)
        } else {
            before
        };
        assert forall|i: int| 0 <= i < at.len() implies 0 <= #[trigger] at[i] < results.len()
            && results[at[i]] == Ok::<T, E>(successes(results)[i]) by {
            if i < before.len() {
                assert(at[i] == before[i]);
                assert(front[at[i]] == results[at[i]]);
            }
        }
        assert forall|i: int|
            0 <= i < results.len() && #[trigger] results[i] is Ok implies at.contains(i) by {
            crate::lists::lemma_contains_push(before, last, i);
            if i < last {
                assert(front[i] == results[i]);
            }
        }
        at
    }
}

/// The errors of the results that are one, in their order: `at` says of which result each is, and
/// every result that is an error is one of them.
pub proof fn failures_are_the_errors<T, E>(results: Seq<Result<T, E>>) -> (at: Seq<int>)
    ensures
        at.len() == failures(results).len(),
        forall|i: int, j: int| 0 <= i < j < at.len() ==> #[trigger] at[i] < #[trigger] at[j],
        forall|i: int|
            0 <= i < at.len() ==> 0 <= #[trigger] at[i] < results.len() && results[at[i]] == Err::<
                T,
                E,
            >(failures(results)[i]),
        forall|i: int| 0 <= i < results.len() && #[trigger] results[i] is Err ==> at.contains(i),
    decreases results.len(),
{
    if results.len() == 0 {
        Seq::empty()
    } else {
        let front = results.drop_last();
        let last = results.len() - 1;
        let before = failures_are_the_errors(front);
        let at = if results.last() is Err {
            before.push(last)
        } else {
            before
        };
        assert forall|i: int| 0 <= i < at.len() implies 0 <= #[trigger] at[i] < results.len()
            && results[at[i]] == Err::<T, E>(failures(results)[i]) by {
            if i < before.len() {
                assert(at[i] == before[i]);
                assert(front[at[i]] == results[at[i]]);
            }
        }
        assert forall|i: int|
            0 <= i < results.len() && #[trigger] results[i] is Err implies at.contains(i) by {
            crate::lists::lemma_contains_push(before, last, i);
            if i < last {
                assert(front[i] == results[i]);
            }
        }
        at
    }
}

/// Every split reaches the answer of a leaf. `merge` gets the responses of the splits that could be
/// searched, all of them and in their order (`found_at`). Where it puts them together, the answer
/// has its hits, reports what it reports, and behind that every split that failed, in their order
/// (`failed_at`), by its ID and its error, and that its search can be tried again.
pub proof fn every_split_reaches_the_answer<
    H,
    E,
    M: FnOnce(Vec<LeafSearchResponse<H>>) -> Result<LeafSearchResponse<H>, E>,
>(
    results: Seq<Result<LeafSearchResponse<H>, (String, String)>>,
    merge: M,
    response: Result<LeafSearchResponse<H>, E>,
) -> (parts: (
    Vec<LeafSearchResponse<H>>,
    Result<LeafSearchResponse<H>, E>,
    Seq<int>,
    Seq<int>,
))
    requires
        is_leaf_response(results, merge, response),
    ensures
        ({
            let (responses, merged, found_at, failed_at) = parts;
            &&& merge.ensures((responses,), merged)
            &&& found_at.len() == responses@.len()
            &&& found_at.len() + failed_at.len() == results.len()
            &&& forall|i: int, j: int|
                0 <= i < j < found_at.len() ==> #[trigger] found_at[i] < #[trigger] found_at[j]
            &&& forall|i: int|
                0 <= i < found_at.len() ==> 0 <= #[trigger] found_at[i] < results.len()
                    && results[found_at[i]] == Ok::<LeafSearchResponse<H>, (String, String)>(
                    responses@[i],
                )
            &&& forall|i: int, j: int|
                0 <= i < j < failed_at.len() ==> #[trigger] failed_at[i] < #[trigger] failed_at[j]
            &&& forall|i: int|
                0 <= i < failed_at.len() ==> 0 <= #[trigger] failed_at[i] < results.len()
                    && results[failed_at[i]] is Err
            &&& forall|i: int|
                0 <= i < results.len() && #[trigger] results[i] is Ok ==> found_at.contains(i)
            &&& forall|i: int|
                0 <= i < results.len() && #[trigger] results[i] is Err ==> failed_at.contains(i)
            &&& match merged {
                Err(error) => response == Err::<LeafSearchResponse<H>, E>(error),
                Ok(merged) => response matches Ok(r) && {
                    let reported_before = merged.failed_splits@.len() as int;
                    &&& r.hits == merged.hits
                    &&& r.failed_splits@.len() == reported_before + failed_at.len()
                    &&& forall|i: int|
                        0 <= i < reported_before ==> {
                            let before = merged.failed_splits@[i];
                            let split = #[trigger] r.failed_splits@[i];
                            &&& split.split_id@ == before.split_id@
                            &&& split.error@ == before.error@
                            &&& split.retryable_error == before.retryable_error
                        }
                    &&& forall|i: int|
                        0 <= i < failed_at.len() ==> {
                            let failed = results[#[trigger] failed_at[i]]->Err_0;
                            let split = r.failed_splits@[reported_before + i];
                            &&& split.split_id@ == failed.0@
                            &&& split.error@ == failed.1@
                            &&& split.retryable_error
                        }
                },
            }
        }),
{
    let (responses, merged) = choose|
        responses: Vec<LeafSearchResponse<H>>,
        merged: Result<LeafSearchResponse<H>, E>,
    | #[trigger]
        merge.ensures((responses,), merged) && {
            &&& responses@ == successes(results)
            &&& match merged {
                Err(error) => response == Err::<LeafSearchResponse<H>, E>(error),
                Ok(merged) => response matches Ok(r) && {
                    &&& r.hits == merged.hits
                    &&& failed_split_views(r.failed_splits@) == failed_split_views(
                        merged.failed_splits@,
                    ) + reported(failures(results))
                },
            }
        };
    let found_at = successes_are_the_values(results);
    let failed_at = failures_are_the_errors(results);
    every_split_is_accounted_for(results);
    if merged is Ok {
        let before = merged->Ok_0.failed_splits@;
        let after = response->Ok_0.failed_splits@;
        let views = failed_split_views(after);
        assert(views.len() == after.len());
        assert forall|i: int| 0 <= i < before.len() implies {
            let split = #[trigger] after[i];
            &&& split.split_id@ == before[i].split_id@
            &&& split.error@ == before[i].error@
            &&& split.retryable_error == before[i].retryable_error
        } by {
            assert(views[i] == after[i]@);
            assert(views[i] == failed_split_views(before)[i]);
        }
        assert forall|i: int| 0 <= i < failed_at.len() implies {
            let failed = results[#[trigger] failed_at[i]]->Err_0;
            let split = after[before.len() + i];
            &&& split.split_id@ == failed.0@
            &&& split.error@ == failed.1@
            &&& split.retryable_error
        } by {
            assert(views[before.len() + i] == after[before.len() + i]@);
            assert(views[before.len() + i] == reported(failures(results))[i]);
        }
    }
    (responses, merged, found_at, failed_at)
}

} // verus!
