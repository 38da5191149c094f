use quickwit_core::footer::{
    footer_fetched, footer_from_cache_or_fetch, split_file, FetchedFooter, FooterError,
    FooterLookup, SplitIdAndFooterOffsets,
};
use quickwit_core::leaf::{
    leaf_search, leaf_search_single_split, LeafSearchResponse, Panicked, SearchError,
    SplitSearchError,
};

fn response(hits: Vec<u32>) -> LeafSearchResponse<Vec<u32>> {
    LeafSearchResponse {
        hits,
        failed_splits: Vec::new(),
    }
}

fn merge(
    responses: Vec<LeafSearchResponse<Vec<u32>>>,
) -> Result<LeafSearchResponse<Vec<u32>>, String> {
    let mut merged = response(Vec::new());
    for response in responses {
        merged.hits.extend(response.hits);
        merged.failed_splits.extend(response.failed_splits);
    }
    Ok(merged)
}

fn failed(split_id: &str, error: &str) -> SplitSearchError {
    SplitSearchError {
        split_id: split_id.to_string(),
        error: error.to_string(),
        retryable_error: true,
    }
}

#[test]
fn responses_are_merged_and_failures_reported() {
    let results = vec![
        Ok(response(vec![1, 2])),
        Err(("split_b".to_string(), "timeout".to_string())),
        Ok(response(vec![3])),
        Err(("split_d".to_string(), "not found".to_string())),
    ];
    let merged = leaf_search(results, merge).unwrap();
    assert_eq!(merged.hits, vec![1, 2, 3]);
    assert_eq!(
        merged.failed_splits,
        vec![failed("split_b", "timeout"), failed("split_d", "not found")]
    );
}

#[test]
fn failures_follow_those_of_the_merged_response() {
    let mut first = response(vec![1]);
    first.failed_splits.push(failed("split_x", "inner"));
    let results = vec![
        Err(("split_a".to_string(), "outer".to_string())),
        Ok(first),
    ];
    let merged = leaf_search(results, merge).unwrap();
    assert_eq!(
        merged.failed_splits,
        vec![failed("split_x", "inner"), failed("split_a", "outer")]
    );
}

#[test]
fn leaf_search_over_no_split() {
    let merged = leaf_search(Vec::new(), merge).unwrap();
    assert_eq!(merged, response(Vec::new()));
}

#[test]
fn leaf_search_fails_where_merging_fails() {
    let results: Vec<Result<LeafSearchResponse<Vec<u32>>, (String, String)>> =
        vec![Ok(response(vec![1])), Ok(response(vec![2]))];
    let outcome = leaf_search(results, |responses| {
        Err::<LeafSearchResponse<Vec<u32>>, usize>(responses.len())
    });
    assert_eq!(outcome, Err(2));
}

#[test]
fn outcome_of_one_split() {
    assert_eq!(
        leaf_search_single_split::<u32, String>("split_a", Ok(Ok(4))),
        Ok(4)
    );
    assert_eq!(
        leaf_search_single_split::<u32, String>("split_a", Ok(Err("bad query".to_string()))),
        Err(SearchError::Search("bad query".to_string()))
    );
    assert_eq!(
        leaf_search_single_split::<u32, String>("split_a", Err(Panicked)),
        Err(SearchError::InternalError(
            "Leaf search panicked. split=split_a".to_string()
        ))
    );
}

fn split() -> SplitIdAndFooterOffsets {
    SplitIdAndFooterOffsets {
        split_id: "01G0".to_string(),
        split_footer_start: 1_000,
        split_footer_end: 1_500,
    }
}

#[test]
fn cached_footer_is_not_fetched() {
    assert_eq!(
        footer_from_cache_or_fetch(Some(vec![1u8, 2]), &split()),
        FooterLookup::Cached(vec![1, 2])
    );
}

#[test]
fn missing_footer_is_fetched_and_cached() {
    assert_eq!(
        footer_from_cache_or_fetch::<Vec<u8>>(None, &split()),
        FooterLookup::Fetch {
            split_file: "01G0.split".to_string(),
            start: 1_000,
            end: 1_500,
        }
    );
    assert_eq!(
        footer_fetched::<Vec<u8>, String>(Ok(vec![7]), "s3://bucket", &split()),
        Ok(FetchedFooter {
            cache_key: "01G0".to_string(),
            footer_data: vec![7],
        })
    );
    assert_eq!(
        footer_from_cache_or_fetch(Some(vec![7u8]), &split()),
        FooterLookup::Cached(vec![7])
    );
}

#[test]
fn footer_that_cannot_be_fetched() {
    assert_eq!(
        footer_fetched::<Vec<u8>, String>(Err("timeout".to_string()), "s3://bucket", &split()),
        Err(FooterError {
            context: "Failed to fetch hotcache and footer from s3://bucket for split `01G0`"
                .to_string(),
            cause: "timeout".to_string(),
        })
    );
}

#[test]
fn file_of_a_split() {
    assert_eq!(split_file("01G0"), "01G0.split");
    assert_ne!(split_file("a"), split_file("a.split"));
}
