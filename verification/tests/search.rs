use dungeon_router_api::search::{
    fts_expression, fts_query_of_terms, merge_results, rank_sort, SearchError,
};

#[test]
fn query_syntax_is_sanitized() {
    assert_eq!(fts_expression("what is prone?"), Some("\"prone\"*".into()));
    assert_eq!(fts_expression("the and what"), None);
}

#[test]
fn query_keeps_later_rules_terms() {
    let expression = fts_expression(
        "Mara Venn star iron Moon Gate activation procedure level seven wizard spell concentration",
    )
    .unwrap();
    assert!(expression.contains("\"wizard\"*"));
    assert!(expression.contains("\"concentration\"*"));
}

#[test]
fn query_terms_are_lowercased_sorted_and_deduplicated() {
    assert_eq!(
        fts_expression("PRONE, grappled; Prone!"),
        Some("\"grappled\"* OR \"prone\"*".into())
    );
}

#[test]
fn query_punctuation_splits_terms() {
    assert_eq!(
        fts_expression("opportunity-attack \"reach\" OR NEAR"),
        Some("\"attack\"* OR \"near\"* OR \"opportunity\"* OR \"or\"* OR \"reach\"*".into())
    );
}

#[test]
fn single_byte_terms_are_dropped() {
    assert_eq!(fts_expression("a b c 5"), None);
    assert_eq!(fts_expression("é"), Some("\"é\"*".into()));
}

#[test]
fn only_the_first_sixteen_words_count() {
    let query = "aa bb cc dd ee ff gg hh ii jj kk ll mm nn oo pp zz";
    let expression = fts_expression(query).unwrap();
    assert!(expression.contains("\"pp\"*"));
    assert!(!expression.contains("\"zz\"*"));
}

#[test]
fn search_error_messages() {
    assert_eq!(SearchError::EmptyQuery.message(), "search query must contain a meaningful word");
    assert_eq!(SearchError::NotFound.message(), "source passage was not found");
    assert_eq!(SearchError::Unavailable.message(), "rules search is unavailable");
}

#[test]
fn ranking_is_stable_and_descending() {
    let sorted = rank_sort(vec![(1, "a"), (5, "b"), (1, "c"), (9, "d"), (5, "e")]);
    assert_eq!(sorted, vec![(9, "d"), (5, "b"), (5, "e"), (1, "a"), (1, "c")]);
}

#[test]
fn mixed_matches_preserve_srd_and_campaign_sources() {
    let srd = vec![(10, "srd-1"), (2, "srd-2")];
    let campaign = vec![(50, "note-1"), (40, "note-2"), (30, "note-3")];
    let merged = merge_results(srd, campaign, 4);
    assert_eq!(merged, vec![(50, "note-1"), (40, "note-2"), (30, "note-3"), (10, "srd-1")]);
    let merged = merge_results(vec![(10, "srd-1")], vec![(50, "n1"), (40, "n2"), (30, "n3")], 2);
    assert_eq!(merged, vec![(50, "n1"), (10, "srd-1")]);
}

#[test]
fn a_single_corpus_keeps_its_best_results() {
    let merged = merge_results(vec![(3, "a"), (7, "b"), (5, "c")], Vec::new(), 2);
    assert_eq!(merged, vec![(7, "b"), (5, "c")]);
    let merged = merge_results(vec![(3, "a")], vec![(8, "n")], 1);
    assert_eq!(merged, vec![(8, "n")]);
    let merged: Vec<(i64, &str)> = merge_results(Vec::new(), Vec::new(), 6);
    assert!(merged.is_empty());
}

#[test]
fn lowercased_pieces_make_the_query() {
    let terms: Vec<String> = ["what", "is", "prone", "", "prone", "grappled", "x"]
        .into_iter()
        .map(String::from)
        .collect();
    assert_eq!(fts_query_of_terms(&terms), Some("\"grappled\"* OR \"prone\"*".into()));
    let none: Vec<String> = ["the", "a", ""].into_iter().map(String::from).collect();
    assert_eq!(fts_query_of_terms(&none), None);
}
