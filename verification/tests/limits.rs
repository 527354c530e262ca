use helix_interpreter::limits::{
    access_limited_k, limited_search_k, PositiveUsize, SearchReadLimit,
    DEFAULT_MAX_SEARCH_RESULT_COUNT,
};

#[derive(Debug, PartialEq)]
struct EvaluationFailed(&'static str);

/// The result count that a restricted search is left with after it has
/// intersected the requested count with its candidates.
fn restricted_count(k: usize, limit: Option<PositiveUsize>, candidates: usize) -> usize {
    access_limited_k(k, limit).min(candidates)
}

#[test]
fn search_read_limit_preserves_search_limit_and_optional_access_cap() {
    let search_limit = PositiveUsize::new(10).expect("positive search limit");
    let access_limit = PositiveUsize::new(3);
    let limit = SearchReadLimit::new(&search_limit, access_limit);

    assert!(std::ptr::eq(limit.search_limit, &search_limit));
    assert_eq!(limit.access_limit.map(|value| value.get()), Some(3));
}

#[test]
fn limited_search_k_tightens_only_when_access_cap_is_lower() {
    assert_eq!(limited_search_k(10, None), 10);
    assert_eq!(limited_search_k(10, PositiveUsize::new(3)), 3);
    assert_eq!(limited_search_k(3, PositiveUsize::new(10)), 3);
    assert_eq!(limited_search_k(1_000, PositiveUsize::new(800)), 800);
}

#[test]
fn limited_search_k_applies_the_default_ceiling_with_no_access_limit() {
    assert_eq!(
        limited_search_k(DEFAULT_MAX_SEARCH_RESULT_COUNT, None),
        DEFAULT_MAX_SEARCH_RESULT_COUNT
    );
    assert_eq!(
        limited_search_k(DEFAULT_MAX_SEARCH_RESULT_COUNT + 1, None),
        DEFAULT_MAX_SEARCH_RESULT_COUNT
    );
    assert_eq!(
        limited_search_k(usize::MAX, None),
        DEFAULT_MAX_SEARCH_RESULT_COUNT
    );
}

#[test]
fn limited_search_k_lets_a_narrower_access_limit_still_win_under_the_default_ceiling() {
    let narrower = PositiveUsize::new(DEFAULT_MAX_SEARCH_RESULT_COUNT - 1)
        .expect("nonzero access limit");
    assert_eq!(
        limited_search_k(usize::MAX, Some(narrower)),
        DEFAULT_MAX_SEARCH_RESULT_COUNT - 1
    );
}

#[test]
fn limited_search_k_ignores_an_access_limit_looser_than_the_default_ceiling() {
    let looser = PositiveUsize::new(DEFAULT_MAX_SEARCH_RESULT_COUNT * 10)
        .expect("nonzero access limit");
    assert_eq!(
        limited_search_k(usize::MAX, Some(looser)),
        DEFAULT_MAX_SEARCH_RESULT_COUNT
    );
    assert_eq!(limited_search_k(7, Some(looser)), limited_search_k(7, None));
}

#[test]
fn the_default_ceiling_is_eight_hundred() {
    assert_eq!(DEFAULT_MAX_SEARCH_RESULT_COUNT, 800);
}

#[test]
fn positive_usize_rejects_only_zero() {
    assert!(PositiveUsize::new(0).is_none());
    assert_eq!(PositiveUsize::new(1).map(|value| value.get()), Some(1));
    assert_eq!(
        PositiveUsize::new(usize::MAX).map(|value| value.get()),
        Some(usize::MAX)
    );
}

#[test]
fn effective_search_limit_applies_both_limits_to_an_evaluated_count() {
    let plan = "k";
    let open = SearchReadLimit::new(&plan, None);
    let capped = SearchReadLimit::new(&plan, PositiveUsize::new(3));

    assert_eq!(open.effective_search_limit::<EvaluationFailed>(Ok(10)), Ok(10));
    assert_eq!(open.effective_search_limit::<EvaluationFailed>(Ok(10_000)), Ok(800));
    assert_eq!(capped.effective_search_limit::<EvaluationFailed>(Ok(10_000)), Ok(3));
    assert_eq!(capped.effective_search_limit::<EvaluationFailed>(Ok(0)), Ok(0));
}

#[test]
fn effective_restricted_vector_search_limit_applies_only_the_access_limit() {
    let plan = "k";
    let open = SearchReadLimit::new(&plan, None);
    let capped = SearchReadLimit::new(&plan, PositiveUsize::new(900));

    assert_eq!(
        open.effective_restricted_vector_search_limit::<EvaluationFailed>(Ok(10_000)),
        Ok(10_000)
    );
    assert_eq!(
        capped.effective_restricted_vector_search_limit::<EvaluationFailed>(Ok(10_000)),
        Ok(900)
    );
}

#[test]
fn a_failed_evaluation_is_handed_on_by_both_effective_limits() {
    let plan = "k";
    let limit = SearchReadLimit::new(&plan, PositiveUsize::new(3));

    assert_eq!(
        limit.effective_search_limit(Err(EvaluationFailed("unbound parameter"))),
        Err(EvaluationFailed("unbound parameter"))
    );
    assert_eq!(
        limit.effective_restricted_vector_search_limit(Err(EvaluationFailed("not a number"))),
        Err(EvaluationFailed("not a number"))
    );
}

#[test]
fn limits_commute_tighten_and_are_idempotent_and_monotone() {
    let limits = [None, PositiveUsize::new(1), PositiveUsize::new(799), PositiveUsize::new(801)];
    let requests = [0, 1, 2, 799, 800, 801, 10_000, usize::MAX];
    for limit in limits {
        let mut previous = 0;
        for k in requests {
            let limited = limited_search_k(k, limit);
            assert_eq!(
                limited,
                access_limited_k(k, limit).min(DEFAULT_MAX_SEARCH_RESULT_COUNT)
            );
            assert!(limited <= k);
            assert!(limited <= access_limited_k(k, limit));
            assert_eq!(limited_search_k(limited, limit), limited);
            assert!(previous <= limited);
            assert_eq!(limited == 0, k == 0);
            previous = limited;
        }
    }
}

#[test]
fn both_limits_agree_within_the_ceiling() {
    for k in [0, 1, 500, 800] {
        assert_eq!(
            access_limited_k(k, PositiveUsize::new(600)),
            limited_search_k(k, PositiveUsize::new(600))
        );
    }
}

#[test]
fn an_oversized_restricted_request_can_still_be_rejected() {
    assert_eq!(restricted_count(801, None, 801), 801);
    assert!(restricted_count(801, None, 801) > DEFAULT_MAX_SEARCH_RESULT_COUNT);
    assert_eq!(limited_search_k(801, None).min(801), 800);
    assert_eq!(restricted_count(801, PositiveUsize::new(800), 801), 800);
}

#[test]
fn a_large_k_over_a_small_candidate_set_shrinks_to_the_candidates() {
    assert_eq!(restricted_count(10_000, None, 5), 5);
    assert_eq!(restricted_count(10_000, None, 2), 2);
    assert_eq!(restricted_count(10_000, PositiveUsize::new(1), 2), 1);
}
