//! How a search's requested result count is tightened before the search runs.
//!
//! A request asks for `k` results. The index definition may carry an access
//! limit, and every search without a ceiling of its own is held to
//! [`DEFAULT_MAX_SEARCH_RESULT_COUNT`]. The requested count itself may have to
//! be evaluated first, so the two `effective_*` methods take what that
//! evaluation gave: a count, or the error that stopped it.

use vstd::math::min;
use vstd::prelude::*;

verus! {

/// Hard ceiling on the result count of every search that has no ceiling of
/// its own, whatever the access limit.
///
/// A requested `k` drives the width of the search frontier, so one large `k`
/// could otherwise expand the whole index.
pub const DEFAULT_MAX_SEARCH_RESULT_COUNT: usize = 800;

/// A `usize` that is never zero.
#[derive(Debug, Clone, Copy)]
pub struct PositiveUsize {
    value: usize,
}

impl View for PositiveUsize {
    type V = nat;

    closed spec fn view(&self) -> nat {
        self.value as nat
    }
}

impl PositiveUsize {
    #[verifier::type_invariant]
    spec fn positive(self) -> bool {
        self.value > 0
    }

    /// Wraps `value`, or gives `None` for zero.
    pub fn new(value: usize) -> (wrapped: Option<PositiveUsize>)
        ensures
            wrapped is Some <==> value > 0,
            wrapped matches Some(positive) ==> positive@ == value,
    {
        if value > 0 {
            Some(PositiveUsize { value })
        } else {
            None
        }
    }

    /// The wrapped value.
    pub fn get(self) -> (value: usize)
        ensures
            value == self@,
            value > 0,
    {
        proof {
            use_type_invariant(&self);
        }
        self.value
    }
}

/// `k` held to the access limit alone.
pub open spec fn access_limited(k: int, limit: Option<PositiveUsize>) -> int {
    match limit {
        Some(cap) => min(k, cap@ as int),
        None => k,
    }
}

/// `k` held to the access limit and to the default ceiling.
pub open spec fn search_limited(k: int, limit: Option<PositiveUsize>) -> int {
    min(access_limited(k, limit), DEFAULT_MAX_SEARCH_RESULT_COUNT as int)
}

/// A request within the access limit is left alone, a larger one becomes the
/// access limit, and without an access limit every request is left alone.
pub proof fn access_limit_is_exact(k: int, limit: Option<PositiveUsize>)
    ensures
        limit is None ==> access_limited(k, limit) == k,
        limit matches Some(cap) ==> (k <= cap@ ==> access_limited(k, limit) == k),
        limit matches Some(cap) ==> (k > cap@ ==> access_limited(k, limit) == cap@),
{
}

/// The search count is the largest count that is within the request, the access
/// limit and the ceiling of 800: it is within each of them, and whatever else
/// is within each of them is not larger.
pub proof fn search_limit_is_exact(k: int, limit: Option<PositiveUsize>, count: int)
    ensures
        search_limited(k, limit) <= k,
        search_limited(k, limit) <= 800,
        limit matches Some(cap) ==> search_limited(k, limit) <= cap@,
        count <= k && count <= 800 && (limit matches Some(cap) ==> count <= cap@) ==> count
            <= search_limited(k, limit),
{
}

/// The access count is the largest count that is within the request and the
/// access limit; the ceiling plays no part in it.
pub proof fn access_limit_is_the_largest_allowed(k: int, limit: Option<PositiveUsize>, count: int)
    ensures
        access_limited(k, limit) <= k,
        limit matches Some(cap) ==> access_limited(k, limit) <= cap@,
        count <= k && (limit matches Some(cap) ==> count <= cap@) ==> count <= access_limited(
            k,
            limit,
        ),
{
}

/// Holds `k` to the access limit, where there is one.
pub fn access_limited_k(k: usize, limit: Option<PositiveUsize>) -> (limited: usize)
    ensures
        limited == access_limited(k as int, limit),
        limit is None ==> limited == k,
        limit matches Some(cap) ==> limited <= k && limited <= cap@ && (limited == k || limited
            == cap@),
        k > 0 ==> limited > 0,
{
    match limit {
        Some(cap) => k.min(cap.get()),
        None => k,
    }
}

/// Holds `k` to the access limit, where there is one, and to
/// [`DEFAULT_MAX_SEARCH_RESULT_COUNT`] in any case.
pub fn limited_search_k(k: usize, limit: Option<PositiveUsize>) -> (limited: usize)
    ensures
        limited == search_limited(k as int, limit),
        limited <= DEFAULT_MAX_SEARCH_RESULT_COUNT,
        limited <= k,
        limit is None ==> limited == k || limited == DEFAULT_MAX_SEARCH_RESULT_COUNT,
        limit matches Some(cap) ==> limited <= cap@ && (limited == k || limited == cap@ || limited
            == DEFAULT_MAX_SEARCH_RESULT_COUNT),
        k > 0 ==> limited > 0,
{
    access_limited_k(k.min(DEFAULT_MAX_SEARCH_RESULT_COUNT), limit)
}

/// The limits that one search is read under: the plan that says how many
/// results the query asks for, and the access limit of the index definition.
///
/// The plan is only carried to whoever evaluates it, so it may be of any type.
#[derive(Debug)]
pub struct SearchReadLimit<'a, P> {
    pub search_limit: &'a P,
    pub access_limit: Option<PositiveUsize>,
}

impl<'a, P> Clone for SearchReadLimit<'a, P> {
    fn clone(&self) -> (copy: Self)
        ensures
            copy == *self,
    {
        *self
    }
}

impl<'a, P> Copy for SearchReadLimit<'a, P> {

}

impl<'a, P> SearchReadLimit<'a, P> {
    /// Pairs a requested-count plan with an optional access limit.
    pub fn new(search_limit: &'a P, access_limit: Option<PositiveUsize>) -> (limit: Self)
        ensures
            limit.search_limit == search_limit,
            limit.access_limit == access_limit,
    {
        SearchReadLimit { search_limit, access_limit }
    }

    /// The result count of a search that has no rejecting ceiling of its own:
    /// unrestricted vector search, and text search in either scope.
    ///
    /// `requested` is what evaluating [`SearchReadLimit::search_limit`] gave. A
    /// failed evaluation is handed on; a count is held to the access limit and
    /// to the default ceiling.
    pub fn effective_search_limit<E>(self, requested: Result<usize, E>) -> (effective: Result<
        usize,
        E,
    >)
        ensures
            match requested {
                Ok(k) => effective is Ok && effective->Ok_0 == search_limited(
                    k as int,
                    self.access_limit,
                ),
                Err(error) => effective == Result::<usize, E>::Err(error),
            },
            requested matches Ok(k) ==> effective->Ok_0 <= k && effective->Ok_0
                <= DEFAULT_MAX_SEARCH_RESULT_COUNT,
            (requested is Ok && self.access_limit is None) ==> effective->Ok_0 == requested->Ok_0
                || effective->Ok_0 == DEFAULT_MAX_SEARCH_RESULT_COUNT,
            (requested is Ok && self.access_limit is Some) ==> effective->Ok_0
                <= self.access_limit->0@ && (effective->Ok_0 == requested->Ok_0 || effective->Ok_0
                == self.access_limit->0@ || effective->Ok_0 == DEFAULT_MAX_SEARCH_RESULT_COUNT),
    {
        match requested {
            Ok(k) => Ok(limited_search_k(k, self.access_limit)),
            Err(error) => Err(error),
        }
    }

    /// The result count of a restricted vector search.
    ///
    /// Such a search intersects the count with its candidate set and rejects
    /// what is still too large. Only the access limit applies here: the default
    /// ceiling would turn a request that must be rejected into one that
    /// silently returns fewer results than were asked for.
    ///
    /// `requested` is what evaluating [`SearchReadLimit::search_limit`] gave.
    pub fn effective_restricted_vector_search_limit<E>(
        self,
        requested: Result<usize, E>,
    ) -> (effective: Result<usize, E>)
        ensures
            match requested {
                Ok(k) => effective is Ok && effective->Ok_0 == access_limited(
                    k as int,
                    self.access_limit,
                ),
                Err(error) => effective == Result::<usize, E>::Err(error),
            },
            (requested is Ok && self.access_limit is None) ==> effective->Ok_0 == requested->Ok_0,
            (requested is Ok && self.access_limit is Some) ==> effective->Ok_0 <= requested->Ok_0
                && effective->Ok_0 <= self.access_limit->0@ && (effective->Ok_0 == requested->Ok_0
                || effective->Ok_0 == self.access_limit->0@),
    {
        match requested {
            Ok(k) => Ok(access_limited_k(k, self.access_limit)),
            Err(error) => Err(error),
        }
    }
}

/// The order in which the two limits are applied does not matter: holding `k`
/// to the ceiling first and to the access limit second gives the same count.
pub proof fn limits_commute(k: int, limit: Option<PositiveUsize>)
    ensures
        search_limited(k, limit) == access_limited(
            min(k, DEFAULT_MAX_SEARCH_RESULT_COUNT as int),
            limit,
        ),
{
}

/// A limit only ever tightens: neither count exceeds the request or the access
/// limit, and the search count does not exceed the default ceiling.
pub proof fn limits_only_tighten(k: int, limit: Option<PositiveUsize>)
    ensures
        access_limited(k, limit) <= k,
        limit matches Some(cap) ==> access_limited(k, limit) <= cap@,
        search_limited(k, limit) <= access_limited(k, limit),
        search_limited(k, limit) <= DEFAULT_MAX_SEARCH_RESULT_COUNT,
{
}

/// Applying a limit to a count that it already produced changes nothing.
pub proof fn limits_are_idempotent(k: int, limit: Option<PositiveUsize>)
    ensures
        access_limited(access_limited(k, limit), limit) == access_limited(k, limit),
        search_limited(search_limited(k, limit), limit) == search_limited(k, limit),
{
}

/// Asking for more never yields a smaller count.
pub proof fn limits_are_monotone(k: int, larger: int, limit: Option<PositiveUsize>)
    requires
        k <= larger,
    ensures
        access_limited(k, limit) <= access_limited(larger, limit),
        search_limited(k, limit) <= search_limited(larger, limit),
{
}

/// An access limit at or above the default ceiling makes no difference to a
/// search that is held to the ceiling.
pub proof fn looser_access_limit_is_ignored(k: int, cap: PositiveUsize)
    requires
        cap@ >= DEFAULT_MAX_SEARCH_RESULT_COUNT,
    ensures
        search_limited(k, Some(cap)) == search_limited(k, None),
{
}

/// An access limit at or below the default ceiling decides alone.
pub proof fn narrower_access_limit_wins(k: int, cap: PositiveUsize)
    requires
        cap@ <= DEFAULT_MAX_SEARCH_RESULT_COUNT,
    ensures
        search_limited(k, Some(cap)) == access_limited(k, Some(cap)),
{
}

/// For a request within the default ceiling, restricted vector search and every
/// other search are given the same count.
pub proof fn limits_agree_within_the_ceiling(k: int, limit: Option<PositiveUsize>)
    requires
        k <= DEFAULT_MAX_SEARCH_RESULT_COUNT,
    ensures
        access_limited(k, limit) == search_limited(k, limit),
{
}

/// What a restricted vector search makes of its candidate set is not affected
/// by when the access limit is applied, and without an access limit it sees the
/// request itself: a large `k` over few candidates shrinks to the candidates.
pub proof fn restricted_count_follows_the_candidates(
    k: int,
    candidates: int,
    limit: Option<PositiveUsize>,
)
    ensures
        min(access_limited(k, limit), candidates) == access_limited(min(k, candidates), limit),
        min(access_limited(k, None), candidates) == min(k, candidates),
{
}

/// A restricted request stays above the ceiling exactly where the request, the
/// candidate set and the access limit all are, so it can still be rejected;
/// held to the ceiling, no request could ever be told apart as too large.
pub proof fn oversized_restricted_request_stays_visible(
    k: int,
    candidates: int,
    limit: Option<PositiveUsize>,
)
    ensures
        min(access_limited(k, limit), candidates) > DEFAULT_MAX_SEARCH_RESULT_COUNT <==> {
            &&& k > DEFAULT_MAX_SEARCH_RESULT_COUNT
            &&& candidates > DEFAULT_MAX_SEARCH_RESULT_COUNT
            &&& limit matches Some(cap) ==> cap@ > DEFAULT_MAX_SEARCH_RESULT_COUNT
        },
        min(search_limited(k, limit), candidates) <= DEFAULT_MAX_SEARCH_RESULT_COUNT,
{
}

} // verus!
