use vstd::prelude::*;

verus! {

/// A range of unsigned integers: `begin <= x < end`, `x < end`, `begin <= x`, or all.
#[derive(Clone, Copy, Debug, PartialEq, Eq, Structural)]
pub enum SearchRange {
    Range(u32, u32),
    RangeTo(u32),
    RangeFrom(u32),
    RangeFull,
}

/// The order that a result list is sorted by.
#[derive(Clone, Copy, Debug, PartialEq, Eq, Structural)]
pub enum SortMode {
    Recommend,
    Relative,
    Name,
    Rank,
    Date,
    FavCount,
}

/// A criterion that a value must meet, or must not.
#[derive(Clone, Debug)]
pub enum Relation<T> {
    Include(T),
    Exclude(T),
}

/// How a keyword is matched against the titles.
#[derive(Clone, Debug)]
pub enum SearchMode<T> {
    ExactMatch(T),
    PartialMatch(T),
}

/// A search request. Exact keywords match ignoring case; partial keywords are compared with
/// the titles as they stand, so callers give them in lower case.
#[derive(Clone, Debug)]
pub struct SearchTicket {
    pub keyword_list: Vec<SearchMode<Relation<String>>>,
    pub tag_list: Vec<Relation<u32>>,
    pub year_list: Vec<SearchRange>,
    pub rank: SearchRange,
    pub rating_count: SearchRange,
    pub r18: Option<bool>,
    pub for_user: Option<u32>,
}

/// Whether `x` lies in range `r`.
pub open spec fn in_range(r: SearchRange, x: u32) -> bool {
    match r {
        SearchRange::Range(begin, end) => begin <= x && x < end,
        SearchRange::RangeTo(end) => x < end,
        SearchRange::RangeFrom(begin) => begin <= x,
        SearchRange::RangeFull => true,
    }
}

/// Whether `x` lies in any of the ranges.
pub open spec fn in_any_range(l: Seq<SearchRange>, x: u32) -> bool {
    exists|i: int| 0 <= i < l.len() && in_range(#[trigger] l[i], x)
}

impl SearchRange {
    /// Whether `x` lies in this range.
    pub fn contains(&self, x: u32) -> (r: bool)
        ensures
            r == in_range(*self, x),
    {
        match self {
            SearchRange::Range(begin, end) => *begin <= x && x < *end,
            SearchRange::RangeTo(end) => x < *end,
            SearchRange::RangeFrom(begin) => *begin <= x,
            SearchRange::RangeFull => true,
        }
    }
}

/// A list of ranges, joined by "or".
pub trait SearchRangeList {
    /// Whether `x` lies in one of the ranges.
    spec fn holds_for(&self, x: u32) -> bool;

    /// Whether `x` lies in one of the ranges.
    fn range_contains(&self, x: u32) -> (r: bool)
        ensures
            r == self.holds_for(x),
    ;
}

impl SearchRangeList for Vec<SearchRange> {
    open spec fn holds_for(&self, x: u32) -> bool {
        in_any_range(self@, x)
    }

    fn range_contains(&self, x: u32) -> (r: bool) {
        let mut k: usize = 0;
        while k < self.len()
            invariant
                k <= self@.len(),
                forall|i: int| 0 <= i < k ==> !in_range(#[trigger] self@[i], x),
            decreases self@.len() - k,
        {
            if self[k].contains(x) {
                return true;
            }
            k = k + 1;
        }
        false
    }
}

} // verus!
