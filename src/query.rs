use vstd::prelude::*;

use crate::db::{PackedSubjectSubtype, DB};
use crate::matcher::{chars_of, lower_of, lowercase};
use crate::ticket::{Relation, SearchMode, SearchRange, SortMode};

verus! {

/// What a two-letter sort code means: `a` or `d` for the direction, then `r`, `l`, `n`, `k`,
/// `d` or `f` for recommendation, relevance, name, rank, date or rating count.
pub open spec fn sort_code(s: Seq<char>) -> Option<(bool, SortMode)> {
    if s.len() != 2 || (s[0] != 'a' && s[0] != 'd') {
        None
    } else {
        let asc = s[0] == 'a';
        if s[1] == 'r' {
            Some((asc, SortMode::Recommend))
        } else if s[1] == 'l' {
            Some((asc, SortMode::Relative))
        } else if s[1] == 'n' {
            Some((asc, SortMode::Name))
        } else if s[1] == 'k' {
            Some((asc, SortMode::Rank))
        } else if s[1] == 'd' {
            Some((asc, SortMode::Date))
        } else if s[1] == 'f' {
            Some((asc, SortMode::FavCount))
        } else {
            None
        }
    }
}

/// Reads a sort code; `None` where it is not one.
pub fn parse_sort_mode_str(s: &str) -> (r: Option<(bool, SortMode)>)
    ensures
        r == sort_code(s@),
{
    let c = chars_of(s);
    if c.len() != 2 || (c[0] != 'a' && c[0] != 'd') {
        return None;
    }
    let asc = c[0] == 'a';
    let m = c[1];
    if m == 'r' {
        Some((asc, SortMode::Recommend))
    } else if m == 'l' {
        Some((asc, SortMode::Relative))
    } else if m == 'n' {
        Some((asc, SortMode::Name))
    } else if m == 'k' {
        Some((asc, SortMode::Rank))
    } else if m == 'd' {
        Some((asc, SortMode::Date))
    } else if m == 'f' {
        Some((asc, SortMode::FavCount))
    } else {
        None
    }
}

/// The number a page form shows for a sort code: its place in
/// `ar dr al dl ak dk ad dd af df`. Name codes have none.
pub open spec fn sort_code_number(s: Seq<char>) -> Option<u8> {
    match sort_code(s) {
        Some((asc, mode)) => {
            let d: int = if asc {
                0
            } else {
                1
            };
            match mode {
                SortMode::Recommend => Some(d as u8),
                SortMode::Relative => Some((2 + d) as u8),
                SortMode::Rank => Some((4 + d) as u8),
                SortMode::Date => Some((6 + d) as u8),
                SortMode::FavCount => Some((8 + d) as u8),
                SortMode::Name => None,
            }
        },
        None => None,
    }
}

/// The number a page form shows for a sort code; `None` for name codes and non-codes.
pub fn encode_sort_mode_str_to_u8(s: &str) -> (r: Option<u8>)
    ensures
        r == sort_code_number(s@),
{
    match parse_sort_mode_str(s) {
        Some((asc, mode)) => {
            let d: u8 = if asc {
                0
            } else {
                1
            };
            match mode {
                SortMode::Recommend => Some(d),
                SortMode::Relative => Some(2 + d),
                SortMode::Rank => Some(4 + d),
                SortMode::Date => Some(6 + d),
                SortMode::FavCount => Some(8 + d),
                SortMode::Name => None,
            }
        },
        None => None,
    }
}

/// The label of an entry kind; the unknown kind has an empty label.
pub fn encode_sub_type_to_str(t: PackedSubjectSubtype) -> (r: &'static str)
    ensures
        t == PackedSubjectSubtype::Unknown ==> r@ == ""@,
        t == PackedSubjectSubtype::TV ==> r@ == "TV"@,
        t == PackedSubjectSubtype::OVA ==> r@ == "OVA"@,
        t == PackedSubjectSubtype::Web ==> r@ == "Web"@,
        t == PackedSubjectSubtype::Movie ==> r@ == "Movie"@,
{
    match t {
        PackedSubjectSubtype::Unknown => "",
        PackedSubjectSubtype::TV => "TV",
        PackedSubjectSubtype::OVA => "OVA",
        PackedSubjectSubtype::Web => "Web",
        PackedSubjectSubtype::Movie => "Movie",
    }
}

/// A keyword as (exact match, wanted rather than refused, text).
pub open spec fn keyword_view(k: SearchMode<Relation<String>>) -> (bool, bool, Seq<char>) {
    match k {
        SearchMode::ExactMatch(Relation::Include(x)) => (true, true, x@),
        SearchMode::ExactMatch(Relation::Exclude(x)) => (true, false, x@),
        SearchMode::PartialMatch(Relation::Include(x)) => (false, true, x@),
        SearchMode::PartialMatch(Relation::Exclude(x)) => (false, false, x@),
    }
}

/// A keyword of a query: bit 0 of `opt` set asks to exclude, bit 1 set asks for an exact
/// match. The keyword is lowered.
pub fn keyword_from_query(opt: u8, kwd: &str) -> (r: SearchMode<Relation<String>>)
    ensures
        keyword_view(r) == ((opt / 2) % 2 == 1, opt % 2 == 0, lower_of(kwd@)),
{
    let x = lowercase(kwd);
    let rel = if opt % 2 == 0 {
        Relation::Include(x)
    } else {
        Relation::Exclude(x)
    };
    if (opt / 2) % 2 == 0 {
        SearchMode::PartialMatch(rel)
    } else {
        SearchMode::ExactMatch(rel)
    }
}

/// A year range of a query, from optional bounds: `from <= y < to`.
pub fn year_range_from_query(from: Option<u16>, to: Option<u16>) -> (r: SearchRange)
    ensures
        r == match (from, to) {
            (Some(a), Some(b)) => SearchRange::Range(a as u32, b as u32),
            (Some(a), None) => SearchRange::RangeFrom(a as u32),
            (None, Some(b)) => SearchRange::RangeTo(b as u32),
            (None, None) => SearchRange::RangeFull,
        },
{
    match from {
        Some(a) => match to {
            Some(b) => SearchRange::Range(a as u32, b as u32),
            None => SearchRange::RangeFrom(a as u32),
        },
        None => match to {
            Some(b) => SearchRange::RangeTo(b as u32),
            None => SearchRange::RangeFull,
        },
    }
}

/// The adult-flag filter of a query code: 1 asks for entries without the flag, 2 for
/// entries with it, 3 for both. Other codes are refused (`None`).
pub fn r18_filter_from_query(code: u8) -> (r: Option<Option<bool>>)
    ensures
        r == (if code == 1 {
            Some(Some(false))
        } else if code == 2 {
            Some(Some(true))
        } else if code == 3 {
            Some(None::<bool>)
        } else {
            None::<Option<bool>>
        }),
{
    if code == 1 {
        Some(Some(false))
    } else if code == 2 {
        Some(Some(true))
    } else if code == 3 {
        Some(None)
    } else {
        None
    }
}

/// A tag criterion of a query: wanted where `wanted` is 1, refused otherwise. A tag that is
/// not known stands as `u32::MAX`, an id that no entry carries.
pub fn tag_from_query(wanted: u8, id: Option<u32>) -> (r: Relation<u32>)
    ensures
        r == ({
            let i = match id {
                Some(i) => i,
                None => u32::MAX,
            };
            if wanted == 1 {
                Relation::Include(i)
            } else {
                Relation::Exclude(i)
            }
        }),
{
    let i = match id {
        Some(i) => i,
        None => u32::MAX,
    };
    if wanted == 1 {
        Relation::Include(i)
    } else {
        Relation::Exclude(i)
    }
}

/// A decimal digit.
pub open spec fn is_digit(c: char) -> bool {
    '0' <= c && c <= '9'
}

/// Every character is a decimal digit.
pub open spec fn all_digits(s: Seq<char>) -> bool {
    forall|i: int| 0 <= i < s.len() ==> is_digit(#[trigger] s[i])
}

/// The value of a string of decimal digits.
pub open spec fn digits_value(s: Seq<char>) -> int
    decreases s.len(),
{
    if s.len() == 0 {
        0
    } else {
        digits_value(s.drop_last()) * 10 + (s.last() as u32 - '0' as u32)
    }
}

/// What `u32`'s `from_str` reads: an optional `+`, then one or more decimal digits whose
/// value fits in a `u32`.
pub open spec fn decimal_u32(s: Seq<char>) -> Option<u32> {
    let body = if s.len() > 0 && s[0] == '+' {
        s.drop_first()
    } else {
        s
    };
    if body.len() > 0 && all_digits(body) && digits_value(body) <= u32::MAX {
        Some(digits_value(body) as u32)
    } else {
        None
    }
}

/// A longer run of digits is worth at least as much as its prefix.
proof fn lemma_digits_grow(s: Seq<char>, k: int)
    requires
        0 <= k <= s.len(),
        forall|i: int| 0 <= i < s.len() ==> is_digit(#[trigger] s[i]),
    ensures
        digits_value(s.take(k)) <= digits_value(s),
        digits_value(s) >= 0,
    decreases s.len(),
{
    if s.len() > 0 {
        let t = s.drop_last();
        assert forall|i: int| 0 <= i < t.len() implies is_digit(#[trigger] t[i]) by {
            assert(t[i] == s[i]);
        }
        if k < s.len() {
            assert(s.take(k) =~= t.take(k));
            lemma_digits_grow(t, k);
        } else {
            assert(s.take(k) =~= s);
            lemma_digits_grow(t, 0);
        }
        assert(is_digit(s.last()));
    }
}

/// Reads a `u32` as `u32`'s `from_str` does: an optional `+`, then decimal digits of a
/// value that fits.
pub fn parse_u32(s: &str) -> (r: Option<u32>)
    ensures
        r == decimal_u32(s@),
{
    let c = chars_of(s);
    let n = c.len();
    let start: usize = if n > 0 && c[0] == '+' {
        1
    } else {
        0
    };
    let ghost body = c@.subrange(start as int, n as int);
    proof {
        if n > 0 && c@[0] == '+' {
            assert(body =~= c@.drop_first());
        } else {
            assert(body =~= c@);
        }
    }
    if start >= n {
        return None;
    }
    let mut v: u64 = 0;
    let mut k: usize = start;
    while k < n
        invariant
            n == c@.len(),
            c@ == s@,
            start <= k <= n,
            body == c@.subrange(start as int, n as int),
            body == (if c@.len() > 0 && c@[0] == '+' {
                c@.drop_first()
            } else {
                c@
            }),
            v == digits_value(body.take(k - start)),
            v <= u32::MAX,
            forall|i: int| 0 <= i < k - start ==> is_digit(#[trigger] body[i]),
        decreases n - k,
    {
        let ch = c[k];
        assert(body[k - start] == ch);
        if !('0' <= ch && ch <= '9') {
            assert(!is_digit(body[k - start]));
            return None;
        }
        let d = (ch as u32 - '0' as u32) as u64;
        proof {
            assert(body.take(k + 1 - start).drop_last() =~= body.take(k - start));
            assert(body.take(k + 1 - start).last() == ch);
        }
        v = v * 10 + d;
        assert(v == digits_value(body.take(k + 1 - start)));
        if v > 0xffff_ffff {
            proof {
                if all_digits(body) {
                    lemma_digits_grow(body, k + 1 - start);
                    assert(digits_value(body) > u32::MAX);
                }
                assert(decimal_u32(s@) is None);
            }
            return None;
        }
        k = k + 1;
    }
    assert(body.take(n - start) =~= body);
    Some(v as u32)
}

/// The user a query names: a decimal user id as it stands, else the id of the first user
/// whose name equals the text ignoring case, else 0.
pub fn resolve_user(db: &DB, s: &str) -> (r: u32)
    requires
        db.wf(),
    ensures
        r == match decimal_u32(s@) {
            Some(u) => u,
            None => match crate::db::first_username(db.usernames(), s@) {
                Some(i) => db.user_ids()[i],
                None => 0,
            },
        },
{
    match parse_u32(s) {
        Some(uid) => uid,
        None => match db.get_user_id_by_username(s) {
            Some(uid) => uid,
            None => 0,
        },
    }
}

/// The page numbers behind a pager, counted from zero; pages past the last have none.
pub struct PagerPlan {
    pub prev_page: Option<u32>,
    pub next_page: Option<u32>,
    pub min_page: Option<u32>,
    pub max_page_link: Option<u32>,
    /// The window of pages shown: each with its number counted from one, and its page
    /// where it exists.
    pub page_list: Vec<(u32, Option<u32>)>,
    /// The current page, counted from one.
    pub curr_page: u32,
    pub max_page: u32,
}

/// The first page of the shown window, before it is widened to five pages.
pub open spec fn window_start(curr: int) -> int {
    if curr <= 2 {
        0
    } else {
        curr - 2
    }
}

/// The last page of the shown window.
pub open spec fn window_end(curr: int, max: int) -> int {
    if max <= 5 {
        4
    } else if curr >= max - 3 {
        max - 1
    } else {
        window_start(curr) + 4
    }
}

/// The first page of the shown window: five pages end at `window_end`.
pub open spec fn window_first(curr: int, max: int) -> int {
    window_end(curr, max) - 4
}

/// Plans a pager for page `curr_page` of `max_page`: neighbours, ends, and a window of five
/// pages around the current one.
pub fn construct_pager(curr_page: u32, max_page: u32) -> (r: PagerPlan)
    requires
        curr_page < max_page,
    ensures
        r.prev_page == (if curr_page == 0 {
            None::<u32>
        } else {
            Some((curr_page - 1) as u32)
        }),
        r.next_page == (if curr_page + 1 >= max_page {
            None::<u32>
        } else {
            Some((curr_page + 1) as u32)
        }),
        r.min_page == (if max_page <= 1 || curr_page == 0 {
            None::<u32>
        } else {
            Some(0u32)
        }),
        r.max_page_link == (if max_page <= 1 || curr_page + 1 >= max_page {
            None::<u32>
        } else {
            Some((max_page - 1) as u32)
        }),
        r.curr_page == curr_page + 1,
        r.max_page == max_page,
        r.page_list@.len() == 5,
        forall|k: int|
            0 <= k < 5 ==> {
                let i = window_first(curr_page as int, max_page as int) + k;
                #[trigger] r.page_list@[k] == ((i + 1) as u32, if i < max_page {
                    Some(i as u32)
                } else {
                    None::<u32>
                })
            },
{
    let prev_page = if curr_page == 0 {
        None
    } else {
        Some(curr_page - 1)
    };
    let next_page = if curr_page >= max_page - 1 {
        None
    } else {
        Some(curr_page + 1)
    };
    let (min_page, max_page_link) = if max_page <= 1 {
        (None, None)
    } else {
        (
            if curr_page == 0 {
                None
            } else {
                Some(0)
            },
            if curr_page >= max_page - 1 {
                None
            } else {
                Some(max_page - 1)
            },
        )
    };
    let mut i_min_page: u32 = if curr_page <= 2 {
        0
    } else {
        curr_page - 2
    };
    let i_max_page: u32 = if max_page <= 5 {
        4
    } else {
        if curr_page >= max_page - 3 {
            max_page - 1
        } else {
            i_min_page + 4
        }
    };
    i_min_page = i_min_page - (4 - (i_max_page - i_min_page));
    let mut page_list: Vec<(u32, Option<u32>)> = Vec::new();
    let mut i: u32 = i_min_page;
    while i <= i_max_page
        invariant
            i_min_page == window_first(curr_page as int, max_page as int),
            i_max_page == window_end(curr_page as int, max_page as int),
            i_max_page < max_page + 4,
            i_min_page <= i <= i_max_page + 1,
            page_list@.len() == i - i_min_page,
            forall|k: int|
                0 <= k < page_list@.len() ==> {
                    let j = i_min_page + k;
                    #[trigger] page_list@[k] == ((j + 1) as u32, if j < max_page {
                        Some(j as u32)
                    } else {
                        None::<u32>
                    })
                },
        decreases i_max_page + 1 - i,
    {
        let entry = if i < max_page {
            (i + 1, Some(i))
        } else {
            (i + 1, None)
        };
        page_list.push(entry);
        i = i + 1;
    }
    PagerPlan {
        prev_page,
        next_page,
        min_page,
        max_page_link,
        page_list,
        curr_page: curr_page + 1,
        max_page,
    }
}

} // verus!
