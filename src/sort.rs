use vstd::prelude::*;

use crate::db::{PackedSubject, SearchResult};
use crate::matcher::chars_of;
use crate::order::{
    is_stable_order, key_lt, key_view, keys_view, lemma_distinct_keys_follow_direction,
    lemma_ties_keep_input_order, stable_order, KeyView,
};
use crate::ticket::SortMode;

verus! {

/// `log2(1 + k / 100)` in millionths, rounded down, for `k` from 0 to 100: the weight that a
/// rating count of `k` gives to an entry's score. From 100 ratings on the weight is one.
pub open spec fn confidence_table() -> Seq<int> {
    seq![
        0, 14355, 28569, 42644, 56583, 70389, 84064, 97610, 111031, 124328,
        137503, 150559, 163498, 176322, 189033, 201633, 214124, 226508, 238786, 250961,
        263034, 275007, 286881, 298658, 310340, 321928, 333423, 344828, 356143, 367371,
        378511, 389566, 400537, 411426, 422233, 432959, 443606, 454175, 464668, 475084,
        485426, 495695, 505890, 516015, 526068, 536052, 545968, 555816, 565597, 575312,
        584962, 594548, 604071, 613531, 622930, 632268, 641546, 650764, 659924, 669026,
        678071, 687060, 695993, 704871, 713695, 722466, 731183, 739848, 748461, 757023,
        765534, 773996, 782408, 790772, 799087, 807354, 815575, 823749, 831877, 839959,
        847996, 855989, 863938, 871843, 879705, 887525, 895302, 903038, 910732, 918386,
        925999, 933572, 941106, 948600, 956056, 963474, 970853, 978195, 985500, 992768,
        1000000,
    ]
}

/// The confidence weight of a rating count, saturating at 100 ratings.
pub open spec fn confidence(rating_count: u32) -> int {
    if rating_count >= 100 {
        confidence_table()[100]
    } else {
        confidence_table()[rating_count as int]
    }
}

/// Popularity: the score weighted by confidence in the number of ratings.
pub open spec fn popularity(s: PackedSubject) -> int {
    s.score as int * confidence(s.rating_count)
}

/// The title an entry is shown and sorted under: the localized one, unless it is empty.
pub open spec fn display_name(s: PackedSubject) -> Seq<char> {
    if s.name_cn@.len() == 0 {
        s.name@
    } else {
        s.name_cn@
    }
}

/// The release date as one number that orders as the date does.
pub open spec fn date_key(s: PackedSubject) -> int {
    s.air_y as int * 65536 + s.air_m as int * 256 + s.air_d as int
}

/// The sort key of an entry outside any search. Without a search, recommendation and
/// relevance order by popularity.
pub open spec fn subject_key(mode: SortMode, s: PackedSubject) -> KeyView {
    match mode {
        SortMode::Recommend | SortMode::Relative | SortMode::Rank => (popularity(s), seq![]),
        SortMode::Name => (0, display_name(s)),
        SortMode::Date => (date_key(s), seq![]),
        SortMode::FavCount => (s.rating_count as int, seq![]),
    }
}

/// The sort key of a search result.
pub open spec fn result_key(mode: SortMode, r: SearchResult) -> KeyView {
    match mode {
        SortMode::Recommend => (r.user_recommend as int, seq![]),
        SortMode::Relative => (r.keyword_relative as int, seq![]),
        SortMode::Rank => (popularity(*r.subject), seq![]),
        _ => subject_key(mode, *r.subject),
    }
}

/// `r` is `l` rearranged by the stable order `p`: place `i` of `r` holds input element
/// `p[i]`.
pub open spec fn sorted_by_order<T>(
    r: Seq<T>,
    l: Seq<T>,
    keys: Seq<KeyView>,
    ascending: bool,
    p: Seq<int>,
) -> bool {
    &&& is_stable_order(keys, ascending, p)
    &&& r.len() == p.len()
    &&& forall|i: int| 0 <= i < r.len() ==> r[i] == l[#[trigger] p[i]]
}

/// `r` is `l` rearranged in the order of a stable sort by `keys`.
pub open spec fn is_stable_sort_of<T>(r: Seq<T>, l: Seq<T>, keys: Seq<KeyView>, ascending: bool) -> bool {
    exists|p: Seq<int>| #[trigger] sorted_by_order(r, l, keys, ascending, p)
}

/// The confidence weight of a rating count.
fn confidence_weight(rating_count: u32) -> (r: u64)
    ensures
        r == confidence(rating_count),
{
    let table: [u64; 101] = [
        0, 14355, 28569, 42644, 56583, 70389, 84064, 97610, 111031, 124328,
        137503, 150559, 163498, 176322, 189033, 201633, 214124, 226508, 238786, 250961,
        263034, 275007, 286881, 298658, 310340, 321928, 333423, 344828, 356143, 367371,
        378511, 389566, 400537, 411426, 422233, 432959, 443606, 454175, 464668, 475084,
        485426, 495695, 505890, 516015, 526068, 536052, 545968, 555816, 565597, 575312,
        584962, 594548, 604071, 613531, 622930, 632268, 641546, 650764, 659924, 669026,
        678071, 687060, 695993, 704871, 713695, 722466, 731183, 739848, 748461, 757023,
        765534, 773996, 782408, 790772, 799087, 807354, 815575, 823749, 831877, 839959,
        847996, 855989, 863938, 871843, 879705, 887525, 895302, 903038, 910732, 918386,
        925999, 933572, 941106, 948600, 956056, 963474, 970853, 978195, 985500, 992768,
        1000000,
    ];
    assert(table@ =~= confidence_table().map_values(|w: int| w as u64));
    let k = if rating_count >= 100 {
        100
    } else {
        rating_count as usize
    };
    table[k]
}

/// The popularity of an entry: its score weighted by confidence in its rating count.
pub fn score_mapper(x: &PackedSubject) -> (r: u64)
    ensures
        r == popularity(*x),
{
    let w = confidence_weight(x.rating_count);
    assert(w <= 1_000_000) by {
        assert(forall|i: int| 0 <= i < 101 ==> confidence_table()[i] <= 1_000_000);
    }
    assert(x.score as u64 * w <= 0xffff_ffff * 1_000_000) by (nonlinear_arith)
        requires
            w <= 1_000_000,
            x.score <= 0xffff_ffff,
    ;
    x.score as u64 * w
}

/// The title an entry sorts under, as characters.
fn name_mapper(x: &PackedSubject) -> (r: Vec<char>)
    ensures
        r@ == display_name(*x),
{
    if x.name_cn.as_str().is_empty() {
        chars_of(x.name.as_str())
    } else {
        chars_of(x.name_cn.as_str())
    }
}

/// The release date packed as year, month and day.
fn date_mapper(x: &PackedSubject) -> (r: u32)
    ensures
        r == date_key(*x),
{
    (x.air_y as u32) * 65536 + (x.air_m as u32) * 256 + (x.air_d as u32)
}

/// The sort key of an entry outside any search.
fn subject_key_of(mode: SortMode, x: &PackedSubject) -> (r: (i128, Vec<char>))
    ensures
        key_view(r) == subject_key(mode, *x),
{
    let r = match mode {
        SortMode::Recommend | SortMode::Relative | SortMode::Rank => (
            score_mapper(x) as i128,
            Vec::new(),
        ),
        SortMode::Name => (0, name_mapper(x)),
        SortMode::Date => (date_mapper(x) as i128, Vec::new()),
        SortMode::FavCount => (x.rating_count as i128, Vec::new()),
    };
    assert(key_view(r) =~= subject_key(mode, *x));
    r
}

/// The sort key of a search result.
fn result_key_of(mode: SortMode, x: &SearchResult) -> (r: (i128, Vec<char>))
    ensures
        key_view(r) == result_key(mode, *x),
{
    let r = match mode {
        SortMode::Recommend => (x.user_recommend as i128, Vec::new()),
        SortMode::Relative => (x.keyword_relative as i128, Vec::new()),
        SortMode::Rank => (score_mapper(x.subject) as i128, Vec::new()),
        _ => subject_key_of(mode, x.subject),
    };
    assert(key_view(r) =~= result_key(mode, *x));
    r
}

/// Sorts entries outside any search, stably, by the key of `mode`, ascending or
/// descending. Entries with equal keys keep their order in either direction.
pub fn sort_result_unsearched<'a>(l: Vec<&'a PackedSubject>, mode: SortMode, ascent: bool) -> (r:
    Vec<&'a PackedSubject>)
    ensures
        is_stable_sort_of(
            r@,
            l@,
            l@.map_values(|x: &PackedSubject| subject_key(mode, *x)),
            ascent,
        ),
{
    let ghost want = l@.map_values(|x: &PackedSubject| subject_key(mode, *x));
    let n = l.len();
    let mut keys: Vec<(i128, Vec<char>)> = Vec::new();
    let mut k: usize = 0;
    while k < n
        invariant
            n == l@.len(),
            want == l@.map_values(|x: &PackedSubject| subject_key(mode, *x)),
            want.len() == n,
            k <= n,
            keys@.len() == k,
            forall|i: int| 0 <= i < k ==> key_view(#[trigger] keys@[i]) == want[i],
        decreases n - k,
    {
        let key = subject_key_of(mode, l[k]);
        assert(want[k as int] == subject_key(mode, *l@[k as int]));
        keys.push(key);
        k = k + 1;
    }
    assert(keys_view(keys@) =~= want);
    let order = stable_order(&keys, ascent);
    let ghost p = order@.map_values(|i: usize| i as int);
    let mut r: Vec<&'a PackedSubject> = Vec::new();
    let mut j: usize = 0;
    while j < n
        invariant
            n == l@.len(),
            is_stable_order(want, ascent, p),
            want.len() == n,
            order@.len() == n,
            p == order@.map_values(|i: usize| i as int),
            j <= n,
            r@.len() == j,
            forall|i: int| 0 <= i < j ==> r@[i] == l@[#[trigger] p[i]],
        decreases n - j,
    {
        assert(p[j as int] == order@[j as int] as int);
        assert(p[j as int] < n);
        r.push(l[order[j]]);
        j = j + 1;
    }
    assert(sorted_by_order(r@, l@, want, ascent, p));
    r
}

/// Sorts search results, stably, by the key of `mode`, ascending or descending. Results with
/// equal keys keep their order in either direction.
pub fn sort_result<'a>(l: Vec<SearchResult<'a>>, mode: SortMode, ascent: bool) -> (r: Vec<
    SearchResult<'a>,
>)
    ensures
        is_stable_sort_of(
            r@,
            l@,
            l@.map_values(|x: SearchResult| result_key(mode, x)),
            ascent,
        ),
{
    let ghost want = l@.map_values(|x: SearchResult| result_key(mode, x));
    let n = l.len();
    let mut keys: Vec<(i128, Vec<char>)> = Vec::new();
    let mut k: usize = 0;
    while k < n
        invariant
            n == l@.len(),
            want == l@.map_values(|x: SearchResult| result_key(mode, x)),
            want.len() == n,
            k <= n,
            keys@.len() == k,
            forall|i: int| 0 <= i < k ==> key_view(#[trigger] keys@[i]) == want[i],
        decreases n - k,
    {
        let key = result_key_of(mode, &l[k]);
        assert(want[k as int] == result_key(mode, l@[k as int]));
        keys.push(key);
        k = k + 1;
    }
    assert(keys_view(keys@) =~= want);
    let order = stable_order(&keys, ascent);
    let ghost p = order@.map_values(|i: usize| i as int);
    let mut r: Vec<SearchResult<'a>> = Vec::new();
    let mut j: usize = 0;
    while j < n
        invariant
            n == l@.len(),
            is_stable_order(want, ascent, p),
            want.len() == n,
            order@.len() == n,
            p == order@.map_values(|i: usize| i as int),
            j <= n,
            r@.len() == j,
            forall|i: int| 0 <= i < j ==> r@[i] == l@[#[trigger] p[i]],
        decreases n - j,
    {
        assert(p[j as int] == order@[j as int] as int);
        assert(p[j as int] < n);
        r.push(l[order[j]]);
        j = j + 1;
    }
    assert(sorted_by_order(r@, l@, want, ascent, p));
    r
}

/// Sorting ascending and sorting descending agree on elements with equal keys: they come out
/// in the same relative order both ways, that of the input. Elements with different keys
/// come out in opposite orders.
pub proof fn lemma_direction_keeps_ties(
    keys: Seq<KeyView>,
    up: Seq<int>,
    down: Seq<int>,
    iu: int,
    ju: int,
    id: int,
    jd: int,
)
    requires
        is_stable_order(keys, true, up),
        is_stable_order(keys, false, down),
        0 <= iu < up.len(),
        0 <= ju < up.len(),
        0 <= id < down.len(),
        0 <= jd < down.len(),
        up[iu] == down[id],
        up[ju] == down[jd],
        up[iu] != up[ju],
    ensures
        keys[up[iu]] == keys[up[ju]] ==> (iu < ju <==> id < jd),
        key_lt(keys[up[iu]], keys[up[ju]]) ==> iu < ju && jd < id,
{
    if keys[up[iu]] == keys[up[ju]] {
        if up[iu] < up[ju] {
            lemma_ties_keep_input_order(keys, true, up, iu, ju);
            lemma_ties_keep_input_order(keys, false, down, id, jd);
        } else {
            lemma_ties_keep_input_order(keys, true, up, ju, iu);
            lemma_ties_keep_input_order(keys, false, down, jd, id);
        }
    }
    if key_lt(keys[up[iu]], keys[up[ju]]) {
        lemma_distinct_keys_follow_direction(keys, true, up, iu, ju);
        lemma_distinct_keys_follow_direction(keys, false, down, id, jd);
    }
}

/// The confidence weight grows strictly with the rating count up to 100 ratings.
pub proof fn lemma_confidence_increasing(a: u32, b: u32)
    requires
        a < b,
        a < 100,
    ensures
        confidence(a) < confidence(b),
{
    assert(forall|i: int, j: int|
        0 <= i < j <= 100 ==> #[trigger] confidence_table()[i] < #[trigger] confidence_table()[j]) by {
        assert(forall|i: int| 0 <= i < 100 ==> #[trigger] confidence_table()[i] < confidence_table()[i + 1]);
        assert forall|i: int, j: int| 0 <= i < j <= 100 implies #[trigger] confidence_table()[i]
            < #[trigger] confidence_table()[j] by {
            lemma_table_step(i, j);
        }
    }
}

proof fn lemma_table_step(i: int, j: int)
    requires
        0 <= i < j <= 100,
        forall|k: int| 0 <= k < 100 ==> #[trigger] confidence_table()[k] < confidence_table()[k + 1],
    ensures
        confidence_table()[i] < confidence_table()[j],
    decreases j - i,
{
    if j > i + 1 {
        lemma_table_step(i, j - 1);
    }
}

/// Among entries with the same positive score, popularity grows with the rating count until
/// 100 ratings, and stays level after.
pub proof fn lemma_popularity_by_rating_count(x: PackedSubject, y: PackedSubject)
    requires
        x.score == y.score,
        x.score > 0,
        x.rating_count < y.rating_count,
    ensures
        x.rating_count < 100 ==> popularity(x) < popularity(y),
        x.rating_count >= 100 ==> popularity(x) == popularity(y),
{
    if x.rating_count < 100 {
        lemma_confidence_increasing(x.rating_count, y.rating_count);
        let c = confidence(x.rating_count);
        let d = confidence(y.rating_count);
        assert(x.score as int * c < x.score as int * d) by (nonlinear_arith)
            requires
                c < d,
                x.score > 0,
        ;
    }
}

/// Sorting a list ascending and sorting it descending, by the same keys, agree on elements
/// with equal keys: two such input elements come out in the same relative order both ways
/// (the input's). Elements with different keys come out in opposite orders. Input elements
/// `x` and `y` stand at places `iu`, `ju` of the ascending result and `id`, `jd` of the
/// descending one.
pub proof fn lemma_sorts_keep_ties_across_directions<T>(
    l: Seq<T>,
    keys: Seq<KeyView>,
    up: Seq<T>,
    down: Seq<T>,
    pu: Seq<int>,
    pd: Seq<int>,
    x: int,
    y: int,
    iu: int,
    ju: int,
    id: int,
    jd: int,
)
    requires
        sorted_by_order(up, l, keys, true, pu),
        sorted_by_order(down, l, keys, false, pd),
        x != y,
        0 <= iu < up.len() && 0 <= ju < up.len() && pu[iu] == x && pu[ju] == y,
        0 <= id < down.len() && 0 <= jd < down.len() && pd[id] == x && pd[jd] == y,
    ensures
        up[iu] == l[x] && up[ju] == l[y] && down[id] == l[x] && down[jd] == l[y],
        keys[x] == keys[y] ==> (iu < ju <==> id < jd),
        keys[x] == keys[y] ==> (iu < ju <==> x < y),
        keys[x] != keys[y] ==> (iu < ju <==> jd < id),
{
    lemma_direction_keeps_ties(keys, pu, pd, iu, ju, id, jd);
    lemma_direction_keeps_ties(keys, pu, pd, ju, iu, jd, id);
    if keys[x] == keys[y] {
        if x < y {
            lemma_ties_keep_input_order(keys, true, pu, iu, ju);
        } else {
            lemma_ties_keep_input_order(keys, true, pu, ju, iu);
        }
    } else {
        crate::order::lemma_key_order(keys[x], keys[y], keys[x]);
    }
}

} // verus!
