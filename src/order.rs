use vstd::prelude::*;

verus! {

/// Lexicographic order on character sequences by code point, the order of `str`'s `<`.
pub open spec fn lex_lt(a: Seq<char>, b: Seq<char>) -> bool
    decreases a.len(),
{
    if a.len() == 0 {
        b.len() > 0
    } else if b.len() == 0 {
        false
    } else if a[0] != b[0] {
        a[0] < b[0]
    } else {
        lex_lt(a.drop_first(), b.drop_first())
    }
}

/// No sequence is below itself.
pub proof fn lemma_lex_irreflexive(a: Seq<char>)
    ensures
        !lex_lt(a, a),
    decreases a.len(),
{
    if a.len() > 0 {
        lemma_lex_irreflexive(a.drop_first());
    }
}

/// Two sequences are equal or one is below the other, never both ways.
pub proof fn lemma_lex_total(a: Seq<char>, b: Seq<char>)
    ensures
        a == b || lex_lt(a, b) || lex_lt(b, a),
        !(lex_lt(a, b) && lex_lt(b, a)),
    decreases a.len(),
{
    if a.len() > 0 && b.len() > 0 && a[0] == b[0] {
        lemma_lex_total(a.drop_first(), b.drop_first());
        if a.drop_first() == b.drop_first() {
            assert(a =~= seq![a[0]] + a.drop_first());
            assert(b =~= seq![b[0]] + b.drop_first());
        }
    }
    if a.len() > 0 && b.len() > 0 && a[0] != b[0] {
        assert(a[0] < b[0] || b[0] < a[0]);
    }
    if a.len() == 0 && b.len() == 0 {
        assert(a =~= b);
    }
}

/// The order is transitive.
pub proof fn lemma_lex_transitive(a: Seq<char>, b: Seq<char>, c: Seq<char>)
    requires
        lex_lt(a, b),
        lex_lt(b, c),
    ensures
        lex_lt(a, c),
    decreases a.len(),
{
    if a.len() > 0 && b.len() > 0 && c.len() > 0 && a[0] == b[0] && b[0] == c[0] {
        lemma_lex_transitive(a.drop_first(), b.drop_first(), c.drop_first());
    }
}

/// Compares `a` with `b` in lexicographic order: negative when `a` is below, zero when
/// equal, positive when above.
pub fn compare_chars(a: &Vec<char>, b: &Vec<char>) -> (r: i8)
    ensures
        r < 0 <==> lex_lt(a@, b@),
        r == 0 <==> a@ == b@,
        r > 0 <==> lex_lt(b@, a@),
{
    proof {
        lemma_lex_total(a@, b@);
    }
    let n = a.len();
    let m = b.len();
    let mut k: usize = 0;
    assert(a@.skip(0) =~= a@);
    assert(b@.skip(0) =~= b@);
    while k < n && k < m
        invariant
            n == a@.len(),
            m == b@.len(),
            k <= n,
            k <= m,
            a@.subrange(0, k as int) == b@.subrange(0, k as int),
            lex_lt(a@, b@) == lex_lt(a@.skip(k as int), b@.skip(k as int)),
            lex_lt(b@, a@) == lex_lt(b@.skip(k as int), a@.skip(k as int)),
        decreases n - k,
    {
        assert(a@.skip(k as int)[0] == a@[k as int]);
        assert(b@.skip(k as int)[0] == b@[k as int]);
        if a[k] != b[k] {
            if a[k] < b[k] {
                return -1;
            } else {
                return 1;
            }
        }
        assert(a@.skip(k as int).drop_first() =~= a@.skip(k + 1));
        assert(b@.skip(k as int).drop_first() =~= b@.skip(k + 1));
        assert(a@.subrange(0, k + 1) =~= a@.subrange(0, k as int).push(a@[k as int]));
        assert(b@.subrange(0, k + 1) =~= b@.subrange(0, k as int).push(b@[k as int]));
        k = k + 1;
    }
    if k == n && k == m {
        assert(a@ =~= a@.subrange(0, k as int));
        assert(b@ =~= b@.subrange(0, k as int));
        0
    } else if k == n {
        -1
    } else {
        1
    }
}

/// A sort key as the sort sees it: a number first, then a text.
pub type KeyView = (int, Seq<char>);

/// The view of an executable sort key.
pub open spec fn key_view(k: (i128, Vec<char>)) -> KeyView {
    (k.0 as int, k.1@)
}

/// The views of a list of executable sort keys.
pub open spec fn keys_view(keys: Seq<(i128, Vec<char>)>) -> Seq<KeyView> {
    keys.map_values(|k: (i128, Vec<char>)| key_view(k))
}

/// Keys are ordered by number, then by text.
pub open spec fn key_lt(a: KeyView, b: KeyView) -> bool {
    a.0 < b.0 || (a.0 == b.0 && lex_lt(a.1, b.1))
}

/// Key order in the requested direction: ascending, or descending by swapping the operands.
pub open spec fn dir_lt(ascending: bool, a: KeyView, b: KeyView) -> bool {
    if ascending {
        key_lt(a, b)
    } else {
        key_lt(b, a)
    }
}

/// In a stable sort, the element at input position `x` comes before the one at `y`: its key
/// is ahead in the requested direction, or the keys are equal and `x` came first.
pub open spec fn goes_before(keys: Seq<KeyView>, ascending: bool, x: int, y: int) -> bool {
    dir_lt(ascending, keys[x], keys[y]) || (keys[x] == keys[y] && x < y)
}

/// `order` lists input positions `0 .. keys.len()` in the order of a stable sort by `keys`.
pub open spec fn is_stable_order(keys: Seq<KeyView>, ascending: bool, order: Seq<int>) -> bool {
    &&& order.len() == keys.len()
    &&& forall|i: int| 0 <= i < order.len() ==> 0 <= #[trigger] order[i] < keys.len()
    &&& forall|i: int, j: int|
        0 <= i < j < order.len() ==> goes_before(keys, ascending, #[trigger] order[i], #[trigger] order[j])
}

/// Key order is a strict total order.
pub proof fn lemma_key_order(a: KeyView, b: KeyView, c: KeyView)
    ensures
        !key_lt(a, a),
        a == b || key_lt(a, b) || key_lt(b, a),
        !(key_lt(a, b) && key_lt(b, a)),
        key_lt(a, b) && key_lt(b, c) ==> key_lt(a, c),
{
    lemma_lex_irreflexive(a.1);
    lemma_lex_total(a.1, b.1);
    if key_lt(a, b) && key_lt(b, c) && a.0 == b.0 && b.0 == c.0 {
        lemma_lex_transitive(a.1, b.1, c.1);
    }
}

/// Whether key `a` is below key `b`.
pub fn key_less(a: &(i128, Vec<char>), b: &(i128, Vec<char>)) -> (r: bool)
    ensures
        r == key_lt(key_view(*a), key_view(*b)),
{
    if a.0 < b.0 {
        true
    } else if a.0 > b.0 {
        false
    } else {
        compare_chars(&a.1, &b.1) < 0
    }
}

/// Whether key `a` is ahead of key `b` in the requested direction.
fn dir_less(ascending: bool, a: &(i128, Vec<char>), b: &(i128, Vec<char>)) -> (r: bool)
    ensures
        r == dir_lt(ascending, key_view(*a), key_view(*b)),
{
    if ascending {
        key_less(a, b)
    } else {
        key_less(b, a)
    }
}

/// The positions of `keys` in the order of a stable sort, ascending or descending. Elements
/// with equal keys keep their input order in either direction.
pub fn stable_order(keys: &Vec<(i128, Vec<char>)>, ascending: bool) -> (order: Vec<usize>)
    ensures
        is_stable_order(keys_view(keys@), ascending, order@.map_values(|i: usize| i as int)),
{
    let ghost kv = keys_view(keys@);
    let n = keys.len();
    let mut order: Vec<usize> = Vec::new();
    let mut k: usize = 0;
    while k < n
        invariant
            n == keys@.len(),
            kv == keys_view(keys@),
            k <= n,
            order@.len() == k,
            forall|i: int| 0 <= i < order@.len() ==> #[trigger] order@[i] < k,
            forall|i: int, j: int|
                0 <= i < j < order@.len() ==> goes_before(
                    kv,
                    ascending,
                    #[trigger] order@[i] as int,
                    #[trigger] order@[j] as int,
                ),
        decreases n - k,
    {
        let ghost kk = kv[k as int];
        let mut lo: usize = 0;
        let mut hi: usize = order.len();
        while lo < hi
            invariant
                n == keys@.len(),
                kv == keys_view(keys@),
                k < n,
                kk == kv[k as int],
                order@.len() == k,
                lo <= hi <= k,
                forall|i: int| 0 <= i < order@.len() ==> #[trigger] order@[i] < k,
                forall|i: int, j: int|
                    0 <= i < j < order@.len() ==> goes_before(
                        kv,
                        ascending,
                        #[trigger] order@[i] as int,
                        #[trigger] order@[j] as int,
                    ),
                forall|i: int|
                    0 <= i < lo ==> !dir_lt(ascending, kk, #[trigger] kv[order@[i] as int]),
                forall|i: int|
                    hi <= i < k ==> dir_lt(ascending, kk, #[trigger] kv[order@[i] as int]),
            decreases hi - lo,
        {
            let mid = lo + (hi - lo) / 2;
            let o = order[mid];
            if dir_less(ascending, &keys[k], &keys[o]) {
                proof {
                    assert forall|i: int| mid <= i < k implies dir_lt(
                        ascending,
                        kk,
                        #[trigger] kv[order@[i] as int],
                    ) by {
                        if i > mid {
                            assert(goes_before(kv, ascending, order@[mid as int] as int, order@[i] as int));
                            lemma_key_order(kk, kv[o as int], kv[order@[i] as int]);
                            lemma_key_order(kv[order@[i] as int], kv[o as int], kk);
                        }
                    }
                }
                hi = mid;
            } else {
                proof {
                    assert forall|i: int| 0 <= i < mid + 1 implies !dir_lt(
                        ascending,
                        kk,
                        #[trigger] kv[order@[i] as int],
                    ) by {
                        if i < mid {
                            assert(goes_before(kv, ascending, order@[i] as int, order@[mid as int] as int));
                            lemma_key_order(kk, kv[order@[i] as int], kv[o as int]);
                            lemma_key_order(kv[o as int], kv[order@[i] as int], kk);
                        }
                    }
                }
                lo = mid + 1;
            }
        }
        let ghost prev = order@;
        proof {
            assert forall|i: int| 0 <= i < lo implies goes_before(
                kv,
                ascending,
                #[trigger] prev[i] as int,
                k as int,
            ) by {
                lemma_key_order(kk, kv[prev[i] as int], kk);
            }
            assert forall|i: int| lo <= i < k implies goes_before(
                kv,
                ascending,
                k as int,
                #[trigger] prev[i] as int,
            ) by {}
        }
        order.insert(lo, k);
        proof {
            assert forall|i: int, j: int| 0 <= i < j < order@.len() implies goes_before(
                kv,
                ascending,
                #[trigger] order@[i] as int,
                #[trigger] order@[j] as int,
            ) by {
                if j < lo {
                    assert(order@[i] == prev[i] && order@[j] == prev[j]);
                } else if j == lo {
                    assert(order@[i] == prev[i]);
                } else if i < lo {
                    assert(order@[i] == prev[i] && order@[j] == prev[j - 1]);
                } else if i == lo {
                    assert(order@[j] == prev[j - 1]);
                } else {
                    assert(order@[i] == prev[i - 1] && order@[j] == prev[j - 1]);
                }
            }
        }
        k = k + 1;
    }
    proof {
        let om = order@.map_values(|i: usize| i as int);
        assert forall|i: int, j: int| 0 <= i < j < om.len() implies goes_before(
            kv,
            ascending,
            #[trigger] om[i],
            #[trigger] om[j],
        ) by {
            assert(goes_before(kv, ascending, order@[i] as int, order@[j] as int));
        }
        assert forall|i: int| 0 <= i < om.len() implies 0 <= #[trigger] om[i] < kv.len() by {
            assert(order@[i] < k);
        }
    }
    order
}

/// Elements with equal keys keep their input order: in a stable order, whichever the
/// direction, the one that came first in the input comes first in the output.
pub proof fn lemma_ties_keep_input_order(
    keys: Seq<KeyView>,
    ascending: bool,
    order: Seq<int>,
    i: int,
    j: int,
)
    requires
        is_stable_order(keys, ascending, order),
        0 <= i < order.len(),
        0 <= j < order.len(),
        keys[order[i]] == keys[order[j]],
        order[i] < order[j],
    ensures
        i < j,
{
    if j < i {
        assert(goes_before(keys, ascending, order[j], order[i]));
        lemma_key_order(keys[order[i]], keys[order[j]], keys[order[i]]);
    }
    if i == j {
        assert(order[i] == order[j]);
    }
}

/// Elements with different keys come out by key: ascending puts the lower key first,
/// descending the higher one.
pub proof fn lemma_distinct_keys_follow_direction(
    keys: Seq<KeyView>,
    ascending: bool,
    order: Seq<int>,
    i: int,
    j: int,
)
    requires
        is_stable_order(keys, ascending, order),
        0 <= i < order.len(),
        0 <= j < order.len(),
        key_lt(keys[order[i]], keys[order[j]]),
    ensures
        ascending ==> i < j,
        !ascending ==> j < i,
{
    lemma_key_order(keys[order[i]], keys[order[j]], keys[order[i]]);
    if i < j {
        assert(goes_before(keys, ascending, order[i], order[j]));
    }
    if j < i {
        assert(goes_before(keys, ascending, order[j], order[i]));
    }
}

} // verus!
