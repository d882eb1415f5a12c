use vstd::prelude::*;

verus! {

/// Units of a similarity value: a similarity of one is this many units.
pub const SIMILARITY_UNIT: u64 = 1_000_000;

/// What `str::to_lowercase` makes of a string.
pub uninterp spec fn lower_of(s: Seq<char>) -> Seq<char>;

/// Relies on `str::to_lowercase`: the result depends on the characters alone.
#[verifier::external_body]
pub(crate) fn lowercase(s: &str) -> (r: String)
    ensures
        r@ == lower_of(s@),
{
    s.to_lowercase()
}

/// Relies on `str::chars`, collected into a `Vec`: the characters of `s` in order. A `Vec`
/// never holds more than `isize::MAX` bytes, so it never holds more characters than that.
#[verifier::external_body]
pub(crate) fn chars_of(s: &str) -> (r: Vec<char>)
    ensures
        r@ == s@,
        r@.len() <= isize::MAX,
{
    s.chars().collect()
}

/// `needle` occurs in `hay` as a contiguous run of characters.
pub open spec fn occurs_in(needle: Seq<char>, hay: Seq<char>) -> bool {
    exists|i: int|
        0 <= i && i + needle.len() <= hay.len() && #[trigger] hay.subrange(i, i + needle.len())
            == needle
}

/// Whether `needle` matches `hay` at position `at`.
fn matches_at(hay: &Vec<char>, needle: &Vec<char>, at: usize) -> (r: bool)
    requires
        at + needle@.len() <= hay@.len(),
    ensures
        r == (hay@.subrange(at as int, at + needle@.len()) == needle@),
{
    let n = hay.len();
    let mut k: usize = 0;
    while k < needle.len()
        invariant
            n == hay@.len(),
            k <= needle@.len(),
            at + needle@.len() <= hay@.len(),
            forall|t: int| 0 <= t < k ==> hay@[at + t] == needle@[t],
        decreases needle@.len() - k,
    {
        assert(at + k < hay@.len());
        if hay[at + k] != needle[k] {
            assert(hay@.subrange(at as int, at + needle@.len())[k as int] != needle@[k as int]);
            return false;
        }
        k = k + 1;
    }
    assert(hay@.subrange(at as int, at + needle@.len()) =~= needle@);
    true
}

/// Whether `needle` occurs in `hay`.
pub fn contains_chars(hay: &Vec<char>, needle: &Vec<char>) -> (r: bool)
    ensures
        r == occurs_in(needle@, hay@),
{
    if needle.len() > hay.len() {
        return false;
    }
    if needle.len() == 0 {
        assert(hay@.subrange(0int, 0int + needle@.len()) =~= needle@);
        return true;
    }
    let n = hay.len();
    let last: usize = n - needle.len();
    let mut at: usize = 0;
    while at <= last
        invariant
            last + needle@.len() == hay@.len(),
            n == hay@.len(),
            needle@.len() > 0,
            at <= last + 1,
            forall|i: int|
                0 <= i < at ==> #[trigger] hay@.subrange(i, i + needle@.len()) != needle@,
        decreases last + 1 - at,
    {
        if matches_at(hay, needle, at) {
            return true;
        }
        at = at + 1;
    }
    false
}

/// Case-insensitive test that `kwd` occurs in `target`: both are lowered first.
pub fn match_keyword_exact(kwd: &str, target: &str) -> (r: bool)
    ensures
        r == occurs_in(lower_of(kwd@), lower_of(target@)),
{
    let lowered = lowercase(target);
    let hay = chars_of(lowered.as_str());
    let lowered_kwd = lowercase(kwd);
    let needle = chars_of(lowered_kwd.as_str());
    contains_chars(&hay, &needle)
}

/// The least of three numbers.
pub open spec fn min3(x: nat, y: nat, z: nat) -> nat {
    if x <= y && x <= z {
        x
    } else if y <= z {
        y
    } else {
        z
    }
}

/// Levenshtein distance: the least number of single-character insertions, deletions and
/// substitutions that turn `a` into `b`.
pub open spec fn edit_distance(a: Seq<char>, b: Seq<char>) -> nat
    decreases a.len() + b.len(),
{
    if a.len() == 0 {
        b.len()
    } else if b.len() == 0 {
        a.len()
    } else {
        min3(
            edit_distance(a.drop_last(), b) + 1,
            edit_distance(a, b.drop_last()) + 1,
            edit_distance(a.drop_last(), b.drop_last()) + (if a.last() == b.last() {
                0nat
            } else {
                1nat
            }),
        )
    }
}

/// The longer of two lengths.
pub open spec fn longer(a: Seq<char>, b: Seq<char>) -> nat {
    if a.len() >= b.len() {
        a.len()
    } else {
        b.len()
    }
}

/// Similarity of two character sequences, `1 - distance / longer length`, in units of
/// `SIMILARITY_UNIT` rounded down; two empty sequences have similarity zero.
pub open spec fn similarity(a: Seq<char>, b: Seq<char>) -> nat {
    let l = longer(a, b);
    if l == 0 {
        0
    } else {
        ((l - edit_distance(a, b)) * SIMILARITY_UNIT) as nat / l
    }
}

/// The distance never exceeds the longer length.
pub proof fn lemma_distance_bounded(a: Seq<char>, b: Seq<char>)
    ensures
        edit_distance(a, b) <= longer(a, b),
    decreases a.len() + b.len(),
{
    if a.len() > 0 && b.len() > 0 {
        lemma_distance_bounded(a.drop_last(), b.drop_last());
    }
}

/// A sequence is at distance zero from itself.
pub proof fn lemma_distance_to_self(a: Seq<char>)
    ensures
        edit_distance(a, a) == 0,
    decreases a.len(),
{
    if a.len() > 0 {
        lemma_distance_to_self(a.drop_last());
    }
}

/// The distance does not depend on the order of its arguments.
pub proof fn lemma_distance_symmetric(a: Seq<char>, b: Seq<char>)
    ensures
        edit_distance(a, b) == edit_distance(b, a),
    decreases a.len() + b.len(),
{
    if a.len() > 0 && b.len() > 0 {
        lemma_distance_symmetric(a.drop_last(), b);
        lemma_distance_symmetric(a, b.drop_last());
        lemma_distance_symmetric(a.drop_last(), b.drop_last());
    }
}

/// Similarity lies between zero and one, is one for a non-empty sequence against itself,
/// and does not depend on the order of its arguments.
pub proof fn lemma_similarity_laws(a: Seq<char>, b: Seq<char>)
    ensures
        0 <= similarity(a, b) <= SIMILARITY_UNIT,
        a.len() > 0 ==> similarity(a, a) == SIMILARITY_UNIT,
        similarity(a, b) == similarity(b, a),
{
    lemma_distance_bounded(a, b);
    lemma_distance_to_self(a);
    lemma_distance_symmetric(a, b);
    let l = longer(a, b);
    if l > 0 {
        let d = edit_distance(a, b);
        assert((l - d) * SIMILARITY_UNIT <= l * SIMILARITY_UNIT) by (nonlinear_arith)
            requires
                0 <= d <= l,
        ;
        assert(((l - d) * SIMILARITY_UNIT) as nat / l <= SIMILARITY_UNIT) by (nonlinear_arith)
            requires
                (l - d) * SIMILARITY_UNIT <= l * SIMILARITY_UNIT,
                l > 0,
                0 <= d <= l,
        ;
    }
    if a.len() > 0 {
        let l = longer(a, a);
        assert((l * SIMILARITY_UNIT) as nat / l == SIMILARITY_UNIT) by (nonlinear_arith)
            requires
                l > 0,
        ;
    }
}

/// The last row of the distance table: entry `j` is the distance from `a` to the first
/// `j` characters of `b`.
spec fn row_holds(row: Seq<usize>, a: Seq<char>, b: Seq<char>, upto: int) -> bool {
    forall|j: int| 0 <= j < upto ==> row[j] == edit_distance(a, b.take(j))
}

proof fn lemma_distance_le_sum(a: Seq<char>, b: Seq<char>)
    ensures
        edit_distance(a, b) <= a.len() + b.len(),
{
    lemma_distance_bounded(a, b);
}

/// The edit distance between `a` and `b`, by dynamic programming over prefixes.
pub fn edit_distance_of(a: &[char], b: &[char]) -> (r: usize)
    requires
        a@.len() + b@.len() < usize::MAX,
    ensures
        r == edit_distance(a@, b@),
{
    let n = a.len();
    let m = b.len();
    let mut prev: Vec<usize> = Vec::new();
    let mut j: usize = 0;
    while j <= m
        invariant
            m == b@.len(),
            n == a@.len(),
            n + m < usize::MAX,
            j <= m + 1,
            prev@.len() == j,
            row_holds(prev@, a@.take(0), b@, j as int),
        decreases m + 1 - j,
    {
        proof {
            assert(a@.take(0).len() == 0);
        }
        prev.push(j);
        j = j + 1;
    }
    let mut i: usize = 0;
    while i < n
        invariant
            m == b@.len(),
            n == a@.len(),
            n + m < usize::MAX,
            i <= n,
            prev@.len() == m + 1,
            row_holds(prev@, a@.take(i as int), b@, m + 1),
        decreases n - i,
    {
        let ghost ai = a@.take(i as int);
        let ghost ai1 = a@.take(i + 1);
        assert(ai1.drop_last() =~= ai);
        let mut cur: Vec<usize> = Vec::new();
        assert(b@.take(0).len() == 0);
        cur.push(i + 1);
        let mut j: usize = 0;
        while j < m
            invariant
                m == b@.len(),
                n == a@.len(),
                n + m < usize::MAX,
                i < n,
                j <= m,
                ai == a@.take(i as int),
                ai1 == a@.take(i + 1),
                ai1.drop_last() == ai,
                ai1.last() == a@[i as int],
                prev@.len() == m + 1,
                cur@.len() == j + 1,
                row_holds(prev@, ai, b@, m + 1),
                row_holds(cur@, ai1, b@, j + 1),
            decreases m - j,
        {
            let ghost bj = b@.take(j as int);
            let ghost bj1 = b@.take(j + 1);
            assert(bj1.drop_last() =~= bj);
            proof {
                lemma_distance_le_sum(ai, b@.take(j + 1));
                lemma_distance_le_sum(ai1, bj);
                lemma_distance_le_sum(ai, bj);
            }
            let x = prev[j + 1] + 1;
            let y = cur[j] + 1;
            let z = if a[i] == b[j] {
                prev[j]
            } else {
                prev[j] + 1
            };
            let w = if x <= y && x <= z {
                x
            } else if y <= z {
                y
            } else {
                z
            };
            cur.push(w);
            j = j + 1;
        }
        prev = cur;
        i = i + 1;
    }
    assert(a@.take(n as int) =~= a@);
    assert(b@.take(m as int) =~= b@);
    prev[m]
}

/// Similarity of `a` and `b` in units of `SIMILARITY_UNIT`: one less the edit distance over
/// the longer length, rounded down; zero where both are empty.
pub fn match_keyword_partial(a: &[char], b: &[char]) -> (r: u64)
    requires
        a@.len() + b@.len() < usize::MAX,
    ensures
        r == similarity(a@, b@),
        r <= SIMILARITY_UNIT,
{
    proof {
        lemma_similarity_laws(a@, b@);
        lemma_distance_bounded(a@, b@);
    }
    let d = edit_distance_of(a, b);
    let l = if a.len() >= b.len() {
        a.len()
    } else {
        b.len()
    };
    if l == 0 {
        return 0;
    }
    let q: u128 = ((l - d) as u128) * (SIMILARITY_UNIT as u128) / (l as u128);
    q as u64
}

} // verus!
