use vstd::prelude::*;

use crate::matcher::{
    chars_of, lemma_similarity_laws, lower_of, lowercase, match_keyword_exact,
    match_keyword_partial, occurs_in, similarity, SIMILARITY_UNIT,
};
use crate::ticket::{
    in_any_range, in_range, Relation, SearchMode, SearchRangeList, SearchTicket,
};
use crate::order::{compare_chars, lemma_lex_irreflexive, lemma_lex_total, lemma_lex_transitive, lex_lt};

verus! {

/// The kind of a catalog entry.
#[derive(Clone, Copy, Debug, PartialEq, Eq, Structural)]
pub enum PackedSubjectSubtype {
    Unknown,
    TV,
    OVA,
    Web,
    Movie,
}

/// One catalog entry.
#[derive(Clone, Debug)]
pub struct PackedSubject {
    pub subject_id: u32,
    pub rank: u32,
    pub name: String,
    pub name_cn: String,
    pub image_partial_url: String,
    /// Pairs of tag id and tag weight; the weight is in thousandths.
    pub tag_list: Vec<(u32, u32)>,
    /// Average rating, in hundredths of a point.
    pub score: u32,
    pub rating_count: u32,
    pub air_y: u16,
    pub air_m: u8,
    pub air_d: u8,
    pub sub_type: PackedSubjectSubtype,
    pub is_r18: bool,
}

/// Why a snapshot was refused.
#[derive(Clone, Copy, Debug, PartialEq, Eq, Structural)]
pub enum LoadError {
    /// The user id list and the username list differ in length.
    UserListMismatch,
    /// The relation matrix does not hold two bytes per user and entry.
    MatrixSizeMismatch,
    /// The entries are not in strictly ascending order of id.
    SubjectsUnsorted,
    /// The user ids are not strictly ascending.
    UsersUnsorted,
    /// The tag names are not strictly ascending.
    TagsUnsorted,
    /// There are more tags than a `u32` tag id can name.
    TooManyTags,
}

/// The loaded snapshot: entries sorted by id, users sorted by id with their names, tag
/// names sorted, and the user-by-entry relation matrix, row-major.
pub struct DB {
    db_date: (u8, u8, u16),
    subject_packed_list: Vec<PackedSubject>,
    user_id_list: Vec<u32>,
    user_username_list: Vec<String>,
    tag_name_list: Vec<String>,
    map_table: Vec<u16>,
}

/// The ids of a list of entries.
pub open spec fn subject_ids(s: Seq<PackedSubject>) -> Seq<u32> {
    s.map_values(|x: PackedSubject| x.subject_id)
}

/// Strictly ascending integers.
pub open spec fn strictly_ascending(s: Seq<u32>) -> bool {
    forall|i: int, j: int| 0 <= i < j < s.len() ==> s[i] < s[j]
}

/// The texts of a list of strings.
pub open spec fn texts(s: Seq<String>) -> Seq<Seq<char>> {
    s.map_values(|x: String| x@)
}

/// Strictly ascending texts, in lexicographic order.
pub open spec fn texts_ascending(s: Seq<Seq<char>>) -> bool {
    forall|i: int, j: int| 0 <= i < j < s.len() ==> lex_lt(s[i], s[j])
}

/// A relation matrix read from bytes: each cell is two bytes, low byte first.
pub open spec fn decode_cells(b: Seq<u8>) -> Seq<u16> {
    Seq::new(b.len() / 2, |i: int| (b[2 * i] as int + 256 * b[2 * i + 1] as int) as u16)
}

/// Where `x` stands in a strictly ascending list, if it is there.
pub open spec fn position_of(s: Seq<u32>, x: u32) -> Option<int> {
    if exists|i: int| 0 <= i < s.len() && s[i] == x {
        Some(choose|i: int| 0 <= i < s.len() && s[i] == x)
    } else {
        None
    }
}

/// Where text `x` stands in a list of texts, if it is there.
pub open spec fn text_position(s: Seq<Seq<char>>, x: Seq<char>) -> Option<int> {
    if exists|i: int| 0 <= i < s.len() && s[i] == x {
        Some(choose|i: int| 0 <= i < s.len() && s[i] == x)
    } else {
        None
    }
}

/// The first position whose username equals `name` ignoring case (both lowered), if any.
pub open spec fn first_username(names: Seq<Seq<char>>, name: Seq<char>) -> Option<int> {
    if exists|i: int| 0 <= i < names.len() && lower_of(names[i]) == lower_of(name) {
        Some(
            choose|i: int|
                0 <= i < names.len() && lower_of(names[i]) == lower_of(name) && forall|k: int|
                    0 <= k < i ==> lower_of(names[k]) != lower_of(name),
        )
    } else {
        None
    }
}

/// In a strictly ascending list a value stands at one position at most.
proof fn lemma_position_unique(s: Seq<u32>, x: u32, i: int)
    requires
        strictly_ascending(s),
        0 <= i < s.len(),
        s[i] == x,
    ensures
        position_of(s, x) == Some(i),
{
    let j = choose|j: int| 0 <= j < s.len() && s[j] == x;
    assert(j == i);
}

proof fn lemma_text_position_unique(s: Seq<Seq<char>>, x: Seq<char>, i: int)
    requires
        texts_ascending(s),
        0 <= i < s.len(),
        s[i] == x,
    ensures
        text_position(s, x) == Some(i),
{
    let j = choose|j: int| 0 <= j < s.len() && s[j] == x;
    lemma_lex_irreflexive(x);
    if j < i {
        assert(lex_lt(s[j], s[i]));
    }
    if i < j {
        assert(lex_lt(s[i], s[j]));
    }
}

impl DB {
    /// The entries.
    pub closed spec fn subjects(&self) -> Seq<PackedSubject> {
        self.subject_packed_list@
    }

    /// The user ids.
    pub closed spec fn user_ids(&self) -> Seq<u32> {
        self.user_id_list@
    }

    /// The usernames, position for position with the user ids.
    pub closed spec fn usernames(&self) -> Seq<Seq<char>> {
        texts(self.user_username_list@)
    }

    /// The tag names; a tag's id is its position.
    pub closed spec fn tag_names(&self) -> Seq<Seq<char>> {
        texts(self.tag_name_list@)
    }

    /// The relation matrix, row-major: one row per user, one column per entry.
    pub closed spec fn matrix(&self) -> Seq<u16> {
        self.map_table@
    }

    /// The snapshot's date, as (month, day, year).
    pub closed spec fn date(&self) -> (u8, u8, u16) {
        self.db_date
    }

    /// The invariant of a loaded snapshot.
    pub open spec fn wf(&self) -> bool {
        &&& self.user_ids().len() == self.usernames().len()
        &&& self.matrix().len() == self.user_ids().len() * self.subjects().len()
        &&& strictly_ascending(subject_ids(self.subjects()))
        &&& strictly_ascending(self.user_ids())
        &&& texts_ascending(self.tag_names())
        &&& self.tag_names().len() <= u32::MAX
    }

    /// The relation value of a user for an entry, where both are known.
    pub open spec fn relation(&self, user_id: u32, subject_id: u32) -> Option<u16> {
        match position_of(self.user_ids(), user_id) {
            Some(u) => match position_of(subject_ids(self.subjects()), subject_id) {
                Some(s) => Some(self.matrix()[u * self.subjects().len() + s]),
                None => None,
            },
            None => None,
        }
    }
}

/// Whether the ids are strictly ascending.
fn check_ascending(s: &Vec<u32>) -> (r: bool)
    ensures
        r == strictly_ascending(s@),
{
    let n = s.len();
    if n == 0 {
        return true;
    }
    let mut k: usize = 1;
    while k < n
        invariant
            n == s@.len(),
            1 <= k <= n,
            forall|i: int, j: int| 0 <= i < j < k ==> s@[i] < s@[j],
        decreases n - k,
    {
        if s[k - 1] >= s[k] {
            return false;
        }
        k = k + 1;
    }
    true
}

/// The ids of the entries, in order.
fn ids_of(s: &Vec<PackedSubject>) -> (r: Vec<u32>)
    ensures
        r@ == subject_ids(s@),
{
    let mut r: Vec<u32> = Vec::new();
    let mut k: usize = 0;
    while k < s.len()
        invariant
            k <= s@.len(),
            r@ == subject_ids(s@.take(k as int)),
        decreases s@.len() - k,
    {
        r.push(s[k].subject_id);
        assert(subject_ids(s@.take(k + 1)) =~= subject_ids(s@.take(k as int)).push(
            s@[k as int].subject_id,
        ));
        k = k + 1;
    }
    assert(s@.take(k as int) =~= s@);
    r
}

/// Whether the names are strictly ascending.
fn check_texts_ascending(s: &Vec<String>) -> (r: bool)
    ensures
        r == texts_ascending(texts(s@)),
{
    let ghost t = texts(s@);
    let n = s.len();
    if n == 0 {
        return true;
    }
    let mut prev = chars_of(s[0].as_str());
    let mut k: usize = 1;
    while k < n
        invariant
            n == s@.len(),
            t == texts(s@),
            1 <= k <= n,
            prev@ == t[k - 1],
            forall|i: int, j: int| 0 <= i < j < k ==> lex_lt(t[i], t[j]),
        decreases n - k,
    {
        let cur = chars_of(s[k].as_str());
        if compare_chars(&prev, &cur) >= 0 {
            assert(!texts_ascending(t)) by {
                lemma_lex_total(t[k - 1], t[k as int]);
                if t[k - 1] == t[k as int] {
                    lemma_lex_irreflexive(t[k as int]);
                }
            }
            return false;
        }
        assert forall|i: int, j: int| 0 <= i < j < k + 1 implies lex_lt(t[i], t[j]) by {
            if j == k && i < k - 1 {
                lemma_lex_transitive(t[i], t[k - 1], t[k as int]);
            }
        }
        prev = cur;
        k = k + 1;
    }
    true
}

/// Reads the relation matrix from bytes, two per cell, low byte first.
fn decode_matrix(b: &[u8]) -> (r: Vec<u16>)
    ensures
        r@ == decode_cells(b@),
{
    let len = b.len();
    let n = len / 2;
    let mut r: Vec<u16> = Vec::new();
    let mut k: usize = 0;
    while k < n
        invariant
            len == b@.len(),
            n == len / 2,
            k <= n,
            r@.len() == k,
            forall|i: int| 0 <= i < k ==> r@[i] == decode_cells(b@)[i],
        decreases n - k,
    {
        let lo = b[2 * k] as u16;
        let hi = b[2 * k + 1] as u16;
        r.push(lo + 256 * hi);
        k = k + 1;
    }
    assert(r@ =~= decode_cells(b@));
    r
}

/// The first reason to refuse a snapshot, checks taken in order: user list lengths, matrix
/// size, entry order, user order, tag order, tag count.
pub open spec fn load_failure(
    subjects: Seq<PackedSubject>,
    user_ids: Seq<u32>,
    username_count: nat,
    tag_names: Seq<Seq<char>>,
    matrix_bytes: nat,
) -> Option<LoadError> {
    if user_ids.len() != username_count {
        Some(LoadError::UserListMismatch)
    } else if matrix_bytes != user_ids.len() * subjects.len() * 2 {
        Some(LoadError::MatrixSizeMismatch)
    } else if !strictly_ascending(subject_ids(subjects)) {
        Some(LoadError::SubjectsUnsorted)
    } else if !strictly_ascending(user_ids) {
        Some(LoadError::UsersUnsorted)
    } else if !texts_ascending(tag_names) {
        Some(LoadError::TagsUnsorted)
    } else if tag_names.len() > u32::MAX {
        Some(LoadError::TooManyTags)
    } else {
        None
    }
}

/// The bytes of a relation matrix: each cell as two bytes, low byte first.
pub open spec fn encode_cells(m: Seq<u16>) -> Seq<u8> {
    Seq::new(
        2 * m.len(),
        |i: int|
            if i % 2 == 0 {
                (m[i / 2] % 256) as u8
            } else {
                (m[i / 2] / 256) as u8
            },
    )
}

/// Loading round-trips: tables that keep the snapshot's invariants (user lists of equal
/// length; entries, user ids and tag names strictly ascending; tags countable by a `u32`),
/// with a matrix of `users * entries` cells written two bytes per cell, pass every check, so
/// `DB::from_tables` returns a snapshot holding exactly those tables, whose counts are their
/// lengths and whose matrix reads back cell for cell. With any other number of bytes the same
/// tables are refused, always for the matrix size.
pub proof fn lemma_load_round_trip(
    subjects: Seq<PackedSubject>,
    user_ids: Seq<u32>,
    usernames: Seq<String>,
    tag_names: Seq<String>,
    cells: Seq<u16>,
    other_bytes: Seq<u8>,
)
    requires
        user_ids.len() == usernames.len(),
        strictly_ascending(subject_ids(subjects)),
        strictly_ascending(user_ids),
        texts_ascending(texts(tag_names)),
        tag_names.len() <= u32::MAX,
        cells.len() == user_ids.len() * subjects.len(),
        other_bytes.len() != 2 * cells.len(),
    ensures
        load_failure(
            subjects,
            user_ids,
            usernames.len(),
            texts(tag_names),
            encode_cells(cells).len(),
        ) is None,
        decode_cells(encode_cells(cells)) == cells,
        texts(tag_names).len() == tag_names.len(),
        load_failure(subjects, user_ids, usernames.len(), texts(tag_names), other_bytes.len())
            == Some(LoadError::MatrixSizeMismatch),
{
    let b = encode_cells(cells);
    assert(b.len() == user_ids.len() * subjects.len() * 2) by (nonlinear_arith)
        requires
            b.len() == 2 * cells.len(),
            cells.len() == user_ids.len() * subjects.len(),
    ;
    assert(other_bytes.len() != user_ids.len() * subjects.len() * 2) by (nonlinear_arith)
        requires
            other_bytes.len() != 2 * cells.len(),
            cells.len() == user_ids.len() * subjects.len(),
    ;
    let d = decode_cells(b);
    assert forall|i: int| 0 <= i < cells.len() implies d[i] == cells[i] by {
        assert((2 * i) % 2 == 0);
        assert((2 * i + 1) % 2 == 1);
        assert((2 * i) / 2 == i);
        assert((2 * i + 1) / 2 == i);
        let c = cells[i] as int;
        assert(c % 256 + 256 * (c / 256) == c);
    }
    assert(d =~= cells);
}

/// Where `x` stands in strictly ascending `s`.
fn find_u32(s: &Vec<u32>, x: u32) -> (r: Option<usize>)
    requires
        strictly_ascending(s@),
    ensures
        r == match position_of(s@, x) {
            Some(i) => Some(i as usize),
            None => None::<usize>,
        },
        r matches Some(i) ==> i < s@.len(),
{
    let mut lo: usize = 0;
    let mut hi: usize = s.len();
    while lo < hi
        invariant
            hi <= s@.len(),
            lo <= hi,
            strictly_ascending(s@),
            forall|i: int| 0 <= i < lo ==> s@[i] < x,
            forall|i: int| hi <= i < s@.len() ==> x < s@[i],
        decreases hi - lo,
    {
        let mid = lo + (hi - lo) / 2;
        if s[mid] == x {
            proof {
                lemma_position_unique(s@, x, mid as int);
            }
            return Some(mid);
        } else if s[mid] < x {
            lo = mid + 1;
        } else {
            hi = mid;
        }
    }
    None
}

/// Where the entry with id `id` stands in `s`, sorted by id.
fn find_subject(s: &Vec<PackedSubject>, id: u32) -> (r: Option<usize>)
    requires
        strictly_ascending(subject_ids(s@)),
    ensures
        r == match position_of(subject_ids(s@), id) {
            Some(i) => Some(i as usize),
            None => None::<usize>,
        },
        r matches Some(i) ==> i < s@.len(),
{
    let ghost ids = subject_ids(s@);
    let mut lo: usize = 0;
    let mut hi: usize = s.len();
    while lo < hi
        invariant
            ids == subject_ids(s@),
            hi <= s@.len(),
            lo <= hi,
            strictly_ascending(ids),
            forall|i: int| 0 <= i < lo ==> ids[i] < id,
            forall|i: int| hi <= i < s@.len() ==> id < ids[i],
        decreases hi - lo,
    {
        let mid = lo + (hi - lo) / 2;
        let m = s[mid].subject_id;
        assert(m == ids[mid as int]);
        if m == id {
            proof {
                lemma_position_unique(ids, id, mid as int);
            }
            return Some(mid);
        } else if m < id {
            lo = mid + 1;
        } else {
            hi = mid;
        }
    }
    None
}

impl DB {
    /// Builds the snapshot from its tables and the bytes of its relation matrix, after
    /// checking that they fit together.
    pub fn from_tables(
        db_date: (u8, u8, u16),
        subject_packed_list: Vec<PackedSubject>,
        user_id_list: Vec<u32>,
        user_username_list: Vec<String>,
        tag_name_list: Vec<String>,
        matrix_bytes: &[u8],
    ) -> (r: Result<DB, LoadError>)
        ensures
            match r {
                Ok(db) => {
                    &&& load_failure(
                        subject_packed_list@,
                        user_id_list@,
                        user_username_list@.len(),
                        texts(tag_name_list@),
                        matrix_bytes@.len(),
                    ) is None
                    &&& db.wf()
                    &&& db.date() == db_date
                    &&& db.subjects() == subject_packed_list@
                    &&& db.user_ids() == user_id_list@
                    &&& db.usernames() == texts(user_username_list@)
                    &&& db.tag_names() == texts(tag_name_list@)
                    &&& db.matrix() == decode_cells(matrix_bytes@)
                },
                Err(e) => load_failure(
                    subject_packed_list@,
                    user_id_list@,
                    user_username_list@.len(),
                    texts(tag_name_list@),
                    matrix_bytes@.len(),
                ) == Some(e),
            },
    {
        if user_id_list.len() != user_username_list.len() {
            return Err(LoadError::UserListMismatch);
        }
        let n_user = user_id_list.len();
        let n_subject = subject_packed_list.len();
        proof {
            assert(n_user * n_subject <= 0xffff_ffff_ffff_ffff * 0xffff_ffff_ffff_ffffnat)
                by (nonlinear_arith)
                requires
                    n_user <= 0xffff_ffff_ffff_ffffnat,
                    n_subject <= 0xffff_ffff_ffff_ffffnat,
            ;
        }
        let cells: u128 = (n_user as u128) * (n_subject as u128);
        let n_bytes = matrix_bytes.len();
        if n_bytes % 2 != 0 || (n_bytes / 2) as u128 != cells {
            return Err(LoadError::MatrixSizeMismatch);
        }
        let ids = ids_of(&subject_packed_list);
        if !check_ascending(&ids) {
            return Err(LoadError::SubjectsUnsorted);
        }
        if !check_ascending(&user_id_list) {
            return Err(LoadError::UsersUnsorted);
        }
        if !check_texts_ascending(&tag_name_list) {
            return Err(LoadError::TagsUnsorted);
        }
        if tag_name_list.len() > 0xffff_ffff {
            return Err(LoadError::TooManyTags);
        }
        let map_table = decode_matrix(matrix_bytes);
        assert(map_table@.len() == user_id_list@.len() * subject_packed_list@.len());
        Ok(
            DB {
                db_date,
                subject_packed_list,
                user_id_list,
                user_username_list,
                tag_name_list,
                map_table,
            },
        )
    }

    /// The snapshot's date, as (month, day, year).
    pub fn db_date(&self) -> (r: (u8, u8, u16))
        ensures
            r == self.date(),
    {
        self.db_date
    }

    /// The number of entries.
    pub fn subject_count(&self) -> (r: usize)
        ensures
            r == self.subjects().len(),
    {
        self.subject_packed_list.len()
    }

    /// The number of users.
    pub fn user_count(&self) -> (r: usize)
        ensures
            r == self.user_ids().len(),
    {
        self.user_id_list.len()
    }

    /// The number of tags.
    pub fn tag_count(&self) -> (r: usize)
        ensures
            r == self.tag_names().len(),
    {
        self.tag_name_list.len()
    }

    /// The entries in id order; each call gives a fresh list from the start.
    pub fn subject_iter(&self) -> (r: Vec<&PackedSubject>)
        ensures
            r@.len() == self.subjects().len(),
            forall|i: int| 0 <= i < r@.len() ==> *r@[i] == self.subjects()[i],
    {
        let mut r: Vec<&PackedSubject> = Vec::new();
        let mut k: usize = 0;
        while k < self.subject_packed_list.len()
            invariant
                k <= self.subjects().len(),
                r@.len() == k,
                forall|i: int| 0 <= i < k ==> *r@[i] == self.subjects()[i],
            decreases self.subjects().len() - k,
        {
            r.push(&self.subject_packed_list[k]);
            k = k + 1;
        }
        r
    }

    /// The id of the first user whose username equals `username` ignoring case; a linear
    /// scan, as usernames are in no particular order.
    pub fn get_user_id_by_username(&self, username: &str) -> (r: Option<u32>)
        requires
            self.wf(),
        ensures
            r == match first_username(self.usernames(), username@) {
                Some(i) => Some(self.user_ids()[i]),
                None => None::<u32>,
            },
    {
        let ghost names = self.usernames();
        let wanted = lowercase(username);
        let mut k: usize = 0;
        while k < self.user_username_list.len()
            invariant
                names == self.usernames(),
                self.wf(),
                wanted@ == lower_of(username@),
                k <= names.len(),
                forall|i: int| 0 <= i < k ==> lower_of(names[i]) != lower_of(username@),
            decreases names.len() - k,
        {
            let lowered = lowercase(self.user_username_list[k].as_str());
            if lowered == wanted {
                proof {
                    let i = k as int;
                    assert(lower_of(names[i]) == lower_of(username@));
                    let c = choose|c: int|
                        0 <= c < names.len() && lower_of(names[c]) == lower_of(username@)
                            && forall|t: int| 0 <= t < c ==> lower_of(names[t]) != lower_of(username@);
                    assert(c == i);
                }
                return Some(self.user_id_list[k]);
            }
            k = k + 1;
        }
        None
    }

    /// The relation value of user `user_id` for entry `subject_id`, found by binary search
    /// on the user ids and on the entry ids.
    pub fn get_user_subject_relation(&self, user_id: u32, subject_id: u32) -> (r: Option<u16>)
        requires
            self.wf(),
        ensures
            r == self.relation(user_id, subject_id),
    {
        match find_u32(&self.user_id_list, user_id) {
            Some(i_user) => {
                match find_subject(&self.subject_packed_list, subject_id) {
                    Some(i_subject) => {
                        let n_subject = self.subject_packed_list.len();
                        let n_user = self.user_id_list.len();
                        let n_cells = self.map_table.len();
                        proof {
                            assert(i_user * n_subject + i_subject < n_user * n_subject)
                                by (nonlinear_arith)
                                requires
                                    i_user < n_user,
                                    i_subject < n_subject,
                            ;
                        }
                        Some(self.map_table[i_user * n_subject + i_subject])
                    },
                    None => None,
                }
            },
            None => None,
        }
    }

    /// The id of the tag named `name`, by binary search on the sorted tag names.
    pub fn get_tag_id_by_name(&self, name: &str) -> (r: Option<u32>)
        requires
            self.wf(),
        ensures
            r == match text_position(self.tag_names(), name@) {
                Some(i) => Some(i as u32),
                None => None::<u32>,
            },
    {
        let ghost t = self.tag_names();
        let wanted = chars_of(name);
        let mut lo: usize = 0;
        let mut hi: usize = self.tag_name_list.len();
        while lo < hi
            invariant
                t == self.tag_names(),
                self.wf(),
                wanted@ == name@,
                lo <= hi <= t.len(),
                forall|i: int| 0 <= i < lo ==> lex_lt(t[i], name@),
                forall|i: int| hi <= i < t.len() ==> lex_lt(name@, t[i]),
            decreases hi - lo,
        {
            let mid = lo + (hi - lo) / 2;
            let probe = chars_of(self.tag_name_list[mid].as_str());
            let c = compare_chars(&probe, &wanted);
            if c == 0 {
                proof {
                    lemma_text_position_unique(t, name@, mid as int);
                }
                return Some(mid as u32);
            } else if c < 0 {
                proof {
                    assert forall|i: int| 0 <= i < mid + 1 implies lex_lt(t[i], name@) by {
                        if i < mid {
                            lemma_lex_transitive(t[i], t[mid as int], name@);
                        }
                    }
                }
                lo = mid + 1;
            } else {
                proof {
                    assert forall|i: int| mid <= i < t.len() implies lex_lt(name@, t[i]) by {
                        if i > mid {
                            lemma_lex_transitive(name@, t[mid as int], t[i]);
                        }
                    }
                }
                hi = mid;
            }
        }
        proof {
            if exists|i: int| 0 <= i < t.len() && t[i] == name@ {
                let i = choose|i: int| 0 <= i < t.len() && t[i] == name@;
                lemma_lex_irreflexive(name@);
                if i < lo {
                    assert(lex_lt(t[i], name@));
                } else {
                    assert(lex_lt(name@, t[i]));
                }
            }
        }
        None
    }
}

/// The relation value of a result when no user was asked for.
pub const NO_RELATION: u16 = 65535;

/// An entry that a search admitted, with its keyword relevance and its relation value.
/// Relevance is in units of `SIMILARITY_UNIT`.
#[derive(Clone, Copy)]
pub struct SearchResult<'a> {
    pub subject: &'a PackedSubject,
    pub keyword_relative: i64,
    pub user_recommend: u16,
}

/// What a search result says: the entry, its relevance and its relation value.
pub open spec fn result_view(r: SearchResult) -> (PackedSubject, int, u16) {
    (*r.subject, r.keyword_relative as int, r.user_recommend)
}

/// The entry carries tag `id`.
pub open spec fn has_tag(tags: Seq<(u32, u32)>, id: u32) -> bool {
    exists|i: int| 0 <= i < tags.len() && (#[trigger] tags[i]).0 == id
}

/// The entry meets one tag criterion.
pub open spec fn tag_holds(c: Relation<u32>, s: PackedSubject) -> bool {
    match c {
        Relation::Include(id) => has_tag(s.tag_list@, id),
        Relation::Exclude(id) => !has_tag(s.tag_list@, id),
    }
}

/// The entry meets the adult-flag, tag, year, rank and rating-count criteria.
pub open spec fn passes_filters(t: SearchTicket, s: PackedSubject) -> bool {
    &&& (t.r18 matches Some(f) ==> f == s.is_r18)
    &&& forall|i: int| 0 <= i < t.tag_list@.len() ==> tag_holds(#[trigger] t.tag_list@[i], s)
    &&& (t.year_list@.len() == 0 || in_any_range(t.year_list@, s.air_y as u32))
    &&& in_range(t.rank, s.rank)
    &&& in_range(t.rating_count, s.rating_count)
}

/// Keyword `x` occurs in one of the entry's titles, ignoring case (all lowered).
pub open spec fn title_hit(x: Seq<char>, s: PackedSubject) -> bool {
    occurs_in(lower_of(x), lower_of(s.name_cn@)) || occurs_in(lower_of(x), lower_of(s.name@))
}

/// What a partial keyword is worth against an entry: one unit when it occurs in a title, plus
/// its better similarity to the two titles.
pub open spec fn partial_gain(x: Seq<char>, s: PackedSubject) -> int {
    (if title_hit(x, s) {
        SIMILARITY_UNIT as int
    } else {
        0
    }) + (if similarity(x, s.name_cn@) >= similarity(x, s.name@) {
        similarity(x, s.name_cn@)
    } else {
        similarity(x, s.name@)
    })
}

/// An exact keyword that rules the entry out.
pub open spec fn keyword_rejects(k: SearchMode<Relation<String>>, s: PackedSubject) -> bool {
    match k {
        SearchMode::ExactMatch(Relation::Include(x)) => !title_hit(x@, s),
        SearchMode::ExactMatch(Relation::Exclude(x)) => title_hit(x@, s),
        SearchMode::PartialMatch(_) => false,
    }
}

/// What one keyword adds to the relevance: partial keywords add or take away their gain,
/// exact ones nothing.
pub open spec fn keyword_gain(k: SearchMode<Relation<String>>, s: PackedSubject) -> int {
    match k {
        SearchMode::PartialMatch(Relation::Include(x)) => partial_gain(x@, s),
        SearchMode::PartialMatch(Relation::Exclude(x)) => -partial_gain(x@, s),
        SearchMode::ExactMatch(_) => 0,
    }
}

/// The sum of the keywords' gains.
pub open spec fn keyword_sum(l: Seq<SearchMode<Relation<String>>>, s: PackedSubject) -> int
    decreases l.len(),
{
    if l.len() == 0 {
        0
    } else {
        keyword_sum(l.drop_last(), s) + keyword_gain(l.last(), s)
    }
}

/// Division rounded toward zero.
pub open spec fn div_toward_zero(a: int, n: int) -> int {
    if a >= 0 {
        a / n
    } else {
        -((-a) / n)
    }
}

/// The mean gain of the keywords; zero without keywords.
pub open spec fn keyword_relevance(l: Seq<SearchMode<Relation<String>>>, s: PackedSubject) -> int {
    if l.len() == 0 {
        0
    } else {
        div_toward_zero(keyword_sum(l, s), l.len() as int)
    }
}

/// Some keyword rules the entry out.
pub open spec fn keywords_reject(l: Seq<SearchMode<Relation<String>>>, s: PackedSubject) -> bool {
    exists|i: int| 0 <= i < l.len() && keyword_rejects(#[trigger] l[i], s)
}

proof fn lemma_gain_bounded(k: SearchMode<Relation<String>>, s: PackedSubject)
    ensures
        -2 * SIMILARITY_UNIT <= keyword_gain(k, s) <= 2 * SIMILARITY_UNIT,
{
    match k {
        SearchMode::PartialMatch(Relation::Include(x)) => {
            lemma_similarity_laws(x@, s.name_cn@);
            lemma_similarity_laws(x@, s.name@);
        },
        SearchMode::PartialMatch(Relation::Exclude(x)) => {
            lemma_similarity_laws(x@, s.name_cn@);
            lemma_similarity_laws(x@, s.name@);
        },
        _ => {},
    }
}

proof fn lemma_mean_bounded(a: int, n: int)
    requires
        n > 0,
        -(2 * SIMILARITY_UNIT * n) <= a <= 2 * SIMILARITY_UNIT * n,
    ensures
        -2 * SIMILARITY_UNIT <= div_toward_zero(a, n) <= 2 * SIMILARITY_UNIT,
{
    let m = 2 * SIMILARITY_UNIT;
    let b = if a >= 0 {
        a
    } else {
        -a
    };
    assert(0 <= b <= m * n);
    assert(b / n <= m) by (nonlinear_arith)
        requires
            n > 0,
            0 <= b <= m * n,
    ;
    assert(b / n >= 0) by (nonlinear_arith)
        requires
            n > 0,
            0 <= b,
    ;
}

/// Whether the entry carries tag `id`.
fn carries_tag(tags: &Vec<(u32, u32)>, id: u32) -> (r: bool)
    ensures
        r == has_tag(tags@, id),
{
    let mut k: usize = 0;
    while k < tags.len()
        invariant
            k <= tags@.len(),
            forall|i: int| 0 <= i < k ==> (#[trigger] tags@[i]).0 != id,
        decreases tags@.len() - k,
    {
        if tags[k].0 == id {
            return true;
        }
        k = k + 1;
    }
    false
}

/// Whether the entry meets the adult-flag, tag, year, rank and rating-count criteria.
fn check_filters(t: &SearchTicket, s: &PackedSubject) -> (r: bool)
    ensures
        r == passes_filters(*t, *s),
{
    match t.r18 {
        Some(x) => {
            if x != s.is_r18 {
                return false;
            }
        },
        None => {},
    }
    let mut k: usize = 0;
    while k < t.tag_list.len()
        invariant
            k <= t.tag_list@.len(),
            t.r18 matches Some(f) ==> f == s.is_r18,
            forall|i: int| 0 <= i < k ==> tag_holds(#[trigger] t.tag_list@[i], *s),
        decreases t.tag_list@.len() - k,
    {
        let ok = match &t.tag_list[k] {
            Relation::Include(x) => carries_tag(&s.tag_list, *x),
            Relation::Exclude(x) => !carries_tag(&s.tag_list, *x),
        };
        if !ok {
            return false;
        }
        k = k + 1;
    }
    if !(t.year_list.len() == 0 || t.year_list.range_contains(s.air_y as u32)) {
        return false;
    }
    t.rank.contains(s.rank) && t.rating_count.contains(s.rating_count)
}

/// The keyword relevance of an entry, or `None` where an exact keyword rules it out.
fn keyword_outcome(l: &Vec<SearchMode<Relation<String>>>, s: &PackedSubject) -> (r: Option<i64>)
    ensures
        r == (if keywords_reject(l@, *s) {
            None::<i64>
        } else {
            Some(keyword_relevance(l@, *s) as i64)
        }),
        r matches Some(v) ==> v == keyword_relevance(l@, *s),
{
    let n = l.len();
    if n == 0 {
        return Some(0);
    }
    let name_chars = chars_of(s.name.as_str());
    let name_cn_chars = chars_of(s.name_cn.as_str());
    let mut sum: i128 = 0;
    let mut k: usize = 0;
    while k < n
        invariant
            n == l@.len(),
            k <= n,
            name_chars@ == s.name@,
            name_cn_chars@ == s.name_cn@,
            name_chars@.len() <= isize::MAX,
            name_cn_chars@.len() <= isize::MAX,
            sum == keyword_sum(l@.take(k as int), *s),
            -(2 * SIMILARITY_UNIT * k) <= sum <= 2 * SIMILARITY_UNIT * k,
            forall|i: int| 0 <= i < k ==> !keyword_rejects(#[trigger] l@[i], *s),
        decreases n - k,
    {
        proof {
            assert(l@.take(k + 1).drop_last() =~= l@.take(k as int));
            lemma_gain_bounded(l@[k as int], *s);
            assert(2 * SIMILARITY_UNIT * (k + 1) == 2 * SIMILARITY_UNIT * k + 2 * SIMILARITY_UNIT)
                by (nonlinear_arith);
            assert(2 * SIMILARITY_UNIT * k <= 2 * SIMILARITY_UNIT * 0xffff_ffff_ffff_ffffnat)
                by (nonlinear_arith)
                requires
                    k <= 0xffff_ffff_ffff_ffffnat,
            ;
        }
        match &l[k] {
            SearchMode::ExactMatch(Relation::Include(x)) => {
                if !(match_keyword_exact(x.as_str(), s.name_cn.as_str()) || match_keyword_exact(
                    x.as_str(),
                    s.name.as_str(),
                )) {
                    return None;
                }
            },
            SearchMode::ExactMatch(Relation::Exclude(x)) => {
                if match_keyword_exact(x.as_str(), s.name_cn.as_str()) || match_keyword_exact(
                    x.as_str(),
                    s.name.as_str(),
                ) {
                    return None;
                }
            },
            SearchMode::PartialMatch(Relation::Include(x)) => {
                let gain = partial_gain_of(x, s, &name_chars, &name_cn_chars);
                sum = sum + gain as i128;
            },
            SearchMode::PartialMatch(Relation::Exclude(x)) => {
                let gain = partial_gain_of(x, s, &name_chars, &name_cn_chars);
                sum = sum - gain as i128;
            },
        }
        k = k + 1;
    }
    proof {
        assert(l@.take(n as int) =~= l@);
        lemma_mean_bounded(sum as int, n as int);
    }
    let mean: i128 = if sum >= 0 {
        ((sum as u128) / (n as u128)) as i128
    } else {
        -((((-sum) as u128) / (n as u128)) as i128)
    };
    Some(mean as i64)
}

/// What partial keyword `x` is worth against the entry.
fn partial_gain_of(
    x: &String,
    s: &PackedSubject,
    name_chars: &Vec<char>,
    name_cn_chars: &Vec<char>,
) -> (r: u64)
    requires
        name_chars@ == s.name@,
        name_cn_chars@ == s.name_cn@,
        name_chars@.len() <= isize::MAX,
        name_cn_chars@.len() <= isize::MAX,
    ensures
        r == partial_gain(x@, *s),
        r <= 2 * SIMILARITY_UNIT,
{
    let hit = match_keyword_exact(x.as_str(), s.name_cn.as_str()) || match_keyword_exact(
        x.as_str(),
        s.name.as_str(),
    );
    let cache = chars_of(x.as_str());
    let a = match_keyword_partial(cache.as_slice(), name_cn_chars.as_slice());
    let b = match_keyword_partial(cache.as_slice(), name_chars.as_slice());
    let best = if a >= b {
        a
    } else {
        b
    };
    if hit {
        SIMILARITY_UNIT + best
    } else {
        best
    }
}

impl DB {
    /// The relation value a search puts on the entry: the user's, where a user was asked for
    /// and is known with the entry; otherwise `NO_RELATION`.
    pub open spec fn user_value(&self, t: SearchTicket, s: PackedSubject) -> Option<u16> {
        match t.for_user {
            Some(u) => self.relation(u, s.subject_id),
            None => Some(NO_RELATION),
        }
    }

    /// What a search makes of one entry: `None` where it is ruled out, else its relevance
    /// and relation value.
    pub open spec fn outcome(&self, t: SearchTicket, s: PackedSubject) -> Option<(int, u16)> {
        if !passes_filters(t, s) {
            None
        } else {
            match self.user_value(t, s) {
                None => None,
                Some(v) => if keywords_reject(t.keyword_list@, s) {
                    None
                } else {
                    Some((keyword_relevance(t.keyword_list@, s), v))
                },
            }
        }
    }

    /// The results of a search over the first `n` entries, in catalog order.
    pub open spec fn search_upto(&self, t: SearchTicket, n: int) -> Seq<(PackedSubject, int, u16)>
        decreases n,
    {
        if n <= 0 {
            seq![]
        } else {
            let prev = self.search_upto(t, n - 1);
            let s = self.subjects()[n - 1];
            match self.outcome(t, s) {
                Some(o) => prev.push((s, o.0, o.1)),
                None => prev,
            }
        }
    }

    /// The results of a search over the whole catalog, in catalog order.
    pub open spec fn search_spec(&self, t: SearchTicket) -> Seq<(PackedSubject, int, u16)> {
        self.search_upto(t, self.subjects().len() as int)
    }

    /// Runs a search: every entry that meets all criteria, in catalog order, with its keyword
    /// relevance and its relation value.
    pub fn search_by_ticket<'a>(&'a self, ticket: &SearchTicket) -> (r: Vec<SearchResult<'a>>)
        requires
            self.wf(),
        ensures
            r@.len() == self.search_spec(*ticket).len(),
            forall|i: int| 0 <= i < r@.len() ==> result_view(#[trigger] r@[i]) == self.search_spec(*ticket)[i],
    {
        let mut r: Vec<SearchResult<'a>> = Vec::new();
        let n = self.subject_packed_list.len();
        let mut k: usize = 0;
        while k < n
            invariant
                self.wf(),
                n == self.subjects().len(),
                k <= n,
                r@.len() == self.search_upto(*ticket, k as int).len(),
                forall|i: int| 0 <= i < r@.len() ==> result_view(#[trigger] r@[i]) == self.search_upto(*ticket, k as int)[i],
            decreases n - k,
        {
            let subject = &self.subject_packed_list[k];
            if check_filters(ticket, subject) {
                let relation = match ticket.for_user {
                    Some(user_id) => self.get_user_subject_relation(user_id, subject.subject_id),
                    None => Some(NO_RELATION),
                };
                match relation {
                    Some(user_recommend) => {
                        match keyword_outcome(&ticket.keyword_list, subject) {
                            Some(keyword_relative) => {
                                r.push(SearchResult { subject, keyword_relative, user_recommend });
                            },
                            None => {},
                        }
                    },
                    None => {},
                }
            }
            k = k + 1;
        }
        r
    }
}

proof fn lemma_search_upto_admitted(db: &DB, t: SearchTicket, n: int)
    requires
        n <= db.subjects().len(),
    ensures
        forall|i: int|
            0 <= i < db.search_upto(t, n).len() ==> {
                let e = #[trigger] db.search_upto(t, n)[i];
                &&& db.outcome(t, e.0) == Some((e.1, e.2))
                &&& exists|j: int| 0 <= j < n && j < db.subjects().len() && db.subjects()[j] == e.0
            },
    decreases n,
{
    if n > 0 {
        lemma_search_upto_admitted(db, t, n - 1);
        let prev = db.search_upto(t, n - 1);
        assert forall|i: int| 0 <= i < db.search_upto(t, n).len() implies {
            let e = #[trigger] db.search_upto(t, n)[i];
            &&& db.outcome(t, e.0) == Some((e.1, e.2))
            &&& exists|j: int| 0 <= j < n && j < db.subjects().len() && db.subjects()[j] == e.0
        } by {
            if i < prev.len() {
                assert(db.search_upto(t, n)[i] == prev[i]);
                let j = choose|j: int|
                    0 <= j < n - 1 && j < db.subjects().len() && db.subjects()[j] == prev[i].0;
                assert(0 <= j < n);
            } else {
                assert(db.subjects()[n - 1] == db.search_upto(t, n)[i].0);
            }
        }
    }
}

/// Every result of a search is an entry of the catalog that meets each criterion of the
/// request: adult flag, tags, years, rank, rating count, the requested user's relation (which
/// it carries) and the exact keywords; and it carries its keyword relevance.
pub proof fn lemma_search_respects_criteria(db: &DB, t: SearchTicket, i: int)
    requires
        db.wf(),
        0 <= i < db.search_spec(t).len(),
    ensures
        ({
            let e = db.search_spec(t)[i];
            &&& exists|j: int| 0 <= j < db.subjects().len() && db.subjects()[j] == e.0
            &&& passes_filters(t, e.0)
            &&& (t.r18 matches Some(f) ==> f == e.0.is_r18)
            &&& forall|k: int|
                0 <= k < t.tag_list@.len() ==> tag_holds(#[trigger] t.tag_list@[k], e.0)
            &&& (t.year_list@.len() == 0 || in_any_range(t.year_list@, e.0.air_y as u32))
            &&& in_range(t.rank, e.0.rank)
            &&& in_range(t.rating_count, e.0.rating_count)
            &&& match t.for_user {
                Some(u) => db.relation(u, e.0.subject_id) == Some(e.2),
                None => e.2 == NO_RELATION,
            }
            &&& !keywords_reject(t.keyword_list@, e.0)
            &&& e.1 == keyword_relevance(t.keyword_list@, e.0)
        }),
{
    lemma_search_upto_admitted(db, t, db.subjects().len() as int);
    let e = db.search_spec(t)[i];
    assert(db.outcome(t, e.0) == Some((e.1, e.2)));
}

/// A partial keyword that equals an entry's title ignoring case is worth at least one unit; an
/// exact keyword to exclude that occurs in either title, ignoring case, rules the entry out of any
/// search, whatever else the request holds.
pub proof fn lemma_keyword_rules(db: &DB, t: SearchTicket, s: PackedSubject, x: String, k: int)
    requires
        0 <= k < t.keyword_list@.len(),
    ensures
        lower_of(x@) == lower_of(s.name@) || lower_of(x@) == lower_of(s.name_cn@) ==> partial_gain(x@, s)
            >= SIMILARITY_UNIT,
        t.keyword_list@[k] == SearchMode::ExactMatch(Relation::Exclude(x)) && title_hit(x@, s)
            ==> db.outcome(t, s) is None,
{
    if lower_of(x@) == lower_of(s.name@) {
        assert(lower_of(s.name@).subrange(0int, 0int + lower_of(x@).len()) =~= lower_of(x@));
    }
    if lower_of(x@) == lower_of(s.name_cn@) {
        assert(lower_of(s.name_cn@).subrange(0int, 0int + lower_of(x@).len()) =~= lower_of(x@));
    }
    if t.keyword_list@[k] == SearchMode::ExactMatch(Relation::Exclude(x)) && title_hit(x@, s) {
        assert(keyword_rejects(t.keyword_list@[k], s));
    }
}

} // verus!
