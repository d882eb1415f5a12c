use hako_search::db::{LoadError, PackedSubject, PackedSubjectSubtype, SearchResult, DB, NO_RELATION};
use hako_search::sort::{score_mapper, sort_result, sort_result_unsearched};
use hako_search::ticket::{Relation, SearchMode, SearchRange, SearchTicket, SortMode};

fn subject(id: u32, name: &str, name_cn: &str, score: u32, rating_count: u32, year: u16) -> PackedSubject {
    PackedSubject {
        subject_id: id,
        rank: id * 10,
        name: name.to_string(),
        name_cn: name_cn.to_string(),
        image_partial_url: String::new(),
        tag_list: Vec::new(),
        score,
        rating_count,
        air_y: year,
        air_m: 4,
        air_d: 1,
        sub_type: PackedSubjectSubtype::TV,
        is_r18: false,
    }
}

fn cells(v: &[u16]) -> Vec<u8> {
    v.iter().flat_map(|c| c.to_le_bytes()).collect()
}

fn empty_ticket() -> SearchTicket {
    SearchTicket {
        keyword_list: Vec::new(),
        tag_list: Vec::new(),
        year_list: Vec::new(),
        rank: SearchRange::RangeFull,
        rating_count: SearchRange::RangeFull,
        r18: None,
        for_user: None,
    }
}

fn sample_db() -> DB {
    let mut a = subject(1, "Cowboy Bebop", "星际牛仔", 880, 300, 1998);
    a.tag_list = vec![(0, 100), (2, 50)];
    let mut b = subject(2, "Serial Experiments Lain", "", 820, 80, 1998);
    b.tag_list = vec![(1, 100)];
    b.is_r18 = false;
    let mut c = subject(3, "Some Adult Show", "", 500, 20, 2016);
    c.is_r18 = true;
    c.tag_list = vec![(0, 10)];
    DB::from_tables(
        (10, 19, 2026),
        vec![a, b, c],
        vec![7, 9],
        vec!["Alice".to_string(), "Bob".to_string()],
        vec!["action".to_string(), "cyberpunk".to_string(), "space".to_string()],
        &cells(&[1, 2, 3, 4, 5, 6]),
    )
    .unwrap()
}

#[test]
fn relation_lookup_in_three_by_two_matrix() {
    let db = DB::from_tables(
        (1, 1, 2020),
        vec![subject(100, "a", "", 0, 0, 2000), subject(200, "b", "", 0, 0, 2000)],
        vec![11, 22, 33],
        vec!["u1".to_string(), "u2".to_string(), "u3".to_string()],
        Vec::new(),
        &cells(&[5, 10, 15, 20, 25, 30]),
    )
    .unwrap();
    // row-major: user at index 1, entry at index 0 is cell 1 * 2 + 0
    assert_eq!(db.get_user_subject_relation(22, 100), Some(15));
    assert_eq!(db.get_user_subject_relation(22, 200), Some(20));
    assert_eq!(db.get_user_subject_relation(11, 200), Some(10));
    assert_eq!(db.get_user_subject_relation(33, 200), Some(30));
    assert_eq!(db.get_user_subject_relation(44, 100), None);
    assert_eq!(db.get_user_subject_relation(22, 150), None);
}

#[test]
fn counts_match_the_loaded_tables() {
    let db = sample_db();
    assert_eq!(db.subject_count(), 3);
    assert_eq!(db.user_count(), 2);
    assert_eq!(db.tag_count(), 3);
    assert_eq!(db.db_date(), (10, 19, 2026));
    let ids: Vec<u32> = db.subject_iter().iter().map(|s| s.subject_id).collect();
    assert_eq!(ids, vec![1, 2, 3]);
}

#[test]
fn load_refuses_user_lists_of_different_lengths() {
    let r = DB::from_tables((1, 1, 2020), Vec::new(), vec![1, 2], vec!["a".to_string()], Vec::new(), &[]);
    assert_eq!(r.err(), Some(LoadError::UserListMismatch));
}

#[test]
fn load_refuses_matrix_of_wrong_length() {
    let r = DB::from_tables(
        (1, 1, 2020),
        vec![subject(1, "a", "", 0, 0, 2000)],
        vec![1, 2],
        vec!["a".to_string(), "b".to_string()],
        Vec::new(),
        &cells(&[1, 2, 3]),
    );
    assert_eq!(r.err(), Some(LoadError::MatrixSizeMismatch));
    let odd = DB::from_tables(
        (1, 1, 2020),
        vec![subject(1, "a", "", 0, 0, 2000)],
        vec![1],
        vec!["a".to_string()],
        Vec::new(),
        &[1, 0, 0],
    );
    assert_eq!(odd.err(), Some(LoadError::MatrixSizeMismatch));
}

#[test]
fn load_refuses_unsorted_tables() {
    let r = DB::from_tables(
        (1, 1, 2020),
        vec![subject(2, "a", "", 0, 0, 2000), subject(1, "b", "", 0, 0, 2000)],
        Vec::new(),
        Vec::new(),
        Vec::new(),
        &[],
    );
    assert_eq!(r.err(), Some(LoadError::SubjectsUnsorted));
    let r = DB::from_tables((1, 1, 2020), Vec::new(), vec![5, 5], vec!["a".to_string(), "b".to_string()], Vec::new(), &[]);
    assert_eq!(r.err(), Some(LoadError::UsersUnsorted));
    let r = DB::from_tables(
        (1, 1, 2020),
        Vec::new(),
        Vec::new(),
        Vec::new(),
        vec!["b".to_string(), "a".to_string()],
        &[],
    );
    assert_eq!(r.err(), Some(LoadError::TagsUnsorted));
}

#[test]
fn username_lookup_ignores_case_of_stored_name() {
    let db = sample_db();
    assert_eq!(db.get_user_id_by_username("alice"), Some(7));
    assert_eq!(db.get_user_id_by_username("bob"), Some(9));
    assert_eq!(db.get_user_id_by_username("ALICE"), Some(7));
    assert_eq!(db.get_user_id_by_username("BoB"), Some(9));
    assert_eq!(db.get_user_id_by_username("carol"), None);
}

#[test]
fn tag_lookup_by_binary_search() {
    let db = sample_db();
    assert_eq!(db.get_tag_id_by_name("action"), Some(0));
    assert_eq!(db.get_tag_id_by_name("cyberpunk"), Some(1));
    assert_eq!(db.get_tag_id_by_name("space"), Some(2));
    assert_eq!(db.get_tag_id_by_name("mecha"), None);
}

fn ids(r: &[SearchResult]) -> Vec<u32> {
    r.iter().map(|x| x.subject.subject_id).collect()
}

#[test]
fn empty_request_admits_everything_without_relation() {
    let db = sample_db();
    let r = db.search_by_ticket(&empty_ticket());
    assert_eq!(ids(&r), vec![1, 2, 3]);
    assert!(r.iter().all(|x| x.user_recommend == NO_RELATION && x.keyword_relative == 0));
}

#[test]
fn adult_flag_filter() {
    let db = sample_db();
    let mut t = empty_ticket();
    t.r18 = Some(true);
    assert_eq!(ids(&db.search_by_ticket(&t)), vec![3]);
    t.r18 = Some(false);
    assert_eq!(ids(&db.search_by_ticket(&t)), vec![1, 2]);
}

#[test]
fn tag_filters_include_and_exclude() {
    let db = sample_db();
    let mut t = empty_ticket();
    t.tag_list = vec![Relation::Include(0)];
    assert_eq!(ids(&db.search_by_ticket(&t)), vec![1, 3]);
    t.tag_list = vec![Relation::Include(0), Relation::Exclude(2)];
    assert_eq!(ids(&db.search_by_ticket(&t)), vec![3]);
    t.tag_list = vec![Relation::Include(u32::MAX)];
    assert_eq!(ids(&db.search_by_ticket(&t)), Vec::<u32>::new());
}

#[test]
fn year_ranges_are_joined_by_or() {
    let db = sample_db();
    let mut t = empty_ticket();
    t.year_list = vec![SearchRange::RangeTo(2000)];
    assert_eq!(ids(&db.search_by_ticket(&t)), vec![1, 2]);
    t.year_list = vec![SearchRange::RangeTo(1990), SearchRange::RangeFrom(2015)];
    assert_eq!(ids(&db.search_by_ticket(&t)), vec![3]);
}

#[test]
fn rank_and_rating_count_ranges() {
    let db = sample_db();
    let mut t = empty_ticket();
    t.rank = SearchRange::Range(10, 30);
    assert_eq!(ids(&db.search_by_ticket(&t)), vec![1, 2]);
    t.rating_count = SearchRange::RangeFrom(100);
    assert_eq!(ids(&db.search_by_ticket(&t)), vec![1]);
}

#[test]
fn user_filter_carries_relation() {
    let db = sample_db();
    let mut t = empty_ticket();
    t.for_user = Some(9);
    let r = db.search_by_ticket(&t);
    assert_eq!(ids(&r), vec![1, 2, 3]);
    assert_eq!(r.iter().map(|x| x.user_recommend).collect::<Vec<_>>(), vec![4, 5, 6]);
    t.for_user = Some(8);
    assert!(db.search_by_ticket(&t).is_empty());
}

#[test]
fn exact_keywords_include_and_exclude() {
    let db = sample_db();
    let mut t = empty_ticket();
    t.keyword_list = vec![SearchMode::ExactMatch(Relation::Include("bebop".to_string()))];
    assert_eq!(ids(&db.search_by_ticket(&t)), vec![1]);
    t.keyword_list = vec![SearchMode::ExactMatch(Relation::Exclude("星际".to_string()))];
    assert_eq!(ids(&db.search_by_ticket(&t)), vec![2, 3]);
    t.keyword_list = vec![SearchMode::ExactMatch(Relation::Include("BEBOP".to_string()))];
    assert_eq!(ids(&db.search_by_ticket(&t)), vec![1]);
    t.keyword_list = vec![SearchMode::ExactMatch(Relation::Exclude("LAIN".to_string()))];
    assert_eq!(ids(&db.search_by_ticket(&t)), vec![1, 3]);
}

#[test]
fn exact_exclusion_removes_rather_than_penalizes() {
    let db = sample_db();
    let mut t = empty_ticket();
    t.keyword_list = vec![
        SearchMode::PartialMatch(Relation::Include("cowboy bebop".to_string())),
        SearchMode::ExactMatch(Relation::Exclude("cowboy".to_string())),
    ];
    assert_eq!(ids(&db.search_by_ticket(&t)), vec![2, 3]);
}

#[test]
fn partial_keyword_equal_to_title_scores_at_least_one() {
    let db = DB::from_tables(
        (1, 1, 2020),
        vec![subject(1, "lain", "", 0, 0, 2000)],
        Vec::new(),
        Vec::new(),
        Vec::new(),
        &[],
    )
    .unwrap();
    let mut t = empty_ticket();
    t.keyword_list = vec![SearchMode::PartialMatch(Relation::Include("lain".to_string()))];
    let r = db.search_by_ticket(&t);
    assert_eq!(r.len(), 1);
    // one for the exact hit, one for the similarity of the original title
    assert_eq!(r[0].keyword_relative, 2_000_000);
    t.keyword_list = vec![SearchMode::PartialMatch(Relation::Exclude("lain".to_string()))];
    assert_eq!(db.search_by_ticket(&t)[0].keyword_relative, -2_000_000);
}

#[test]
fn relevance_is_the_mean_over_keywords() {
    let db = DB::from_tables(
        (1, 1, 2020),
        vec![subject(1, "abcd", "", 0, 0, 2000)],
        Vec::new(),
        Vec::new(),
        Vec::new(),
        &[],
    )
    .unwrap();
    let mut t = empty_ticket();
    t.keyword_list = vec![
        SearchMode::PartialMatch(Relation::Include("abcd".to_string())),
        SearchMode::PartialMatch(Relation::Include("xyz".to_string())),
        SearchMode::ExactMatch(Relation::Include("bc".to_string())),
    ];
    // 2.0 for "abcd"; "xyz" against "abcd": distance 4 over length 4 gives 0; exact adds 0
    let r = db.search_by_ticket(&t);
    assert_eq!(r[0].keyword_relative, 666_666);
}

#[test]
fn partial_similarity_takes_the_better_title() {
    let db = DB::from_tables(
        (1, 1, 2020),
        vec![subject(1, "zzzz", "abcd", 0, 0, 2000)],
        Vec::new(),
        Vec::new(),
        Vec::new(),
        &[],
    )
    .unwrap();
    let mut t = empty_ticket();
    t.keyword_list = vec![SearchMode::PartialMatch(Relation::Include("abce".to_string()))];
    // no exact hit; similarity to "abcd" is 3/4
    assert_eq!(db.search_by_ticket(&t)[0].keyword_relative, 750_000);
}

#[test]
fn popularity_has_exact_values() {
    assert_eq!(score_mapper(&subject(1, "a", "", 800, 0, 2000)), 0);
    assert_eq!(score_mapper(&subject(1, "a", "", 800, 50, 2000)), 800 * 584_962);
    assert_eq!(score_mapper(&subject(1, "a", "", 800, 100, 2000)), 800_000_000);
    assert_eq!(score_mapper(&subject(1, "a", "", 800, 5000, 2000)), 800_000_000);
}

#[test]
fn rank_mode_orders_by_popularity_not_stored_rank() {
    let a = subject(1, "a", "", 800, 200, 2000);
    let b = subject(2, "b", "", 800, 0, 2000);
    let c = subject(3, "c", "", 800, 50, 2000);
    let sorted = sort_result_unsearched(vec![&a, &b, &c], SortMode::Rank, true);
    let got: Vec<u32> = sorted.iter().map(|s| s.rating_count).collect();
    assert_eq!(got, vec![0, 50, 200]);
    let sorted = sort_result_unsearched(vec![&a, &b, &c], SortMode::Rank, false);
    let got: Vec<u32> = sorted.iter().map(|s| s.rating_count).collect();
    assert_eq!(got, vec![200, 50, 0]);
}

#[test]
fn ties_keep_input_order_in_both_directions() {
    let a = subject(1, "a", "", 700, 100, 2000);
    let b = subject(2, "b", "", 900, 100, 2000);
    let c = subject(3, "c", "", 700, 100, 2000);
    let d = subject(4, "d", "", 700, 100, 2000);
    let up = sort_result_unsearched(vec![&a, &b, &c, &d], SortMode::FavCount, true);
    let down = sort_result_unsearched(vec![&a, &b, &c, &d], SortMode::FavCount, false);
    let ids = |v: &Vec<&PackedSubject>| v.iter().map(|s| s.subject_id).collect::<Vec<_>>();
    assert_eq!(ids(&up), vec![1, 2, 3, 4]);
    assert_eq!(ids(&down), vec![1, 2, 3, 4]);
    let up = sort_result_unsearched(vec![&a, &b, &c, &d], SortMode::Rank, true);
    let down = sort_result_unsearched(vec![&a, &b, &c, &d], SortMode::Rank, false);
    assert_eq!(ids(&up), vec![1, 3, 4, 2]);
    assert_eq!(ids(&down), vec![2, 1, 3, 4]);
}

#[test]
fn name_mode_uses_localized_title_when_present() {
    let a = subject(1, "zeta", "", 0, 0, 2000);
    let b = subject(2, "alpha", "omega", 0, 0, 2000);
    let c = subject(3, "beta", "", 0, 0, 2000);
    let sorted = sort_result_unsearched(vec![&a, &b, &c], SortMode::Name, true);
    let got: Vec<u32> = sorted.iter().map(|s| s.subject_id).collect();
    assert_eq!(got, vec![3, 2, 1]);
}

#[test]
fn date_mode_orders_by_year_month_day() {
    let mut a = subject(1, "a", "", 0, 0, 2001);
    a.air_m = 1;
    let mut b = subject(2, "b", "", 0, 0, 2000);
    b.air_m = 12;
    b.air_d = 31;
    let mut c = subject(3, "c", "", 0, 0, 2000);
    c.air_m = 12;
    c.air_d = 30;
    let sorted = sort_result_unsearched(vec![&a, &b, &c], SortMode::Date, true);
    let got: Vec<u32> = sorted.iter().map(|s| s.subject_id).collect();
    assert_eq!(got, vec![3, 2, 1]);
}

#[test]
fn results_sort_by_relation_and_relevance() {
    let db = sample_db();
    let mut t = empty_ticket();
    t.for_user = Some(7);
    let r = db.search_by_ticket(&t);
    let sorted = sort_result(r, SortMode::Recommend, false);
    assert_eq!(ids(&sorted), vec![3, 2, 1]);
    let s1 = subject(1, "a", "", 0, 0, 2000);
    let s2 = subject(2, "b", "", 0, 0, 2000);
    let l = vec![
        SearchResult { subject: &s1, keyword_relative: -5, user_recommend: 1 },
        SearchResult { subject: &s2, keyword_relative: 3, user_recommend: 1 },
    ];
    let up = sort_result(l.clone(), SortMode::Relative, true);
    assert_eq!(ids(&up), vec![1, 2]);
    let down = sort_result(l, SortMode::Relative, false);
    assert_eq!(ids(&down), vec![2, 1]);
}

#[test]
fn empty_catalog_gives_empty_results() {
    let db = DB::from_tables((1, 1, 2020), Vec::new(), Vec::new(), Vec::new(), Vec::new(), &[]).unwrap();
    assert_eq!(db.subject_count(), 0);
    let mut t = empty_ticket();
    t.keyword_list = vec![SearchMode::PartialMatch(Relation::Include("x".to_string()))];
    assert!(db.search_by_ticket(&t).is_empty());
    assert!(sort_result(Vec::new(), SortMode::Name, true).is_empty());
    assert!(sort_result_unsearched(Vec::new(), SortMode::Date, false).is_empty());
}
