use hako_search::db::{PackedSubjectSubtype, DB};
use hako_search::query::{
    construct_pager, encode_sort_mode_str_to_u8, encode_sub_type_to_str, keyword_from_query,
    parse_sort_mode_str, parse_u32, r18_filter_from_query, resolve_user, tag_from_query, year_range_from_query,
};
use hako_search::ticket::{Relation, SearchMode, SearchRange, SortMode};

#[test]
fn sort_codes_parse() {
    assert_eq!(parse_sort_mode_str("ar"), Some((true, SortMode::Recommend)));
    assert_eq!(parse_sort_mode_str("dn"), Some((false, SortMode::Name)));
    assert_eq!(parse_sort_mode_str("dk"), Some((false, SortMode::Rank)));
    assert_eq!(parse_sort_mode_str("ad"), Some((true, SortMode::Date)));
    assert_eq!(parse_sort_mode_str("df"), Some((false, SortMode::FavCount)));
    assert_eq!(parse_sort_mode_str("al"), Some((true, SortMode::Relative)));
    assert_eq!(parse_sort_mode_str("xr"), None);
    assert_eq!(parse_sort_mode_str("arr"), None);
    assert_eq!(parse_sort_mode_str(""), None);
}

#[test]
fn sort_codes_number() {
    assert_eq!(encode_sort_mode_str_to_u8("ar"), Some(0));
    assert_eq!(encode_sort_mode_str_to_u8("dl"), Some(3));
    assert_eq!(encode_sort_mode_str_to_u8("ak"), Some(4));
    assert_eq!(encode_sort_mode_str_to_u8("df"), Some(9));
    assert_eq!(encode_sort_mode_str_to_u8("an"), None);
    assert_eq!(encode_sort_mode_str_to_u8("zz"), None);
}

#[test]
fn kind_labels() {
    assert_eq!(encode_sub_type_to_str(PackedSubjectSubtype::Unknown), "");
    assert_eq!(encode_sub_type_to_str(PackedSubjectSubtype::Movie), "Movie");
    assert_eq!(encode_sub_type_to_str(PackedSubjectSubtype::OVA), "OVA");
}

#[test]
fn query_keywords_are_lowered() {
    match keyword_from_query(0, "Bebop") {
        SearchMode::PartialMatch(Relation::Include(x)) => assert_eq!(x, "bebop"),
        _ => panic!("wrong keyword kind"),
    }
    match keyword_from_query(3, "LAIN") {
        SearchMode::ExactMatch(Relation::Exclude(x)) => assert_eq!(x, "lain"),
        _ => panic!("wrong keyword kind"),
    }
}

#[test]
fn query_years_and_flags() {
    assert_eq!(year_range_from_query(Some(2000), Some(2005)), SearchRange::Range(2000, 2005));
    assert_eq!(year_range_from_query(None, Some(2000)), SearchRange::RangeTo(2000));
    assert_eq!(year_range_from_query(Some(2015), None), SearchRange::RangeFrom(2015));
    assert_eq!(year_range_from_query(None, None), SearchRange::RangeFull);
    assert_eq!(r18_filter_from_query(1), Some(Some(false)));
    assert_eq!(r18_filter_from_query(2), Some(Some(true)));
    assert_eq!(r18_filter_from_query(3), Some(None));
    assert_eq!(r18_filter_from_query(0), None);
    assert!(matches!(tag_from_query(1, Some(4)), Relation::Include(4)));
    assert!(matches!(tag_from_query(0, None), Relation::Exclude(u32::MAX)));
}

#[test]
fn users_resolve_by_id_or_name() {
    let db = DB::from_tables(
        (1, 1, 2020),
        Vec::new(),
        vec![3, 8],
        vec!["Alice".to_string(), "Bob".to_string()],
        Vec::new(),
        &[],
    )
    .unwrap();
    assert_eq!(resolve_user(&db, "42"), 42);
    assert_eq!(resolve_user(&db, "+7"), 7);
    assert_eq!(resolve_user(&db, "BOB"), 8);
    assert_eq!(resolve_user(&db, "nobody"), 0);
    assert_eq!(resolve_user(&db, "99999999999"), 0);
}

#[test]
fn pager_window_in_the_middle() {
    let p = construct_pager(5, 20);
    assert_eq!(p.prev_page, Some(4));
    assert_eq!(p.next_page, Some(6));
    assert_eq!(p.min_page, Some(0));
    assert_eq!(p.max_page_link, Some(19));
    assert_eq!(p.curr_page, 6);
    let pages: Vec<u32> = p.page_list.iter().map(|x| x.0).collect();
    assert_eq!(pages, vec![4, 5, 6, 7, 8]);
}

#[test]
fn pager_window_at_the_ends() {
    let p = construct_pager(0, 2);
    assert_eq!(p.prev_page, None);
    assert_eq!(p.min_page, None);
    assert_eq!(p.next_page, Some(1));
    assert_eq!(p.page_list, vec![(1, Some(0)), (2, Some(1)), (3, None), (4, None), (5, None)]);
    let p = construct_pager(19, 20);
    assert_eq!(p.next_page, None);
    assert_eq!(p.max_page_link, None);
    let pages: Vec<u32> = p.page_list.iter().map(|x| x.0).collect();
    assert_eq!(pages, vec![16, 17, 18, 19, 20]);
}

#[test]
fn unsigned_numbers_parse_as_from_str_does() {
    assert_eq!(parse_u32("0"), Some(0));
    assert_eq!(parse_u32("007"), Some(7));
    assert_eq!(parse_u32("+12"), Some(12));
    assert_eq!(parse_u32("4294967295"), Some(u32::MAX));
    assert_eq!(parse_u32("4294967296"), None);
    assert_eq!(parse_u32("99999999999999999999x"), None);
    assert_eq!(parse_u32(""), None);
    assert_eq!(parse_u32("+"), None);
    assert_eq!(parse_u32("++1"), None);
    assert_eq!(parse_u32("-1"), None);
    assert_eq!(parse_u32("1a"), None);
    assert_eq!(parse_u32("١"), None);
}
