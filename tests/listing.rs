use mountix_serverless::mountain_model::{Location, Mountain, Row};
use mountix_serverless::mountain_service::{
    get_all_mountains, refine_mountains, search_mountains, RangeCondition,
};
use mountix_serverless::ordering::{sort_mountains, sort_order, text_no_later, SortOrder};

fn mountain(id: u32, kana: &str, elevation: u32) -> Mountain {
    Mountain {
        id,
        name: format!("山{}", id),
        name_kana: kana.to_string(),
        area: String::new(),
        prefectures: vec![],
        elevation,
        location: Location::empty(),
        tags: vec![],
    }
}

fn sample() -> Vec<Mountain> {
    vec![
        mountain(3, "やりがたけ", 3180),
        mountain(1, "ふじさん", 3776),
        mountain(2, "きただけ", 3193),
        mountain(4, "あさまやま", 2568),
    ]
}

fn ids(ms: &[Mountain]) -> Vec<u32> {
    ms.iter().map(|m| m.id).collect()
}

fn sorted_ids(key: &str) -> Vec<u32> {
    let mut ms = sample();
    sort_mountains(&mut ms, &key.to_string());
    ids(&ms)
}

#[test]
fn sorts_by_each_token() {
    assert_eq!(sorted_ids("id.asc"), vec![1, 2, 3, 4]);
    assert_eq!(sorted_ids("id.desc"), vec![4, 3, 2, 1]);
    assert_eq!(sorted_ids("elevation.asc"), vec![4, 3, 2, 1]);
    assert_eq!(sorted_ids("elevation.desc"), vec![1, 2, 3, 4]);
    assert_eq!(sorted_ids("name.asc"), vec![4, 2, 1, 3]);
    assert_eq!(sorted_ids("name.desc"), vec![3, 1, 2, 4]);
}

#[test]
fn unknown_sort_token_sorts_by_id() {
    assert_eq!(sorted_ids("id"), vec![1, 2, 3, 4]);
    assert_eq!(sorted_ids(""), vec![1, 2, 3, 4]);
    assert_eq!(sort_order("height.asc"), SortOrder::IdAsc);
    assert_eq!(sort_order("name.desc"), SortOrder::NameDesc);
}

#[test]
fn sorting_is_stable() {
    let mut ms = vec![mountain(1, "a", 100), mountain(2, "b", 50), mountain(3, "c", 100), mountain(4, "d", 50)];
    sort_mountains(&mut ms, &"elevation.asc".to_string());
    assert_eq!(ids(&ms), vec![2, 4, 1, 3]);
}

#[test]
fn sorting_nothing_is_fine() {
    let mut ms: Vec<Mountain> = vec![];
    sort_mountains(&mut ms, &"name.asc".to_string());
    assert!(ms.is_empty());
}

#[test]
fn text_order_is_by_code_point() {
    assert!(text_no_later("abc", "abd"));
    assert!(!text_no_later("abd", "abc"));
    assert!(text_no_later("ab", "abc"));
    assert!(!text_no_later("abc", "ab"));
    assert!(text_no_later("", ""));
    assert!(text_no_later("あ", "い"));
    assert!(text_no_later("Z", "a"));
}

fn ten() -> Vec<Mountain> {
    (0..10).map(|i| mountain(i, "", 0)).collect()
}

#[test]
fn page_from_offset_with_limit() {
    let r = refine_mountains(ten(), RangeCondition { offset: 3, limit: Some(4) }).unwrap();
    assert_eq!(ids(&r.mountains), vec![3, 4, 5, 6]);
    assert_eq!(r.total, 10);
    assert_eq!(r.offset, 3);
    assert_eq!(r.limit, Some(4));
}

#[test]
fn offset_past_the_end_is_refused() {
    let r = refine_mountains(ten(), RangeCondition { offset: 11, limit: None });
    assert_eq!(r.err(), Some("offsetの値が不正です。".to_string()));
}

#[test]
fn offset_at_the_end_gives_an_empty_page() {
    let r = refine_mountains(ten(), RangeCondition { offset: 10, limit: Some(5) }).unwrap();
    assert!(r.mountains.is_empty());
    assert_eq!(r.total, 10);
}

#[test]
fn page_without_limit_runs_to_the_end() {
    let r = refine_mountains(ten(), RangeCondition { offset: 7, limit: None }).unwrap();
    assert_eq!(ids(&r.mountains), vec![7, 8, 9]);
    assert_eq!(r.limit, None);
}

#[test]
fn limit_past_the_end_stops_at_the_end() {
    let r = refine_mountains(ten(), RangeCondition { offset: 8, limit: Some(usize::MAX) }).unwrap();
    assert_eq!(ids(&r.mountains), vec![8, 9]);
}

fn row(id: &str, data_type: &str, data_value: &str, elevation: &str) -> Row {
    Row {
        id: id.to_string(),
        data_type: data_type.to_string(),
        data_value: data_value.to_string(),
        elevation_value: elevation.to_string(),
        location_value: Location::empty(),
    }
}

#[test]
fn empty_table_lists_nothing() {
    let r = get_all_mountains(&vec![], RangeCondition { offset: 0, limit: None }, &"id.asc".to_string()).unwrap();
    assert!(r.mountains.is_empty());
    assert_eq!(r.total, 0);
    assert_eq!(r.offset, 0);
    assert_eq!(r.limit, None);
}

#[test]
fn lists_a_table_sorted_and_paged() {
    let rows = vec![
        row("2", "Elevation", "", "3193"),
        row("1", "Elevation", "", "3776"),
        row("3", "Elevation", "", "3180"),
        row("2", "Name", "北岳", ""),
    ];
    let r = get_all_mountains(&rows, RangeCondition { offset: 1, limit: Some(1) }, &"elevation.desc".to_string()).unwrap();
    assert_eq!(r.total, 3);
    assert_eq!(ids(&r.mountains), vec![2]);
    assert_eq!(r.mountains[0].name, "北岳");
}

#[test]
fn search_lists_what_the_lookups_found() {
    let details = vec![
        Ok(vec![row("3", "Elevation", "", "3180")]),
        Err(()),
        Ok(vec![]),
        Ok(vec![row("1", "Elevation", "", "3776")]),
    ];
    let r = search_mountains(&details, RangeCondition { offset: 0, limit: None }, &"id.asc".to_string()).unwrap();
    assert_eq!(ids(&r.mountains), vec![1, 3]);
    assert_eq!(r.total, 2);
    let r = search_mountains(&details, RangeCondition { offset: 3, limit: None }, &"id.asc".to_string());
    assert!(r.is_err());
}
