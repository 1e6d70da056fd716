use mountix_serverless::mountain_model::{Location, Row};
use mountix_serverless::mountain_service::{
    category_ids, ids_of, matching_ids, merge_result, plan_search, search_ids, union_ids,
    SearchCondition, SearchPlan, SearchType,
};
use mountix_serverless::repository::{id_query, lookups_for, scan_command, Lookup};

fn s(v: &[&str]) -> Vec<String> {
    v.iter().map(|x| x.to_string()).collect()
}

fn id_rows(ids: &[&str]) -> Vec<Row> {
    ids.iter()
        .map(|id| Row {
            id: id.to_string(),
            data_type: "Name".to_string(),
            data_value: String::new(),
            elevation_value: String::new(),
            location_value: Location::empty(),
        })
        .collect()
}

#[test]
fn merge_keeps_the_common_ids() {
    let mut base = s(&["1", "2", "3", "4"]);
    merge_result(&mut base, &s(&["4", "2", "9"]));
    assert_eq!(base, s(&["2", "4"]));
}

#[test]
fn merge_with_nothing_keeps_nothing() {
    let mut base = s(&["1", "2"]);
    merge_result(&mut base, &vec![]);
    assert!(base.is_empty());
    let mut empty: Vec<String> = vec![];
    merge_result(&mut empty, &s(&["1"]));
    assert!(empty.is_empty());
}

#[test]
fn union_keeps_each_id_once() {
    let r = union_ids(&s(&["1", "2", "1"]), &s(&["3", "2"]));
    assert_eq!(r, s(&["1", "2", "3"]));
}

#[test]
fn matching_is_independent_of_order() {
    let p = s(&["1", "2", "3"]);
    let t = s(&["3", "1", "5"]);
    let mut a = matching_ids(&vec![p.clone(), t.clone()]);
    let mut b = matching_ids(&vec![t, p]);
    a.sort();
    b.sort();
    assert_eq!(a, s(&["1", "3"]));
    assert_eq!(a, b);
}

#[test]
fn matching_one_list_takes_it_whole() {
    assert_eq!(matching_ids(&vec![s(&["2", "1", "2"])]), s(&["2", "1"]));
    assert!(matching_ids(&vec![]).is_empty());
}

#[test]
fn ids_of_rows_each_once() {
    assert_eq!(ids_of(&id_rows(&["7", "5", "7"])), s(&["7", "5"]));
}

#[test]
fn name_matches_unite_name_and_kana() {
    let found = vec![Ok(id_rows(&["1", "2"])), Ok(id_rows(&["2", "3"]))];
    assert_eq!(category_ids(SearchType::Name, &found), s(&["1", "2", "3"]));
    let failed_kana = vec![Ok(id_rows(&["1"])), Err(())];
    assert_eq!(category_ids(SearchType::Name, &failed_kana), s(&["1"]));
}

#[test]
fn failed_lookup_finds_nothing() {
    assert!(category_ids(SearchType::Tag, &vec![Err(())]).is_empty());
    assert!(category_ids(SearchType::Prefecture, &vec![]).is_empty());
}

#[test]
fn conditions_are_intersected() {
    let conditions = vec![
        SearchCondition { search_type: SearchType::Prefecture, value: "Prefecture_長野県".to_string() },
        SearchCondition { search_type: SearchType::Tag, value: "Tag_百名山".to_string() },
        SearchCondition { search_type: SearchType::Name, value: "岳".to_string() },
    ];
    let found = vec![
        vec![Ok(id_rows(&["1", "2", "3", "4"]))],
        vec![Ok(id_rows(&["2", "3", "4", "9"]))],
        vec![Ok(id_rows(&["2"])), Ok(id_rows(&["4", "8"]))],
    ];
    assert_eq!(search_ids(&conditions, &found), s(&["2", "4"]));
}

#[test]
fn failed_category_lookup_empties_the_search() {
    let conditions = vec![
        SearchCondition { search_type: SearchType::Prefecture, value: "Prefecture_長野県".to_string() },
        SearchCondition { search_type: SearchType::Tag, value: "Tag_百名山".to_string() },
    ];
    let found = vec![vec![Err(())], vec![Ok(id_rows(&["1", "2"]))]];
    assert!(search_ids(&conditions, &found).is_empty());
}

#[test]
fn lookups_follow_the_condition() {
    let name = SearchCondition { search_type: SearchType::Name, value: "富士".to_string() };
    let l = lookups_for(&name);
    assert_eq!(l.len(), 2);
    match &l[0] {
        Lookup::IndexFilter(c) => {
            assert_eq!(c.table, "Mountains");
            assert_eq!(c.index, Some("DataType_Id_Index".to_string()));
            assert_eq!(c.key, "DataType");
            assert_eq!(c.value, "Name");
            assert_eq!(c.filter_key, "DataValue");
            assert_eq!(c.filter_value, "富士");
        }
        _ => panic!("expected a filtered lookup"),
    }
    match &l[1] {
        Lookup::IndexFilter(c) => assert_eq!(c.value, "NameKana"),
        _ => panic!("expected a filtered lookup"),
    }
    let tag = SearchCondition { search_type: SearchType::Tag, value: "Tag_百名山".to_string() };
    let l = lookups_for(&tag);
    assert_eq!(l.len(), 1);
    match &l[0] {
        Lookup::Index(c) => {
            assert_eq!(c.index, Some("DataValue_Id_Index".to_string()));
            assert_eq!(c.key, "DataValue");
            assert_eq!(c.value, "Tag_百名山");
        }
        _ => panic!("expected an index lookup"),
    }
}

#[test]
fn commands_name_the_table() {
    assert_eq!(scan_command().table, "Mountains");
    let q = id_query(&"12".to_string());
    assert_eq!(q.table, "Mountains");
    assert_eq!(q.index, None);
    assert_eq!(q.key, "Id");
    assert_eq!(q.value, "12");
}

#[test]
fn no_condition_reads_the_whole_table() {
    assert_eq!(plan_search(&vec![]), SearchPlan::FullScan);
    let name = SearchCondition { search_type: SearchType::Name, value: "岳".to_string() };
    assert_eq!(plan_search(&vec![name]), SearchPlan::Lookups);
}
