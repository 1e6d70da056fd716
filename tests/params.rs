use mountix_serverless::mountain_service::SearchType;
use mountix_serverless::prefecture_model::{PrefectureBaseMapper, PrefectureMapper};
use mountix_serverless::query_params::{resolve_search, QueryParams};
use mountix_serverless::routing::{erase_text, response_type, ResponseType};
use mountix_serverless::tag_model::{TagBaseMapper, TagMapper};
use mountix_serverless::text::{parse_u32, parse_usize, same_text, starts_with, strip_prefix};

fn params() -> QueryParams {
    QueryParams { prefecture: None, tag: None, name: None, offset: None, limit: None, sort: None }
}

fn some(t: &str) -> Option<String> {
    Some(t.to_string())
}

#[test]
fn no_parameters_give_defaults() {
    let r = resolve_search(&params()).ok().unwrap();
    assert!(r.conditions.is_empty());
    assert_eq!(r.range_condition.offset, 0);
    assert_eq!(r.range_condition.limit, None);
    assert_eq!(r.sort_key, "id.asc");
}

#[test]
fn parameters_become_conditions() {
    let p = QueryParams {
        prefecture: some("20"),
        tag: some("1"),
        name: some("岳"),
        offset: some("3"),
        limit: some("4"),
        sort: some("name.desc"),
    };
    let r = resolve_search(&p).ok().unwrap();
    assert_eq!(r.conditions.len(), 3);
    assert_eq!(r.conditions[0].search_type, SearchType::Prefecture);
    assert_eq!(r.conditions[0].value, "Prefecture_長野県");
    assert_eq!(r.conditions[1].search_type, SearchType::Tag);
    assert_eq!(r.conditions[1].value, "Tag_百名山");
    assert_eq!(r.conditions[2].search_type, SearchType::Name);
    assert_eq!(r.conditions[2].value, "岳");
    assert_eq!(r.range_condition.offset, 3);
    assert_eq!(r.range_condition.limit, Some(4));
    assert_eq!(r.sort_key, "name.desc");
}

#[test]
fn unknown_tag_code_is_reported() {
    let p = QueryParams { tag: some("999"), ..params() };
    let e = resolve_search(&p).err().unwrap();
    assert_eq!(e, vec!["不正なタグIDです。".to_string()]);
}

#[test]
fn unknown_prefecture_code_is_reported() {
    let p = QueryParams { prefecture: some("999"), ..params() };
    assert_eq!(resolve_search(&p).err().unwrap(), vec!["不正な都道府県IDです".to_string()]);
    let p = QueryParams { prefecture: some("abc"), ..params() };
    assert_eq!(resolve_search(&p).err().unwrap(), vec!["不正な都道府県IDです".to_string()]);
}

#[test]
fn every_problem_is_reported() {
    let p = QueryParams {
        prefecture: some("0"),
        tag: some("2"),
        name: some("x"),
        offset: some("-1"),
        limit: some("0"),
        sort: some("height"),
    };
    let e = resolve_search(&p).err().unwrap();
    assert_eq!(
        e,
        vec![
            "不正な都道府県IDです".to_string(),
            "不正なタグIDです。".to_string(),
            "offsetは0以上の整数を指定してください。".to_string(),
            "limitは1以上の整数を指定してください。".to_string(),
            "不正なソート指定です。".to_string(),
        ]
    );
}

#[test]
fn unreadable_limit_is_reported() {
    let p = QueryParams { limit: some("ten"), ..params() };
    assert_eq!(resolve_search(&p).err().unwrap(), vec!["limitは1以上の整数を指定してください。".to_string()]);
}

#[test]
fn tag_codes() {
    assert_eq!(TagMapper::new(1).to_tag(), Ok("Tag_百名山".to_string()));
    assert_eq!(TagMapper::new(0).to_tag(), Err(()));
    assert_eq!(TagMapper::new(999).to_tag(), Err(()));
}

#[test]
fn prefecture_codes() {
    assert_eq!(PrefectureMapper::new(1).to_prefecture(), Ok("Prefecture_北海道".to_string()));
    assert_eq!(PrefectureMapper::new(13).to_prefecture(), Ok("Prefecture_東京都".to_string()));
    assert_eq!(PrefectureMapper::new(47).to_prefecture(), Ok("Prefecture_沖縄県".to_string()));
    assert_eq!(PrefectureMapper::new(0).to_prefecture(), Err(()));
    assert_eq!(PrefectureMapper::new(48).to_prefecture(), Err(()));
}

#[test]
fn routes() {
    let none = String::new();
    assert_eq!(response_type(&"/api/v1".to_string(), &none), ResponseType::ApiInfo);
    assert_eq!(response_type(&"/api/v1/".to_string(), &none), ResponseType::ApiInfo);
    assert_eq!(response_type(&"/".to_string(), &none), ResponseType::ApiInfo);
    assert_eq!(response_type(&"/api/v1/mountains".to_string(), &none), ResponseType::MountainList);
    assert_eq!(response_type(&"/api/v1/mountains/".to_string(), &none), ResponseType::MountainList);
    assert_eq!(response_type(&"/api/v1/mountains/12".to_string(), &"12".to_string()), ResponseType::Mountain);
    assert_eq!(response_type(&"/api/v1/mountains/abc".to_string(), &"abc".to_string()), ResponseType::Error);
    assert_eq!(response_type(&"/other".to_string(), &none), ResponseType::Error);
}

#[test]
fn erasing_takes_out_every_occurrence() {
    assert_eq!(erase_text("/api/v1/api/v1/mountains", "/api/v1"), "/mountains");
    assert_eq!(erase_text("x/api/v1y", "/api/v1"), "xy");
    assert_eq!(erase_text("abc", ""), "abc");
}

#[test]
fn numbers_read_as_std_reads_them() {
    assert_eq!(parse_u32("0"), Some(0));
    assert_eq!(parse_u32("+7"), Some(7));
    assert_eq!(parse_u32("007"), Some(7));
    assert_eq!(parse_u32("4294967295"), Some(u32::MAX));
    assert_eq!(parse_u32("4294967296"), None);
    assert_eq!(parse_u32(""), None);
    assert_eq!(parse_u32("+"), None);
    assert_eq!(parse_u32("-1"), None);
    assert_eq!(parse_u32(" 1"), None);
    assert_eq!(parse_u32("1a"), None);
    assert_eq!(parse_u32("99999999999999999999999x"), None);
    assert_eq!(parse_usize("18446744073709551615"), Some(usize::MAX));
    assert_eq!(parse_usize("18446744073709551616"), None);
    for t in ["0", "+7", "12", "4294967296", "-1", "", "+", "x"] {
        assert_eq!(parse_u32(t), t.parse::<u32>().ok());
    }
}

#[test]
fn text_helpers() {
    assert!(starts_with("Tag_百名山", "Tag_"));
    assert!(!starts_with("Ta", "Tag_"));
    assert!(same_text("百名山", "百名山"));
    assert!(!same_text("百名山", "百名"));
    assert_eq!(strip_prefix("Area_中部", "Area_"), "中部");
    assert_eq!(strip_prefix("中部", "Area_"), "中部");
}
