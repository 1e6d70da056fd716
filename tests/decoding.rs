use mountix_serverless::grouping::{collect_mountains, distinct_ids, select_rows};
use mountix_serverless::mountain_model::{
    kind_of_type, Location, Mountain, MountainBaseMapper, MountainMapper, Row, RowKind,
};
use mountix_serverless::mountain_service::get_mountain_by_id;

fn row(id: &str, data_type: &str, data_value: &str) -> Row {
    Row {
        id: id.to_string(),
        data_type: data_type.to_string(),
        data_value: data_value.to_string(),
        elevation_value: String::new(),
        location_value: Location::empty(),
    }
}

fn elevation_row(id: &str, value: &str) -> Row {
    Row {
        id: id.to_string(),
        data_type: "Elevation".to_string(),
        data_value: String::new(),
        elevation_value: value.to_string(),
        location_value: Location::empty(),
    }
}

fn location_row(id: &str, lat: &str, lon: &str, url: &str) -> Row {
    Row {
        id: id.to_string(),
        data_type: "Location".to_string(),
        data_value: String::new(),
        elevation_value: String::new(),
        location_value: Location {
            latitude: lat.to_string(),
            longitude: lon.to_string(),
            gsi_url: url.to_string(),
        },
    }
}

fn fuji_rows() -> Vec<Row> {
    vec![
        row("5", "Name", "富士山"),
        row("5", "NameKana", "ふじさん"),
        elevation_row("5", "3776"),
        location_row("5", "35.360638", "138.727347", "https://maps.gsi.go.jp/#15/35.360638/138.727347"),
        row("5", "Area_中部", "Area_中部"),
        row("5", "Prefecture_静岡県", "Prefecture_静岡県"),
        row("5", "Prefecture_山梨県", "Prefecture_山梨県"),
        row("5", "Tag_百名山", "Tag_百名山"),
    ]
}

fn decode(rows: Vec<Row>) -> Mountain {
    MountainMapper::new(rows).to_mountain()
}

#[test]
fn decodes_every_field() {
    let m = decode(fuji_rows());
    assert_eq!(m.id, 5);
    assert_eq!(m.name, "富士山");
    assert_eq!(m.name_kana, "ふじさん");
    assert_eq!(m.area, "中部");
    assert_eq!(m.prefectures, vec!["静岡県".to_string(), "山梨県".to_string()]);
    assert_eq!(m.elevation, 3776);
    assert_eq!(m.location.latitude, "35.360638");
    assert_eq!(m.location.longitude, "138.727347");
    assert_eq!(m.location.gsi_url, "https://maps.gsi.go.jp/#15/35.360638/138.727347");
    assert_eq!(m.tags, vec!["百名山".to_string()]);
}

#[test]
fn no_rows_give_the_empty_mountain() {
    let m = decode(vec![]);
    assert_eq!(m.id, 0);
    assert_eq!(m.name, "");
    assert_eq!(m.name_kana, "");
    assert_eq!(m.area, "");
    assert!(m.prefectures.is_empty());
    assert_eq!(m.elevation, 0);
    assert_eq!(m.location.latitude, "");
    assert_eq!(m.location.gsi_url, "");
    assert!(m.tags.is_empty());
}

#[test]
fn unreadable_elevation_keeps_the_earlier_value() {
    let m = decode(vec![elevation_row("3", "2000"), elevation_row("3", "high")]);
    assert_eq!(m.elevation, 2000);
    let m = decode(vec![elevation_row("3", "99999999999")]);
    assert_eq!(m.elevation, 0);
}

#[test]
fn unknown_discriminators_are_ignored() {
    let m = decode(vec![row("4", "Name", "槍ヶ岳"), row("4", "Height", "3180"), row("4", "name", "x")]);
    assert_eq!(m.name, "槍ヶ岳");
    assert_eq!(m.elevation, 0);
    assert!(m.tags.is_empty());
}

#[test]
fn single_valued_fields_take_the_last_row() {
    let m = decode(vec![row("2", "Area_北陸", "Area_北陸"), row("2", "Area_中部", "Area_中部")]);
    assert_eq!(m.area, "中部");
}

#[test]
fn id_comes_from_the_first_readable_row() {
    let m = decode(vec![row("", "Name", "a"), row("5", "NameKana", "b")]);
    assert_eq!(m.id, 5);
    let m = decode(vec![row("x", "Name", "a"), row("9", "NameKana", "b"), row("3", "Area_x", "x")]);
    assert_eq!(m.id, 9);
    let m = decode(vec![row("+12", "Name", "a")]);
    assert_eq!(m.id, 12);
    let m = decode(vec![row("x", "Name", "a")]);
    assert_eq!(m.id, 0);
}

#[test]
fn repeated_rows_list_a_value_once() {
    let mut rows = fuji_rows();
    rows.push(row("5", "Prefecture_静岡県", "Prefecture_静岡県"));
    rows.push(row("5", "Tag_百名山", "Tag_百名山"));
    let m = decode(rows);
    assert_eq!(m.prefectures, vec!["静岡県".to_string(), "山梨県".to_string()]);
    assert_eq!(m.tags, vec!["百名山".to_string()]);
    assert_eq!(m, decode(fuji_rows()));
}

#[test]
fn kinds_follow_the_discriminator() {
    assert_eq!(kind_of_type("Name"), RowKind::Name);
    assert_eq!(kind_of_type("NameKana"), RowKind::NameKana);
    assert_eq!(kind_of_type("Elevation"), RowKind::Elevation);
    assert_eq!(kind_of_type("Location"), RowKind::Location);
    assert_eq!(kind_of_type("Area_x"), RowKind::Area);
    assert_eq!(kind_of_type("Prefecture_x"), RowKind::Prefecture);
    assert_eq!(kind_of_type("Tag_x"), RowKind::Tag);
    assert_eq!(kind_of_type("Names"), RowKind::Other);
}

#[test]
fn decoding_ignores_row_order() {
    let a = decode(fuji_rows());
    let mut reversed = fuji_rows();
    reversed.reverse();
    let b = decode(reversed);
    assert_eq!(a.id, b.id);
    assert_eq!(a.name, b.name);
    assert_eq!(a.name_kana, b.name_kana);
    assert_eq!(a.area, b.area);
    assert_eq!(a.elevation, b.elevation);
    assert_eq!(a.location, b.location);
    let mut pa = a.prefectures.clone();
    let mut pb = b.prefectures.clone();
    pa.sort();
    pb.sort();
    assert_eq!(pa, pb);
    assert_eq!(a.tags, b.tags);
}

#[test]
fn duplicate_rows_make_one_mountain() {
    let mut rows = fuji_rows();
    rows.extend(fuji_rows());
    let ms = collect_mountains(&rows);
    assert_eq!(ms.len(), 1);
    assert_eq!(ms[0].id, 5);
    assert_eq!(ms[0].name, "富士山");
    assert_eq!(ms[0].prefectures, vec!["静岡県".to_string(), "山梨県".to_string()]);
    assert_eq!(ms[0].tags, vec!["百名山".to_string()]);
}

#[test]
fn ids_keep_their_rows_apart() {
    let rows = vec![
        row("5", "Name", "富士山"),
        row("7", "Name", "北岳"),
        elevation_row("7", "3193"),
        elevation_row("5", "3776"),
        row("7", "Tag_百名山", "Tag_百名山"),
        row("5", "NameKana", "ふじさん"),
    ];
    let ms = collect_mountains(&rows);
    assert_eq!(ms.len(), 2);
    assert_eq!(ms[0].id, 5);
    assert_eq!(ms[0].name, "富士山");
    assert_eq!(ms[0].elevation, 3776);
    assert_eq!(ms[0].name_kana, "ふじさん");
    assert!(ms[0].tags.is_empty());
    assert_eq!(ms[1].id, 7);
    assert_eq!(ms[1].name, "北岳");
    assert_eq!(ms[1].elevation, 3193);
    assert_eq!(ms[1].name_kana, "");
    assert_eq!(ms[1].tags, vec!["百名山".to_string()]);
}

#[test]
fn distinct_ids_keep_first_appearance() {
    let rows = vec![row("7", "Name", "a"), row("5", "Name", "b"), row("7", "NameKana", "c"), row("", "Name", "d")];
    assert_eq!(distinct_ids(&rows), vec![7, 5]);
    let sel = select_rows(&rows, 7);
    assert_eq!(sel.len(), 2);
    assert_eq!(sel[1].data_value, "c");
}

#[test]
fn lookup_by_id_matches_the_listing() {
    let mut rows = fuji_rows();
    rows.push(row("7", "Name", "北岳"));
    let listed = collect_mountains(&rows);
    let found = get_mountain_by_id(Ok(select_rows(&rows, 5))).unwrap();
    assert_eq!(found, listed[0]);
}

#[test]
fn lookup_by_id_without_rows_finds_nothing() {
    assert!(get_mountain_by_id(Ok(vec![])).is_err());
    assert!(get_mountain_by_id(Err(())).is_err());
}
