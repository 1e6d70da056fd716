use vstd::prelude::*;

verus! {

/// The prefecture that a prefecture code (JIS X 0401) stands for.
pub open spec fn prefecture_name(key: u32) -> Option<Seq<char>> {
    match key {
        1 => Some("北海道"@),
        2 => Some("青森県"@),
        3 => Some("岩手県"@),
        4 => Some("宮城県"@),
        5 => Some("秋田県"@),
        6 => Some("山形県"@),
        7 => Some("福島県"@),
        8 => Some("茨城県"@),
        9 => Some("栃木県"@),
        10 => Some("群馬県"@),
        11 => Some("埼玉県"@),
        12 => Some("千葉県"@),
        13 => Some("東京都"@),
        14 => Some("神奈川県"@),
        15 => Some("新潟県"@),
        16 => Some("富山県"@),
        17 => Some("石川県"@),
        18 => Some("福井県"@),
        19 => Some("山梨県"@),
        20 => Some("長野県"@),
        21 => Some("岐阜県"@),
        22 => Some("静岡県"@),
        23 => Some("愛知県"@),
        24 => Some("三重県"@),
        25 => Some("滋賀県"@),
        26 => Some("京都府"@),
        27 => Some("大阪府"@),
        28 => Some("兵庫県"@),
        29 => Some("奈良県"@),
        30 => Some("和歌山県"@),
        31 => Some("鳥取県"@),
        32 => Some("島根県"@),
        33 => Some("岡山県"@),
        34 => Some("広島県"@),
        35 => Some("山口県"@),
        36 => Some("徳島県"@),
        37 => Some("香川県"@),
        38 => Some("愛媛県"@),
        39 => Some("高知県"@),
        40 => Some("福岡県"@),
        41 => Some("佐賀県"@),
        42 => Some("長崎県"@),
        43 => Some("熊本県"@),
        44 => Some("大分県"@),
        45 => Some("宮崎県"@),
        46 => Some("鹿児島県"@),
        47 => Some("沖縄県"@),
        _ => None,
    }
}

/// The prefecture, in the form the store holds it.
pub open spec fn prefecture_of(key: u32) -> Option<Seq<char>> {
    match prefecture_name(key) {
        Some(n) => Some("Prefecture_"@ + n),
        None => None,
    }
}

/// The name of the prefecture that a prefecture code stands for.
fn name_of_prefecture(key: u32) -> (r: Option<&'static str>)
    ensures
        match r {
            Some(n) => prefecture_name(key) == Some(n@),
            None => prefecture_name(key) is None,
        },
{
    match key {
        1 => Some("北海道"),
        2 => Some("青森県"),
        3 => Some("岩手県"),
        4 => Some("宮城県"),
        5 => Some("秋田県"),
        6 => Some("山形県"),
        7 => Some("福島県"),
        8 => Some("茨城県"),
        9 => Some("栃木県"),
        10 => Some("群馬県"),
        11 => Some("埼玉県"),
        12 => Some("千葉県"),
        13 => Some("東京都"),
        14 => Some("神奈川県"),
        15 => Some("新潟県"),
        16 => Some("富山県"),
        17 => Some("石川県"),
        18 => Some("福井県"),
        19 => Some("山梨県"),
        20 => Some("長野県"),
        21 => Some("岐阜県"),
        22 => Some("静岡県"),
        23 => Some("愛知県"),
        24 => Some("三重県"),
        25 => Some("滋賀県"),
        26 => Some("京都府"),
        27 => Some("大阪府"),
        28 => Some("兵庫県"),
        29 => Some("奈良県"),
        30 => Some("和歌山県"),
        31 => Some("鳥取県"),
        32 => Some("島根県"),
        33 => Some("岡山県"),
        34 => Some("広島県"),
        35 => Some("山口県"),
        36 => Some("徳島県"),
        37 => Some("香川県"),
        38 => Some("愛媛県"),
        39 => Some("高知県"),
        40 => Some("福岡県"),
        41 => Some("佐賀県"),
        42 => Some("長崎県"),
        43 => Some("熊本県"),
        44 => Some("大分県"),
        45 => Some("宮崎県"),
        46 => Some("鹿児島県"),
        47 => Some("沖縄県"),
        _ => None,
    }
}

/// Turns a prefecture code into the prefecture it stands for.
pub trait PrefectureBaseMapper: Sized {
    fn new(key: u32) -> Self;

    fn to_prefecture(&self) -> Result<String, ()>;
}

/// A prefecture code.
pub struct PrefectureMapper {
    pub key: u32,
}

impl PrefectureBaseMapper for PrefectureMapper {
    fn new(key: u32) -> (r: Self)
        ensures
            r.key == key,
    {
        PrefectureMapper { key }
    }

    /// The prefecture, in the form the store holds it; an unknown code is refused.
    fn to_prefecture(&self) -> (r: Result<String, ()>)
        ensures
            match prefecture_of(self.key) {
                Some(p) => r matches Ok(s) && s@ == p,
                None => r is Err,
            },
    {
        match name_of_prefecture(self.key) {
            Some(n) => Ok(String::from_str("Prefecture_").concat(n)),
            None => Err(()),
        }
    }
}

} // verus!
