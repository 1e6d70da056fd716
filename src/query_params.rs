use vstd::prelude::*;

use crate::mountain_service::{RangeCondition, SearchCondition, SearchType};
use crate::prefecture_model::{prefecture_of, PrefectureBaseMapper, PrefectureMapper};
use crate::tag_model::{tag_of, TagBaseMapper, TagMapper};
use crate::text::{parse_u32, parse_usize, same_text, texts, u32_of, usize_of};

verus! {

/// The parameters of a search request, each as given, where given.
pub struct QueryParams {
    pub prefecture: Option<String>,
    pub tag: Option<String>,
    pub name: Option<String>,
    pub offset: Option<String>,
    pub limit: Option<String>,
    pub sort: Option<String>,
}

/// A search request that passed every check.
pub struct ResolvedSearch {
    pub conditions: Vec<SearchCondition>,
    pub range_condition: RangeCondition,
    pub sort_key: String,
}

pub open spec fn prefecture_message() -> Seq<char> {
    "不正な都道府県IDです"@
}

pub open spec fn tag_message() -> Seq<char> {
    "不正なタグIDです。"@
}

pub open spec fn offset_param_message() -> Seq<char> {
    "offsetは0以上の整数を指定してください。"@
}

pub open spec fn limit_message() -> Seq<char> {
    "limitは1以上の整数を指定してください。"@
}

pub open spec fn sort_message() -> Seq<char> {
    "不正なソート指定です。"@
}

/// What a prefecture parameter stands for: the prefecture of its code, where the
/// text is a code and the code is known.
pub open spec fn prefecture_param(t: Seq<char>) -> Option<Seq<char>> {
    match u32_of(t) {
        Some(k) => prefecture_of(k),
        None => None,
    }
}

/// What a tag parameter stands for: the tag of its code, where the text is a code
/// and the code is known.
pub open spec fn tag_param(t: Seq<char>) -> Option<Seq<char>> {
    match u32_of(t) {
        Some(k) => tag_of(k),
        None => None,
    }
}

/// The limit that a limit parameter gives: a number above 0.
pub open spec fn limit_param(t: Seq<char>) -> Option<usize> {
    match usize_of(t) {
        Some(v) => if v > 0 {
            Some(v)
        } else {
            None
        },
        None => None,
    }
}

/// Whether `t` is one of the six sort tokens.
pub open spec fn is_sort_token(t: Seq<char>) -> bool {
    ||| t == "id.asc"@
    ||| t == "id.desc"@
    ||| t == "elevation.asc"@
    ||| t == "elevation.desc"@
    ||| t == "name.asc"@
    ||| t == "name.desc"@
}

/// `[m]` where `bad` holds, else nothing.
pub open spec fn message_if(bad: bool, m: Seq<char>) -> Seq<Seq<char>> {
    if bad {
        seq![m]
    } else {
        Seq::empty()
    }
}

/// The problems of a request, in the order of the checks: every check is made,
/// whatever the others found.
pub open spec fn problems(p: QueryParams) -> Seq<Seq<char>> {
    message_if(p.prefecture matches Some(t) && prefecture_param(t@) is None, prefecture_message())
        + message_if(p.tag matches Some(t) && tag_param(t@) is None, tag_message())
        + message_if(p.offset matches Some(t) && usize_of(t@) is None, offset_param_message())
        + message_if(p.limit matches Some(t) && limit_param(t@) is None, limit_message())
        + message_if(p.sort matches Some(t) && !is_sort_token(t@), sort_message())
}

/// A condition, as a kind and a value.
pub open spec fn condition_view(c: SearchCondition) -> (SearchType, Seq<char>) {
    (c.search_type, c.value@)
}

/// The condition that a given parameter makes, if it is given.
pub open spec fn condition_if(given: bool, t: SearchType, v: Seq<char>) -> Seq<
    (SearchType, Seq<char>),
> {
    if given {
        seq![(t, v)]
    } else {
        Seq::empty()
    }
}

/// The conditions of a request without problems: a prefecture, a tag and a name,
/// each where given, in that order.
pub open spec fn conditions_of(p: QueryParams) -> Seq<(SearchType, Seq<char>)> {
    condition_if(
        p.prefecture is Some,
        SearchType::Prefecture,
        match p.prefecture {
            Some(t) => match prefecture_param(t@) {
                Some(v) => v,
                None => Seq::empty(),
            },
            None => Seq::empty(),
        },
    ) + condition_if(
        p.tag is Some,
        SearchType::Tag,
        match p.tag {
            Some(t) => match tag_param(t@) {
                Some(v) => v,
                None => Seq::empty(),
            },
            None => Seq::empty(),
        },
    ) + condition_if(
        p.name is Some,
        SearchType::Name,
        match p.name {
            Some(t) => t@,
            None => Seq::empty(),
        },
    )
}

/// Checks the parameters of a search request and turns them into conditions, a
/// range and a sort token. Every problem found is reported, in the order of the
/// checks; without problems, the offset defaults to 0, the limit to none and the
/// sort to `id.asc`.
pub fn resolve_search(params: &QueryParams) -> (r: Result<ResolvedSearch, Vec<String>>)
    ensures
        match r {
            Ok(s) => {
                &&& problems(*params).len() == 0
                &&& s.conditions@.map_values(|c: SearchCondition| condition_view(c))
                    == conditions_of(*params)
                &&& s.range_condition.offset == match params.offset {
                    Some(t) => match usize_of(t@) {
                        Some(v) => v,
                        None => 0,
                    },
                    None => 0,
                }
                &&& s.range_condition.limit == match params.limit {
                    Some(t) => limit_param(t@),
                    None => None,
                }
                &&& s.sort_key@ == match params.sort {
                    Some(t) => t@,
                    None => "id.asc"@,
                }
            },
            Err(e) => problems(*params).len() > 0 && texts(e@) == problems(*params),
        },
{
    let mut conditions: Vec<SearchCondition> = Vec::new();
    let mut errors: Vec<String> = Vec::new();
    let ghost p = *params;

    let mut pref_bad = false;
    if let Some(t) = &params.prefecture {
        let found = match parse_u32(t.as_str()) {
            Some(k) => PrefectureMapper::new(k).to_prefecture(),
            None => Err(()),
        };
        match found {
            Ok(v) => {
                conditions.push(SearchCondition { search_type: SearchType::Prefecture, value: v });
            },
            Err(_) => {
                pref_bad = true;
                errors.push(String::from_str("不正な都道府県IDです"));
            },
        }
    }
    let ghost e1 = texts(errors@);
    assert(e1 =~= message_if(pref_bad, prefecture_message()));

    let mut tag_bad = false;
    if let Some(t) = &params.tag {
        let found = match parse_u32(t.as_str()) {
            Some(k) => TagMapper::new(k).to_tag(),
            None => Err(()),
        };
        match found {
            Ok(v) => {
                conditions.push(SearchCondition { search_type: SearchType::Tag, value: v });
            },
            Err(_) => {
                tag_bad = true;
                errors.push(String::from_str("不正なタグIDです。"));
            },
        }
    }
    let ghost e2 = texts(errors@);
    assert(e2 =~= e1 + message_if(tag_bad, tag_message()));

    if let Some(t) = &params.name {
        conditions.push(SearchCondition { search_type: SearchType::Name, value: t.clone() });
    }

    let mut offset: usize = 0;
    let mut offset_bad = false;
    if let Some(t) = &params.offset {
        match parse_usize(t.as_str()) {
            Some(v) => {
                offset = v;
            },
            None => {
                offset_bad = true;
                errors.push(String::from_str("offsetは0以上の整数を指定してください。"));
            },
        }
    }
    let ghost e3 = texts(errors@);
    assert(e3 =~= e2 + message_if(offset_bad, offset_param_message()));

    let mut limit: Option<usize> = None;
    let mut limit_bad = false;
    if let Some(t) = &params.limit {
        match parse_usize(t.as_str()) {
            Some(v) => {
                if v > 0 {
                    limit = Some(v);
                } else {
                    limit_bad = true;
                    errors.push(String::from_str("limitは1以上の整数を指定してください。"));
                }
            },
            None => {
                limit_bad = true;
                errors.push(String::from_str("limitは1以上の整数を指定してください。"));
            },
        }
    }
    let ghost e4 = texts(errors@);
    assert(e4 =~= e3 + message_if(limit_bad, limit_message()));

    let mut sort_key = String::from_str("id.asc");
    let mut sort_bad = false;
    if let Some(t) = &params.sort {
        let s = t.as_str();
        if same_text(s, "id.asc") || same_text(s, "id.desc") || same_text(s, "elevation.asc")
            || same_text(s, "elevation.desc") || same_text(s, "name.asc") || same_text(
            s,
            "name.desc",
        ) {
            sort_key = t.clone();
        } else {
            sort_bad = true;
            errors.push(String::from_str("不正なソート指定です。"));
        }
    }
    assert(texts(errors@) =~= e4 + message_if(sort_bad, sort_message()));
    assert(texts(errors@) == problems(p));

    if errors.len() > 0 {
        return Err(errors);
    }
    assert(conditions@.map_values(|c: SearchCondition| condition_view(c)) =~= conditions_of(p));
    Ok(
        ResolvedSearch {
            conditions,
            range_condition: RangeCondition { offset, limit },
            sort_key,
        },
    )
}

} // verus!
