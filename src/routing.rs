use vstd::prelude::*;

use crate::text::{has_prefix, parse_u32, same_text, starts_with, u32_of};

verus! {

/// What a request asks for.
#[derive(PartialEq, Eq, Structural, Clone, Copy, Debug)]
pub enum ResponseType {
    ApiInfo,
    Mountain,
    MountainList,
    Error,
}

/// `s` with every occurrence of `p` taken out, from left to right.
pub open spec fn erase_all(s: Seq<char>, p: Seq<char>) -> Seq<char>
    decreases s.len(),
{
    if s.len() == 0 || p.len() == 0 {
        s
    } else if has_prefix(s, p) {
        erase_all(s.subrange(p.len() as int, s.len() as int), p)
    } else {
        seq![s[0]] + erase_all(s.subrange(1, s.len() as int), p)
    }
}

/// What a request for `path`, with the path parameter `id`, asks for: the version
/// prefix does not count; the root gives the API's description, the list path the
/// search, and any other path one mountain where `id` is a number.
pub open spec fn route_of(path: Seq<char>, id: Seq<char>) -> ResponseType {
    let p = erase_all(path, "/api/v1"@);
    if p == ""@ || p == "/"@ {
        ResponseType::ApiInfo
    } else if p == "/mountains"@ || p == "/mountains/"@ {
        ResponseType::MountainList
    } else if u32_of(id) is Some {
        ResponseType::Mountain
    } else {
        ResponseType::Error
    }
}

/// `s` with every occurrence of `p` taken out.
pub fn erase_text(s: &str, p: &str) -> (r: String)
    ensures
        r@ == erase_all(s@, p@),
{
    let n = s.unicode_len();
    let pn = p.unicode_len();
    let mut out = String::new();
    if pn == 0 {
        return String::from_str(s);
    }
    let mut i: usize = 0;
    assert(s@.subrange(0, n as int) =~= s@);
    assert(out@ + erase_all(s@.subrange(0, n as int), p@) =~= erase_all(s@, p@));
    while i < n
        invariant
            n == s@.len(),
            pn == p@.len(),
            pn > 0,
            i <= n,
            out@ + erase_all(s@.subrange(i as int, n as int), p@) == erase_all(s@, p@),
        decreases n - i,
    {
        let rest = s.substring_char(i, n);
        let ghost r = rest@;
        if starts_with(rest, p) {
            assert(r.subrange(pn as int, r.len() as int) =~= s@.subrange(i + pn, n as int));
            i = i + pn;
        } else {
            let ghost before = out@;
            out.append(s.substring_char(i, i + 1));
            assert(s@.subrange(i as int, i + 1) =~= seq![r[0]]);
            assert(r.subrange(1, r.len() as int) =~= s@.subrange(i + 1, n as int));
            assert(out@ + erase_all(s@.subrange(i + 1, n as int), p@) =~= before + erase_all(r, p@));
            i = i + 1;
        }
    }
    assert(s@.subrange(n as int, n as int) =~= Seq::<char>::empty());
    assert(out@ + Seq::<char>::empty() =~= out@);
    out
}

/// What a request for `uri_path`, with the path parameter `mountain_id`, asks for.
pub fn response_type(uri_path: &String, mountain_id: &String) -> (r: ResponseType)
    ensures
        r == route_of(uri_path@, mountain_id@),
{
    let path = erase_text(uri_path.as_str(), "/api/v1");
    let p = path.as_str();
    if same_text(p, "") || same_text(p, "/") {
        ResponseType::ApiInfo
    } else if same_text(p, "/mountains") || same_text(p, "/mountains/") {
        ResponseType::MountainList
    } else {
        match parse_u32(mountain_id.as_str()) {
            Some(_) => ResponseType::Mountain,
            None => ResponseType::Error,
        }
    }
}

} // verus!
