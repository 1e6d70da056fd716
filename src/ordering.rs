use vstd::multiset::Multiset;
use vstd::prelude::*;

use crate::mountain_model::{mountains_view, Mountain, MountainView};
use crate::text::same_text;

verus! {

/// The six orders in which a list of mountains can be given.
#[derive(PartialEq, Eq, Structural, Clone, Copy, Debug)]
pub enum SortOrder {
    IdAsc,
    IdDesc,
    ElevationAsc,
    ElevationDesc,
    NameAsc,
    NameDesc,
}

/// The order that a sort token names; `id.asc` for any other text.
pub open spec fn order_of(t: Seq<char>) -> SortOrder {
    if t == "id.desc"@ {
        SortOrder::IdDesc
    } else if t == "elevation.asc"@ {
        SortOrder::ElevationAsc
    } else if t == "elevation.desc"@ {
        SortOrder::ElevationDesc
    } else if t == "name.asc"@ {
        SortOrder::NameAsc
    } else if t == "name.desc"@ {
        SortOrder::NameDesc
    } else {
        SortOrder::IdAsc
    }
}

/// The order that a sort token names; `id.asc` for any other text.
pub fn sort_order(t: &str) -> (r: SortOrder)
    ensures
        r == order_of(t@),
{
    if same_text(t, "id.desc") {
        SortOrder::IdDesc
    } else if same_text(t, "elevation.asc") {
        SortOrder::ElevationAsc
    } else if same_text(t, "elevation.desc") {
        SortOrder::ElevationDesc
    } else if same_text(t, "name.asc") {
        SortOrder::NameAsc
    } else if same_text(t, "name.desc") {
        SortOrder::NameDesc
    } else {
        SortOrder::IdAsc
    }
}

/// Lexicographic order of texts by the code points of their characters: `a` comes
/// no later than `b`. (This is the order of their UTF-8 bytes.)
pub open spec fn text_le(a: Seq<char>, b: Seq<char>) -> bool
    decreases a.len(),
{
    if a.len() == 0 {
        true
    } else if b.len() == 0 {
        false
    } else if a[0] != b[0] {
        a[0] < b[0]
    } else {
        text_le(a.subrange(1, a.len() as int), b.subrange(1, b.len() as int))
    }
}

/// Whether `a` may stand before `b` in order `o`.
pub open spec fn in_order(o: SortOrder, a: MountainView, b: MountainView) -> bool {
    match o {
        SortOrder::IdAsc => a.id <= b.id,
        SortOrder::IdDesc => b.id <= a.id,
        SortOrder::ElevationAsc => a.elevation <= b.elevation,
        SortOrder::ElevationDesc => b.elevation <= a.elevation,
        SortOrder::NameAsc => text_le(a.name_kana, b.name_kana),
        SortOrder::NameDesc => text_le(b.name_kana, a.name_kana),
    }
}

/// Whether every mountain of `s` may stand before each that follows it, in order `o`.
pub open spec fn sorted_by(o: SortOrder, s: Seq<MountainView>) -> bool {
    forall|i: int, j: int| 0 <= i < j < s.len() ==> in_order(o, #[trigger] s[i], #[trigger] s[j])
}

/// Whether `a` and `b` are tied in order `o`: each may stand before the other.
pub open spec fn tied(o: SortOrder, a: MountainView, b: MountainView) -> bool {
    in_order(o, a, b) && in_order(o, b, a)
}

/// The mountains of `s` that are tied with `x` in order `o`, in the order of `s`.
pub open spec fn ties_of(o: SortOrder, s: Seq<MountainView>, x: MountainView) -> Seq<MountainView> {
    s.filter(|m: MountainView| tied(o, m, x))
}

/// Whether `s` keeps the mountains that are tied in order `o` as `t` has them.
pub open spec fn keeps_ties(o: SortOrder, s: Seq<MountainView>, t: Seq<MountainView>) -> bool {
    forall|x: MountainView| #[trigger] ties_of(o, s, x) == ties_of(o, t, x)
}

/// Inserting `m` before the mountains before which it may not stand puts it after
/// every mountain tied with it.
proof fn lemma_insert_keeps_ties(o: SortOrder, pv: Seq<MountainView>, j: int, m: MountainView, x: MountainView)
    requires
        0 <= j <= pv.len(),
        forall|k: int| j <= k < pv.len() ==> !in_order(o, #[trigger] pv[k], m),
    ensures
        ties_of(o, pv.insert(j, m), x) == if tied(o, m, x) {
            ties_of(o, pv, x).push(m)
        } else {
            ties_of(o, pv, x)
        },
{
    let p = |v: MountainView| tied(o, v, x);
    let front = pv.subrange(0, j);
    let back = pv.subrange(j, pv.len() as int);
    assert(pv.insert(j, m) == front.push(m) + back);
    assert(pv =~= front + back);
    Seq::filter_distributes_over_add(front.push(m), back, p);
    Seq::filter_distributes_over_add(front, back, p);
    front.lemma_filter_push(m, p);
    if tied(o, m, x) {
        assert forall|k: int| 0 <= k < back.len() implies !p(#[trigger] back[k]) by {
            assert(back[k] == pv[j + k]);
            if tied(o, back[k], x) {
                lemma_in_order_transitive(o, back[k], x, m);
            }
        }
        back.lemma_all_neg_filter_empty(p);
        assert(front.filter(p).push(m) + back.filter(p) =~= front.filter(p).push(m));
    }
}

/// Any two texts are comparable.
pub proof fn lemma_text_le_total(a: Seq<char>, b: Seq<char>)
    ensures
        text_le(a, b) || text_le(b, a),
    decreases a.len(),
{
    if a.len() > 0 && b.len() > 0 && a[0] == b[0] {
        lemma_text_le_total(a.subrange(1, a.len() as int), b.subrange(1, b.len() as int));
    }
}

/// The order of texts is transitive.
pub proof fn lemma_text_le_transitive(a: Seq<char>, b: Seq<char>, c: Seq<char>)
    requires
        text_le(a, b),
        text_le(b, c),
    ensures
        text_le(a, c),
    decreases a.len(),
{
    if a.len() > 0 && b.len() > 0 && c.len() > 0 && a[0] == b[0] && b[0] == c[0] {
        lemma_text_le_transitive(
            a.subrange(1, a.len() as int),
            b.subrange(1, b.len() as int),
            c.subrange(1, c.len() as int),
        );
    }
}

/// Each of the six orders is total: of two mountains, one may stand before the other.
pub proof fn lemma_in_order_total(o: SortOrder, a: MountainView, b: MountainView)
    ensures
        in_order(o, a, b) || in_order(o, b, a),
{
    lemma_text_le_total(a.name_kana, b.name_kana);
}

/// Each of the six orders is transitive.
pub proof fn lemma_in_order_transitive(
    o: SortOrder,
    a: MountainView,
    b: MountainView,
    c: MountainView,
)
    requires
        in_order(o, a, b),
        in_order(o, b, c),
    ensures
        in_order(o, a, c),
{
    match o {
        SortOrder::NameAsc => lemma_text_le_transitive(a.name_kana, b.name_kana, c.name_kana),
        SortOrder::NameDesc => lemma_text_le_transitive(c.name_kana, b.name_kana, a.name_kana),
        _ => {},
    }
}

/// Whether text `a` comes no later than text `b`.
pub fn text_no_later(a: &str, b: &str) -> (r: bool)
    ensures
        r == text_le(a@, b@),
{
    let n = a.unicode_len();
    let m = b.unicode_len();
    let mut i: usize = 0;
    assert(a@.subrange(0, n as int) =~= a@);
    assert(b@.subrange(0, m as int) =~= b@);
    while i < n && i < m
        invariant
            n == a@.len(),
            m == b@.len(),
            i <= n,
            i <= m,
            text_le(a@, b@) == text_le(
                a@.subrange(i as int, n as int),
                b@.subrange(i as int, m as int),
            ),
        decreases n - i,
    {
        let ca = a.get_char(i);
        let cb = b.get_char(i);
        let ghost sa = a@.subrange(i as int, n as int);
        let ghost sb = b@.subrange(i as int, m as int);
        assert(sa[0] == ca && sb[0] == cb);
        if ca != cb {
            return ca < cb;
        }
        assert(sa.subrange(1, sa.len() as int) =~= a@.subrange(i + 1, n as int));
        assert(sb.subrange(1, sb.len() as int) =~= b@.subrange(i + 1, m as int));
        i = i + 1;
    }
    i == n
}

/// Whether `a` may stand before `b` in order `o`.
pub fn may_precede(o: SortOrder, a: &Mountain, b: &Mountain) -> (r: bool)
    ensures
        r == in_order(o, a@, b@),
{
    match o {
        SortOrder::IdAsc => a.id <= b.id,
        SortOrder::IdDesc => b.id <= a.id,
        SortOrder::ElevationAsc => a.elevation <= b.elevation,
        SortOrder::ElevationDesc => b.elevation <= a.elevation,
        SortOrder::NameAsc => text_no_later(a.name_kana.as_str(), b.name_kana.as_str()),
        SortOrder::NameDesc => text_no_later(b.name_kana.as_str(), a.name_kana.as_str()),
    }
}

/// Sorts the mountains in the order that `sort_key` names (`id.asc` where it names
/// none). The sort is stable: tied mountains keep the order they had.
pub fn sort_mountains(mountains: &mut Vec<Mountain>, sort_key: &String)
    ensures
        final(mountains)@.to_multiset() == old(mountains)@.to_multiset(),
        sorted_by(order_of(sort_key@), mountains_view(final(mountains)@)),
        keeps_ties(
            order_of(sort_key@),
            mountains_view(final(mountains)@),
            mountains_view(old(mountains)@),
        ),
{
    let o = sort_order(sort_key.as_str());
    let ghost start = mountains@;
    let mut rest = mountains.split_off(0);
    assert(rest@ =~= start);
    proof {
        broadcast use vstd::seq_lib::group_to_multiset_ensures;
        broadcast use vstd::multiset::lemma_multiset_empty_len;

        assert(mountains@.to_multiset().len() == 0);
        assert(mountains@.to_multiset().add(rest@.to_multiset()) =~= start.to_multiset());
    }
    let ghost mut done: int = 0;
    assert(rest@ =~= start.subrange(0, start.len() as int));
    assert forall|x: MountainView|
        #[trigger] ties_of(o, mountains_view(mountains@), x) == ties_of(
            o,
            mountains_view(start).take(0),
            x,
        ) by {
        reveal(Seq::filter);
        assert(mountains_view(mountains@) =~= Seq::<MountainView>::empty());
        assert(mountains_view(start).take(0) =~= Seq::<MountainView>::empty());
    }
    while rest.len() > 0
        invariant
            mountains@.to_multiset().add(rest@.to_multiset()) == start.to_multiset(),
            sorted_by(o, mountains_view(mountains@)),
            0 <= done <= start.len(),
            rest@ == start.subrange(done, start.len() as int),
            forall|x: MountainView|
                #[trigger] ties_of(o, mountains_view(mountains@), x) == ties_of(
                    o,
                    mountains_view(start).take(done),
                    x,
                ),
        decreases rest@.len(),
    {
        let ghost rest_before = rest@;
        let ghost placed = mountains@;
        let m = rest.remove(0);
        proof {
            vstd::seq_lib::to_multiset_remove(rest_before, 0);
        }
        let mut j: usize = mountains.len();
        while j > 0 && !may_precede(o, &mountains[j - 1], &m)
            invariant
                mountains@ == placed,
                j <= placed.len(),
                forall|k: int| j <= k < placed.len() ==> !in_order(o, #[trigger] placed[k]@, m@),
            decreases j,
        {
            j = j - 1;
        }
        proof {
            let pv = mountains_view(placed);
            assert forall|k: int| 0 <= k < j implies in_order(o, #[trigger] pv[k], m@) by {
                if k < j - 1 {
                    lemma_in_order_transitive(o, pv[k], pv[j - 1], m@);
                }
            }
            assert forall|k: int| j <= k < placed.len() implies in_order(o, m@, #[trigger] pv[k]) by {
                lemma_in_order_total(o, m@, pv[k]);
            }
        }
        mountains.insert(j, m);
        proof {
            vstd::seq_lib::to_multiset_insert(placed, j as int, m);
            let pv = mountains_view(placed);
            let nv = mountains_view(mountains@);
            assert(nv =~= pv.insert(j as int, m@));
            assert forall|a: int, b: int| 0 <= a < b < nv.len() implies in_order(
                o,
                #[trigger] nv[a],
                #[trigger] nv[b],
            ) by {
                if a < j && b > j {
                    lemma_in_order_transitive(o, nv[a], m@, nv[b]);
                }
            }
            assert(mountains@ == placed.insert(j as int, m));
            assert(mountains@.to_multiset() == placed.to_multiset().insert(m));
            assert(rest@.to_multiset() == rest_before.to_multiset().remove(m));
            assert(rest_before.to_multiset().count(m) > 0) by {
                broadcast use vstd::seq_lib::group_to_multiset_ensures;

                assert(rest_before[0] == m);
                assert(rest_before.contains(m));
            }
            assert(mountains@.to_multiset().add(rest@.to_multiset()) =~= start.to_multiset());
            let sv = mountains_view(start);
            assert(m == start[done]);
            assert(sv.take(done + 1) =~= sv.take(done).push(m@));
            assert forall|x: MountainView|
                #[trigger] ties_of(o, nv, x) == ties_of(o, sv.take(done + 1), x) by {
                lemma_insert_keeps_ties(o, pv, j as int, m@, x);
                sv.take(done).lemma_filter_push(m@, |v: MountainView| tied(o, v, x));
            }
            assert(rest@ =~= start.subrange(done + 1, start.len() as int));
            done = done + 1;
        }
    }
    proof {
        broadcast use vstd::seq_lib::group_to_multiset_ensures;
        broadcast use vstd::multiset::lemma_multiset_empty_len;

        assert(rest@.to_multiset().len() == 0);
        assert(mountains@.to_multiset() =~= start.to_multiset());
        assert(done == start.len());
        assert(mountains_view(start).take(done) =~= mountains_view(start));
    }
}

} // verus!
