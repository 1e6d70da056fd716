use vstd::prelude::*;

use crate::mountain_model::{
    agreeing_group, decode, lemma_decode_order_independent, lemma_first_id_uniform, mountains_view, rows_view, Mountain, MountainBaseMapper, MountainMapper, MountainView,
    Row, RowView,
};
use crate::text::{parse_u32, u32_of};

verus! {

/// The id under which a row is grouped: its id text read as a number, if it reads.
pub open spec fn key_of(r: RowView) -> Option<u32> {
    u32_of(r.id)
}

/// The ids that the rows carry, each once, in the order in which they first appear.
pub open spec fn ids_in_order(rows: Seq<RowView>) -> Seq<u32>
    decreases rows.len(),
{
    if rows.len() == 0 {
        Seq::empty()
    } else {
        let earlier = ids_in_order(rows.drop_last());
        match key_of(rows.last()) {
            Some(k) => if earlier.contains(k) {
                earlier
            } else {
                earlier.push(k)
            },
            None => earlier,
        }
    }
}

/// The rows that carry the id `k`, in their order.
pub open spec fn rows_with_id(rows: Seq<RowView>, k: u32) -> Seq<RowView> {
    rows.filter(|r: RowView| key_of(r) == Some(k))
}

/// The mountains that a table of rows describes: one for each id, in the order in
/// which the ids first appear, each put together from the rows of its id alone.
pub open spec fn grouped(rows: Seq<RowView>) -> Seq<MountainView> {
    ids_in_order(rows).map_values(|k: u32| decode(rows_with_id(rows, k)))
}

/// Whether `k` is among `v`.
fn holds_id(v: &Vec<u32>, k: u32) -> (r: bool)
    ensures
        r == v@.contains(k),
{
    let mut i: usize = 0;
    while i < v.len()
        invariant
            i <= v@.len(),
            forall|j: int| 0 <= j < i ==> v@[j] != k,
        decreases v@.len() - i,
    {
        if v[i] == k {
            return true;
        }
        i = i + 1;
    }
    false
}

/// The ids that the rows carry, each once, in the order in which they first appear.
pub fn distinct_ids(rows: &Vec<Row>) -> (r: Vec<u32>)
    ensures
        r@ == ids_in_order(rows_view(rows@)),
{
    let ghost all = rows_view(rows@);
    let mut ids: Vec<u32> = Vec::new();
    let mut i: usize = 0;
    assert(all.take(0) =~= Seq::<RowView>::empty());
    while i < rows.len()
        invariant
            all == rows_view(rows@),
            i <= rows@.len(),
            ids@ == ids_in_order(all.take(i as int)),
        decreases rows@.len() - i,
    {
        assert(all.take(i + 1).drop_last() =~= all.take(i as int));
        assert(all.take(i + 1).last() == rows@[i as int]@);
        if let Some(k) = parse_u32(rows[i].id.as_str()) {
            if !holds_id(&ids, k) {
                ids.push(k);
            }
        }
        i = i + 1;
    }
    assert(all.take(rows@.len() as int) =~= all);
    ids
}

/// The rows that carry the id `k`, in their order.
pub fn select_rows(rows: &Vec<Row>, k: u32) -> (r: Vec<Row>)
    ensures
        rows_view(r@) == rows_with_id(rows_view(rows@), k),
{
    let ghost all = rows_view(rows@);
    let mut out: Vec<Row> = Vec::new();
    let mut i: usize = 0;
    assert(all.take(0) =~= Seq::<RowView>::empty());
    assert(rows_view(out@) =~= Seq::<RowView>::empty());
    while i < rows.len()
        invariant
            all == rows_view(rows@),
            i <= rows@.len(),
            rows_view(out@) == rows_with_id(all.take(i as int), k),
        decreases rows@.len() - i,
    {
        assert(all.take(i + 1).drop_last() =~= all.take(i as int));
        assert(all.take(i + 1).last() == rows@[i as int]@);
        let matches_id = match parse_u32(rows[i].id.as_str()) {
            Some(v) => v == k,
            None => false,
        };
        proof {
            let t = all.take(i + 1);
            reveal(Seq::filter);
            assert(rows_with_id(t, k) == if key_of(t.last()) == Some(k) {
                rows_with_id(t.drop_last(), k).push(t.last())
            } else {
                rows_with_id(t.drop_last(), k)
            });
        }
        if matches_id {
            let ghost before = out@;
            out.push(rows[i].duplicate());
            assert(rows_view(out@) =~= rows_view(before).push(rows@[i as int]@));
        }
        i = i + 1;
    }
    assert(all.take(rows@.len() as int) =~= all);
    out
}

/// Puts together the mountains that a table of rows describes: the rows are grouped
/// by id, and each group becomes one mountain.
pub fn collect_mountains(rows: &Vec<Row>) -> (r: Vec<Mountain>)
    ensures
        mountains_view(r@) == grouped(rows_view(rows@)),
{
    let ghost all = rows_view(rows@);
    let ids = distinct_ids(rows);
    let mut out: Vec<Mountain> = Vec::new();
    let mut i: usize = 0;
    while i < ids.len()
        invariant
            all == rows_view(rows@),
            ids@ == ids_in_order(all),
            i <= ids@.len(),
            mountains_view(out@) == grouped(all).take(i as int),
        decreases ids@.len() - i,
    {
        let group = select_rows(rows, ids[i]);
        let mapper = MountainMapper::new(group);
        let m = mapper.to_mountain();
        let ghost before = out@;
        out.push(m);
        assert(mountains_view(out@) =~= mountains_view(before).push(m@));
        assert(grouped(all).take(i + 1) =~= grouped(all).take(i as int).push(m@));
        i = i + 1;
    }
    assert(grouped(all).take(ids@.len() as int) =~= grouped(all));
    out
}

/// The ids of a table are those that its rows carry, each once.
pub proof fn lemma_ids_in_order_contents(rows: Seq<RowView>)
    ensures
        ids_in_order(rows).no_duplicates(),
        forall|k: u32|
            ids_in_order(rows).contains(k) <==> exists|i: int|
                0 <= i < rows.len() && #[trigger] key_of(rows[i]) == Some(k),
    decreases rows.len(),
{
    if rows.len() > 0 {
        let front = rows.drop_last();
        lemma_ids_in_order_contents(front);
        let e = ids_in_order(front);
        assert forall|k: u32|
            ids_in_order(rows).contains(k) <==> exists|i: int|
                0 <= i < rows.len() && #[trigger] key_of(rows[i]) == Some(k) by {
            if exists|i: int| 0 <= i < rows.len() && #[trigger] key_of(rows[i]) == Some(k) {
                let i = choose|i: int| 0 <= i < rows.len() && #[trigger] key_of(rows[i]) == Some(k);
                if i < rows.len() - 1 {
                    assert(key_of(front[i]) == Some(k));
                } else {
                    assert(key_of(rows.last()) == Some(k));
                }
            }
            if e.contains(k) {
                let i = choose|i: int| 0 <= i < front.len() && #[trigger] key_of(front[i]) == Some(k);
                assert(key_of(rows[i]) == Some(k));
            }
            match key_of(rows.last()) {
                Some(l) => {
                    if !e.contains(l) {
                        assert(e.push(l).last() == l);
                        if e.push(l).contains(k) && k != l {
                            let j = choose|j: int| 0 <= j < e.len() + 1 && e.push(l)[j] == k;
                            assert(e[j] == k);
                        }
                        if e.contains(k) {
                            let j = choose|j: int| 0 <= j < e.len() && e[j] == k;
                            assert(e.push(l)[j] == k);
                        }
                        if k == l {
                            assert(e.push(l)[e.len() as int] == k);
                        }
                    }
                },
                None => {},
            }
        }
    }
}

/// The rows of id `k` all carry `k`, and each row that carries `k` is among them.
proof fn lemma_rows_with_id_contents(rows: Seq<RowView>, k: u32)
    ensures
        forall|i: int|
            0 <= i < rows_with_id(rows, k).len() ==> key_of(#[trigger] rows_with_id(rows, k)[i])
                == Some(k),
        forall|i: int|
            0 <= i < rows.len() && key_of(#[trigger] rows[i]) == Some(k) ==> rows_with_id(
                rows,
                k,
            ).contains(rows[i]),
{
    let p = |r: RowView| key_of(r) == Some(k);
    assert forall|i: int|
        0 <= i < rows_with_id(rows, k).len() implies key_of(
            #[trigger] rows_with_id(rows, k)[i],
        ) == Some(k) by {
        rows.lemma_filter_pred(p, i);
    }
    assert forall|i: int|
        0 <= i < rows.len() && key_of(#[trigger] rows[i]) == Some(k) implies rows_with_id(
            rows,
            k,
        ).contains(rows[i]) by {
        rows.lemma_filter_contains(p, i);
    }
}

/// The mountain of id `k` carries the id `k`, where some row carries it.
proof fn lemma_group_id(rows: Seq<RowView>, k: u32)
    requires
        exists|i: int| 0 <= i < rows.len() && #[trigger] key_of(rows[i]) == Some(k),
    ensures
        rows_with_id(rows, k).len() > 0,
        decode(rows_with_id(rows, k)).id == k,
{
    lemma_rows_with_id_contents(rows, k);
    let i = choose|i: int| 0 <= i < rows.len() && #[trigger] key_of(rows[i]) == Some(k);
    assert(rows_with_id(rows, k).contains(rows[i]));
    let g = rows_with_id(rows, k);
    assert forall|j: int| 0 <= j < g.len() implies u32_of((#[trigger] g[j]).id) == Some(k) by {
        assert(key_of(g[j]) == Some(k));
    }
    lemma_first_id_uniform(g, Some(k));
}

/// Grouping gives one mountain for each id, never two: the mountains carry the ids
/// that the rows carry, each once, and every row with an id has its mountain.
pub proof fn lemma_grouping_one_per_id(rows: Seq<RowView>)
    ensures
        forall|i: int, j: int|
            0 <= i < j < grouped(rows).len() ==> (#[trigger] grouped(rows)[i]).id != (
            #[trigger] grouped(rows)[j]).id,
        forall|i: int|
            0 <= i < rows.len() && key_of(#[trigger] rows[i]) is Some ==> exists|j: int|
                0 <= j < grouped(rows).len() && Some(#[trigger] grouped(rows)[j].id) == key_of(
                    rows[i],
                ),
{
    let ids = ids_in_order(rows);
    lemma_ids_in_order_contents(rows);
    assert forall|j: int| 0 <= j < ids.len() implies #[trigger] grouped(rows)[j].id == ids[j] by {
        assert(ids.contains(ids[j]));
        lemma_group_id(rows, ids[j]);
    }
    assert forall|i: int| 0 <= i < rows.len() && key_of(#[trigger] rows[i]) is Some implies exists|
        j: int,
    | 0 <= j < grouped(rows).len() && Some(#[trigger] grouped(rows)[j].id) == key_of(rows[i]) by {
        let k = key_of(rows[i])->0;
        assert(ids.contains(k));
        let j = choose|j: int| 0 <= j < ids.len() && ids[j] == k;
        assert(grouped(rows)[j].id == ids[j]);
    }
}

/// Rows of other ids never reach a mountain: adding rows whose id is not `k` to a
/// table leaves the mountain of id `k` as it was.
pub proof fn lemma_grouping_is_id_keyed(rows: Seq<RowView>, others: Seq<RowView>, k: u32)
    requires
        forall|i: int| 0 <= i < others.len() ==> key_of(#[trigger] others[i]) != Some(k),
    ensures
        rows_with_id(rows + others, k) == rows_with_id(rows, k),
        decode(rows_with_id(rows + others, k)) == decode(rows_with_id(rows, k)),
{
    let p = |r: RowView| key_of(r) == Some(k);
    Seq::filter_distributes_over_add(rows, others, p);
    others.lemma_all_neg_filter_empty(p);
    assert(rows.filter(p) + others.filter(p) =~= rows.filter(p));
}

/// A lookup by id agrees with the listing of the whole table: the rows of the id of
/// any listed mountain are not empty, and they make that very mountain.
pub proof fn lemma_lookup_matches_listing(rows: Seq<RowView>, i: int)
    requires
        0 <= i < grouped(rows).len(),
    ensures
        rows_with_id(rows, grouped(rows)[i].id).len() > 0,
        decode(rows_with_id(rows, grouped(rows)[i].id)) == grouped(rows)[i],
{
    let ids = ids_in_order(rows);
    lemma_ids_in_order_contents(rows);
    assert(ids.contains(ids[i]));
    lemma_group_id(rows, ids[i]);
}

/// A lookup by id that returns the rows of a listed mountain in another order still
/// gives that mountain, where those rows agree: the same id and single-valued
/// fields, and the same prefectures and tags.
pub proof fn lemma_lookup_in_any_order(rows: Seq<RowView>, i: int, found: Seq<RowView>)
    requires
        0 <= i < grouped(rows).len(),
        found.to_multiset() == rows_with_id(rows, grouped(rows)[i].id).to_multiset(),
        agreeing_group(rows_with_id(rows, grouped(rows)[i].id)),
    ensures
        ({
            let m = grouped(rows)[i];
            let d = decode(found);
            &&& d.id == m.id
            &&& d.name == m.name
            &&& d.name_kana == m.name_kana
            &&& d.area == m.area
            &&& d.elevation == m.elevation
            &&& d.location == m.location
            &&& d.prefectures.to_set() == m.prefectures.to_set()
            &&& d.tags.to_set() == m.tags.to_set()
        }),
{
    lemma_lookup_matches_listing(rows, i);
    lemma_decode_order_independent(rows_with_id(rows, grouped(rows)[i].id), found);
}

} // verus!
