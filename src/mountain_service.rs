use vstd::prelude::*;

use crate::grouping::{
    collect_mountains, grouped, ids_in_order, lemma_grouping_one_per_id,
    lemma_lookup_matches_listing, rows_with_id,
};
use crate::mountain_model::{
    decode, lemma_first_id_uniform, mountains_view, rows_view, Mountain, MountainBaseMapper, MountainMapper, MountainView,
    Row, RowView,
};
use crate::ordering::{keeps_ties, order_of, sort_mountains, sorted_by, SortOrder};
use crate::text::{contains_text, texts, u32_of};

verus! {

/// The kinds of search condition.
#[derive(PartialEq, Eq, Structural, Clone, Copy, Debug)]
pub enum SearchType {
    Name,
    Prefecture,
    Tag,
}

/// One search condition: its kind, and the value to look up, in the form the
/// store holds it.
pub struct SearchCondition {
    pub search_type: SearchType,
    pub value: String,
}

/// Which part of a list to hand out: from `offset`, at most `limit` items.
pub struct RangeCondition {
    pub offset: usize,
    pub limit: Option<usize>,
}

/// The texts of `s`, each once, in the order in which they first appear.
pub open spec fn distinct(s: Seq<Seq<char>>) -> Seq<Seq<char>>
    decreases s.len(),
{
    if s.len() == 0 {
        Seq::empty()
    } else {
        let earlier = distinct(s.drop_last());
        if earlier.contains(s.last()) {
            earlier
        } else {
            earlier.push(s.last())
        }
    }
}

/// The ids of `base` that `target` holds too, in the order of `base`.
pub open spec fn merged(base: Seq<Seq<char>>, target: Seq<Seq<char>>) -> Seq<Seq<char>> {
    base.filter(|x: Seq<char>| target.contains(x))
}

/// The ids that every candidate list holds: those of the first list, each once, that
/// each later list holds too. No list gives no id.
pub open spec fn common_ids(c: Seq<Seq<Seq<char>>>) -> Seq<Seq<char>>
    decreases c.len(),
{
    if c.len() == 0 {
        Seq::empty()
    } else if c.len() == 1 {
        distinct(c[0])
    } else {
        merged(common_ids(c.drop_last()), c.last())
    }
}

/// The id texts of `rows`, each once, in the order in which they first appear.
pub open spec fn row_ids(rows: Seq<RowView>) -> Seq<Seq<char>> {
    distinct(rows.map_values(|r: RowView| r.id))
}

/// The ids that one lookup found: none where it failed.
pub open spec fn found_ids(found: Result<Vec<Row>, ()>) -> Seq<Seq<char>> {
    match found {
        Ok(rows) => row_ids(rows_view(rows@)),
        Err(_) => Seq::empty(),
    }
}

/// The ids that the lookup at `i` found; none where there is no such lookup.
pub open spec fn found_at(found: Seq<Result<Vec<Row>, ()>>, i: int) -> Seq<Seq<char>> {
    if 0 <= i < found.len() {
        found_ids(found[i])
    } else {
        Seq::empty()
    }
}

/// The candidates of one condition, from what its lookups found: for a name, those
/// whose name or whose kana matched; for a prefecture or a tag, those of its lookup.
pub open spec fn category_candidates(t: SearchType, found: Seq<Result<Vec<Row>, ()>>) -> Seq<
    Seq<char>,
> {
    match t {
        SearchType::Name => distinct(found_at(found, 0) + found_at(found, 1)),
        _ => found_at(found, 0),
    }
}

/// Adds the texts of `more` that `acc` lacks to its end, in their order.
fn push_new(acc: &mut Vec<String>, more: &Vec<String>)
    ensures
        texts(old(acc)@) == distinct(texts(old(acc)@)) ==> texts(final(acc)@) == distinct(
            texts(old(acc)@) + texts(more@),
        ),
{
    let ghost start = texts(acc@);
    let mut i: usize = 0;
    while i < more.len()
        invariant
            i <= more@.len(),
            start == distinct(start) ==> texts(acc@) == distinct(start + texts(more@).take(i as int)),
        decreases more@.len() - i,
    {
        let ghost before = texts(acc@);
        let ghost s = start + texts(more@).take(i + 1);
        assert(s.drop_last() =~= start + texts(more@).take(i as int));
        assert(s.last() == more@[i as int]@);
        if !contains_text(acc, &more[i]) {
            acc.push(more[i].clone());
            assert(texts(acc@) =~= before.push(more@[i as int]@));
        }
        i = i + 1;
    }
    assert(texts(more@).take(more@.len() as int) =~= texts(more@));
}

/// The ids of either list, each once: those of `first` in their order, then those
/// of `second` that `first` lacks.
pub fn union_ids(first: &Vec<String>, second: &Vec<String>) -> (r: Vec<String>)
    ensures
        texts(r@) == distinct(texts(first@) + texts(second@)),
{
    let mut acc: Vec<String> = Vec::new();
    assert(texts(acc@) =~= Seq::<Seq<char>>::empty());
    assert(distinct(Seq::<Seq<char>>::empty()) == Seq::<Seq<char>>::empty());
    push_new(&mut acc, first);
    assert(Seq::<Seq<char>>::empty() + texts(first@) =~= texts(first@));
    proof {
        lemma_distinct_idempotent(texts(first@));
    }
    push_new(&mut acc, second);
    proof {
        lemma_distinct_append(texts(first@), texts(second@));
    }
    acc
}

/// Taking repeated ids out twice changes nothing.
proof fn lemma_distinct_idempotent(s: Seq<Seq<char>>)
    ensures
        distinct(distinct(s)) == distinct(s),
    decreases s.len(),
{
    if s.len() > 0 {
        lemma_distinct_idempotent(s.drop_last());
        let e = distinct(s.drop_last());
        if !e.contains(s.last()) {
            lemma_distinct_contents(s.drop_last());
            assert(e.push(s.last()).drop_last() =~= e);
        }
    }
}

/// What `distinct` keeps: every text of `s`, no other, and none twice.
pub proof fn lemma_distinct_contents(s: Seq<Seq<char>>)
    ensures
        forall|x: Seq<char>| distinct(s).contains(x) <==> s.contains(x),
        distinct(s).no_duplicates(),
    decreases s.len(),
{
    if s.len() > 0 {
        lemma_distinct_contents(s.drop_last());
        let e = distinct(s.drop_last());
        assert forall|x: Seq<char>| distinct(s).contains(x) <==> s.contains(x) by {
            if s.contains(x) && x != s.last() {
                let i = choose|i: int| 0 <= i < s.len() && s[i] == x;
                assert(s.drop_last()[i] == x);
            }
            if s.drop_last().contains(x) {
                let i = choose|i: int| 0 <= i < s.len() - 1 && s.drop_last()[i] == x;
                assert(s[i] == x);
            }
            if !e.contains(s.last()) {
                assert(e.push(s.last()).last() == s.last());
                if e.push(s.last()).contains(x) && x != s.last() {
                    let i = choose|i: int| 0 <= i < e.len() + 1 && e.push(s.last())[i] == x;
                    assert(e[i] == x);
                }
                if e.contains(x) {
                    let i = choose|i: int| 0 <= i < e.len() && e[i] == x;
                    assert(e.push(s.last())[i] == x);
                }
            }
        }
    }
}

/// Appending a list to one with no repeats gives the same as taking the repeats
/// out of the two together, once the first has none.
proof fn lemma_distinct_append(a: Seq<Seq<char>>, b: Seq<Seq<char>>)
    ensures
        distinct(distinct(a) + b) == distinct(a + b),
    decreases b.len(),
{
    if b.len() == 0 {
        assert(distinct(a) + b =~= distinct(a));
        assert(a + b =~= a);
        lemma_distinct_idempotent(a);
    } else {
        lemma_distinct_append(a, b.drop_last());
        assert((distinct(a) + b).drop_last() =~= distinct(a) + b.drop_last());
        assert((a + b).drop_last() =~= a + b.drop_last());
        assert((distinct(a) + b).last() == b.last());
        assert((a + b).last() == b.last());
    }
}

/// Keeps in `base` the ids that `target` holds too, in their order: `base` becomes
/// the intersection of the two.
pub fn merge_result(base: &mut Vec<String>, target: &Vec<String>)
    ensures
        texts(final(base)@) == merged(texts(old(base)@), texts(target@)),
{
    let ghost start = texts(base@);
    let mut kept: Vec<String> = Vec::new();
    let mut i: usize = 0;
    assert(start.take(0) =~= Seq::<Seq<char>>::empty());
    assert(texts(kept@) =~= Seq::<Seq<char>>::empty());
    while i < base.len()
        invariant
            start == texts(base@),
            i <= base@.len(),
            texts(kept@) == merged(start.take(i as int), texts(target@)),
        decreases base@.len() - i,
    {
        let ghost before = texts(kept@);
        let ghost t = start.take(i + 1);
        assert(t.drop_last() =~= start.take(i as int));
        assert(t.last() == base@[i as int]@);
        proof {
            reveal(Seq::filter);
        }
        if contains_text(target, &base[i]) {
            kept.push(base[i].clone());
            assert(texts(kept@) =~= before.push(base@[i as int]@));
        }
        i = i + 1;
    }
    assert(start.take(base@.len() as int) =~= start);
    *base = kept;
}

/// The views of a list of candidate lists.
pub open spec fn candidates_view(c: Seq<Vec<String>>) -> Seq<Seq<Seq<char>>> {
    c.map_values(|v: Vec<String>| texts(v@))
}

/// The ids that every candidate list holds, each once.
pub fn matching_ids(candidates: &Vec<Vec<String>>) -> (r: Vec<String>)
    ensures
        texts(r@) == common_ids(candidates_view(candidates@)),
{
    let ghost cv = candidates_view(candidates@);
    if candidates.len() == 0 {
        let none: Vec<String> = Vec::new();
        assert(texts(none@) =~= Seq::<Seq<char>>::empty());
        return none;
    }
    let empty: Vec<String> = Vec::new();
    let mut acc = union_ids(&candidates[0], &empty);
    assert(texts(candidates@[0]@) + texts(empty@) =~= cv[0]);
    assert(cv.take(1).len() == 1 && cv.take(1)[0] == cv[0]);
    let mut i: usize = 1;
    while i < candidates.len()
        invariant
            cv == candidates_view(candidates@),
            1 <= i <= candidates@.len(),
            texts(acc@) == common_ids(cv.take(i as int)),
        decreases candidates@.len() - i,
    {
        assert(cv.take(i + 1).drop_last() =~= cv.take(i as int));
        assert(cv.take(i + 1).last() == texts(candidates@[i as int]@));
        merge_result(&mut acc, &candidates[i]);
        i = i + 1;
    }
    assert(cv.take(candidates@.len() as int) =~= cv);
    acc
}

/// What `merged` keeps: the ids of `base` that `target` holds, no other; and no id
/// twice where `base` has none twice.
pub proof fn lemma_merged_contents(base: Seq<Seq<char>>, target: Seq<Seq<char>>)
    ensures
        forall|x: Seq<char>|
            merged(base, target).contains(x) <==> base.contains(x) && target.contains(x),
        base.no_duplicates() ==> merged(base, target).no_duplicates(),
    decreases base.len(),
{
    reveal(Seq::filter);
    if base.len() > 0 {
        let front = base.drop_last();
        let last = base.last();
        lemma_merged_contents(front, target);
        let m = merged(front, target);
        assert(merged(base, target) == if target.contains(last) {
            m.push(last)
        } else {
            m
        });
        assert forall|x: Seq<char>|
            merged(base, target).contains(x) <==> base.contains(x) && target.contains(x) by {
            if base.contains(x) && x != last {
                let i = choose|i: int| 0 <= i < base.len() && base[i] == x;
                assert(front[i] == x);
            }
            if front.contains(x) {
                let i = choose|i: int| 0 <= i < front.len() && front[i] == x;
                assert(base[i] == x);
            }
            if target.contains(last) {
                if m.push(last).contains(x) && x != last {
                    let i = choose|i: int| 0 <= i < m.len() + 1 && m.push(last)[i] == x;
                    assert(m[i] == x);
                }
                if m.contains(x) {
                    let i = choose|i: int| 0 <= i < m.len() && m[i] == x;
                    assert(m.push(last)[i] == x);
                }
                assert(m.push(last)[m.len() as int] == last);
            }
            assert(base[base.len() - 1] == last);
        }
        if base.no_duplicates() {
            assert(front.no_duplicates());
            if target.contains(last) {
                assert(!front.contains(last)) by {
                    if front.contains(last) {
                        let i = choose|i: int| 0 <= i < front.len() && front[i] == last;
                        assert(base[i] == base[base.len() - 1]);
                    }
                }
                assert(!m.contains(last));
                assert forall|i: int, j: int|
                    0 <= i < j < m.len() + 1 implies m.push(last)[i] != m.push(last)[j] by {
                    if j == m.len() {
                        assert(m.contains(m[i]));
                    }
                }
            }
        }
    }
}

/// What `common_ids` keeps: the ids that every candidate list holds, each once.
pub proof fn lemma_common_ids_contents(c: Seq<Seq<Seq<char>>>)
    requires
        c.len() > 0,
    ensures
        common_ids(c).no_duplicates(),
        forall|x: Seq<char>|
            common_ids(c).contains(x) <==> forall|i: int|
                0 <= i < c.len() ==> (#[trigger] c[i]).contains(x),
    decreases c.len(),
{
    if c.len() == 1 {
        lemma_distinct_contents(c[0]);
    } else {
        let front = c.drop_last();
        lemma_common_ids_contents(front);
        lemma_merged_contents(common_ids(front), c.last());
        assert forall|x: Seq<char>|
            common_ids(c).contains(x) <==> forall|i: int|
                0 <= i < c.len() ==> (#[trigger] c[i]).contains(x) by {
            if forall|i: int| 0 <= i < c.len() ==> (#[trigger] c[i]).contains(x) {
                assert forall|i: int| 0 <= i < front.len() implies (#[trigger] front[i]).contains(
                    x,
                ) by {
                    assert(c[i] == front[i]);
                }
                assert(c[c.len() - 1] == c.last());
            }
            if common_ids(c).contains(x) {
                assert forall|i: int| 0 <= i < c.len() implies (#[trigger] c[i]).contains(x) by {
                    if i < c.len() - 1 {
                        assert(front[i] == c[i]);
                    }
                }
            }
        }
    }
}

/// The intersection is commutative: merging `a` with `b` keeps the same ids as
/// merging `b` with `a`.
pub proof fn lemma_merge_commutes(a: Seq<Seq<char>>, b: Seq<Seq<char>>)
    ensures
        merged(a, b).to_set() == merged(b, a).to_set(),
{
    lemma_merged_contents(a, b);
    lemma_merged_contents(b, a);
    assert(merged(a, b).to_set() =~= merged(b, a).to_set());
}

/// The intersection is associative: merging `a` with `b`, then with `c`, gives the
/// same list as merging `a` with what `b` and `c` have in common.
pub proof fn lemma_merge_associates(a: Seq<Seq<char>>, b: Seq<Seq<char>>, c: Seq<Seq<char>>)
    ensures
        merged(merged(a, b), c) == merged(a, merged(b, c)),
    decreases a.len(),
{
    reveal(Seq::filter);
    lemma_merged_contents(b, c);
    if a.len() > 0 {
        lemma_merge_associates(a.drop_last(), b, c);
        let x = a.last();
        lemma_merged_contents(a.drop_last(), b);
        let ab = merged(a, b);
        if b.contains(x) {
            assert(ab.drop_last() == merged(a.drop_last(), b));
            assert(ab.last() == x);
        } else {
            assert(ab == merged(a.drop_last(), b));
        }
    }
}

/// The order of the conditions does not matter: two lists of candidate lists that
/// hold the same lists, each as often, keep the same ids.
pub proof fn lemma_common_ids_order_independent(c1: Seq<Seq<Seq<char>>>, c2: Seq<Seq<Seq<char>>>)
    requires
        c1.to_multiset() == c2.to_multiset(),
    ensures
        common_ids(c1).to_set() == common_ids(c2).to_set(),
{
    broadcast use vstd::seq_lib::group_to_multiset_ensures;

    vstd::seq_lib::to_multiset_len(c1);
    vstd::seq_lib::to_multiset_len(c2);
    if c1.len() == 0 {
        assert(common_ids(c1).to_set() =~= common_ids(c2).to_set());
    } else {
        lemma_common_ids_contents(c1);
        lemma_common_ids_contents(c2);
        assert forall|x: Seq<char>| common_ids(c1).contains(x) <==> common_ids(c2).contains(x) by {
            if common_ids(c1).contains(x) {
                assert forall|j: int| 0 <= j < c2.len() implies (#[trigger] c2[j]).contains(x) by {
                    assert(c2.to_multiset().count(c2[j]) > 0);
                    assert(c1.contains(c2[j]));
                    let i = choose|i: int| 0 <= i < c1.len() && c1[i] == c2[j];
                    assert(c1[i].contains(x));
                }
            }
            if common_ids(c2).contains(x) {
                assert forall|i: int| 0 <= i < c1.len() implies (#[trigger] c1[i]).contains(x) by {
                    assert(c1.to_multiset().count(c1[i]) > 0);
                    assert(c2.contains(c1[i]));
                    let j = choose|j: int| 0 <= j < c2.len() && c2[j] == c1[i];
                    assert(c2[j].contains(x));
                }
            }
        }
        assert(common_ids(c1).to_set() =~= common_ids(c2).to_set());
    }
}

/// Whether the id `x` satisfies condition `i`, by what its lookups found: a name
/// matched by the name or by the kana; a prefecture or a tag by its lookup.
pub open spec fn satisfies(
    x: Seq<char>,
    conditions: Seq<SearchCondition>,
    found: Seq<Vec<Result<Vec<Row>, ()>>>,
    i: int,
) -> bool {
    match conditions[i].search_type {
        SearchType::Name => found_at(found_for(found, i), 0).contains(x) || found_at(
            found_for(found, i),
            1,
        ).contains(x),
        _ => found_at(found_for(found, i), 0).contains(x),
    }
}

/// A search keeps the ids that satisfy every condition, and only those: within a
/// name condition the matches of the name and of the kana are united; the
/// conditions are intersected. No condition keeps no id.
pub proof fn lemma_search_ids_contents(
    conditions: Seq<SearchCondition>,
    found: Seq<Vec<Result<Vec<Row>, ()>>>,
)
    ensures
        common_ids(candidates_of(conditions, found)).no_duplicates(),
        forall|x: Seq<char>|
            common_ids(candidates_of(conditions, found)).contains(x) <==> (conditions.len() > 0
                && forall|i: int|
                0 <= i < conditions.len() ==> #[trigger] satisfies(x, conditions, found, i)),
{
    let c = candidates_of(conditions, found);
    if conditions.len() == 0 {
        assert(common_ids(c) =~= Seq::<Seq<char>>::empty());
    } else {
        lemma_common_ids_contents(c);
        assert forall|i: int| 0 <= i < c.len() implies forall|x: Seq<char>|
            (#[trigger] c[i]).contains(x) == satisfies(x, conditions, found, i) by {
            let f = found_for(found, i);
            lemma_distinct_contents(found_at(f, 0) + found_at(f, 1));
            assert forall|x: Seq<char>|
                (found_at(f, 0) + found_at(f, 1)).contains(x) <==> found_at(f, 0).contains(x)
                    || found_at(f, 1).contains(x) by {
                let s = found_at(f, 0) + found_at(f, 1);
                if s.contains(x) {
                    let k = choose|k: int| 0 <= k < s.len() && s[k] == x;
                    if k < found_at(f, 0).len() {
                        assert(found_at(f, 0)[k] == x);
                    } else {
                        assert(found_at(f, 1)[k - found_at(f, 0).len()] == x);
                    }
                }
                if found_at(f, 0).contains(x) {
                    let k = choose|k: int| 0 <= k < found_at(f, 0).len() && found_at(f, 0)[k] == x;
                    assert(s[k] == x);
                }
                if found_at(f, 1).contains(x) {
                    let k = choose|k: int| 0 <= k < found_at(f, 1).len() && found_at(f, 1)[k] == x;
                    assert(s[k + found_at(f, 0).len()] == x);
                }
            }
        }
        assert forall|x: Seq<char>|
            common_ids(c).contains(x) <==> (conditions.len() > 0 && forall|i: int|
                0 <= i < conditions.len() ==> #[trigger] satisfies(x, conditions, found, i)) by {
            if common_ids(c).contains(x) {
                assert forall|i: int| 0 <= i < conditions.len() implies #[trigger] satisfies(
                    x,
                    conditions,
                    found,
                    i,
                ) by {
                    assert(c[i].contains(x));
                }
            }
            if forall|i: int| 0 <= i < conditions.len() ==> #[trigger] satisfies(x, conditions, found, i) {
                assert forall|i: int| 0 <= i < c.len() implies (#[trigger] c[i]).contains(x) by {
                    assert(satisfies(x, conditions, found, i));
                }
            }
        }
    }
}

/// The id texts of `rows`, each once, in the order in which they first appear.
pub fn ids_of(rows: &Vec<Row>) -> (r: Vec<String>)
    ensures
        texts(r@) == row_ids(rows_view(rows@)),
{
    let ghost all = rows_view(rows@).map_values(|r: RowView| r.id);
    let mut ids: Vec<String> = Vec::new();
    let mut i: usize = 0;
    while i < rows.len()
        invariant
            all == rows_view(rows@).map_values(|r: RowView| r.id),
            i <= rows@.len(),
            texts(ids@) == all.take(i as int),
        decreases rows@.len() - i,
    {
        let ghost before = texts(ids@);
        ids.push(rows[i].id.clone());
        assert(texts(ids@) =~= before.push(rows@[i as int].id@));
        assert(all.take(i + 1) =~= all.take(i as int).push(rows@[i as int].id@));
        i = i + 1;
    }
    assert(all.take(rows@.len() as int) =~= all);
    let none: Vec<String> = Vec::new();
    assert(texts(ids@) + texts(none@) =~= all);
    union_ids(&ids, &none)
}

/// The ids that one lookup found: none where it failed.
pub fn lookup_ids(found: &Result<Vec<Row>, ()>) -> (r: Vec<String>)
    ensures
        texts(r@) == found_ids(*found),
{
    match found {
        Ok(rows) => ids_of(rows),
        Err(_) => {
            let none: Vec<String> = Vec::new();
            assert(texts(none@) =~= Seq::<Seq<char>>::empty());
            none
        },
    }
}

/// The ids that the lookup at `i` found; none where there is no such lookup.
fn lookup_ids_at(found: &Vec<Result<Vec<Row>, ()>>, i: usize) -> (r: Vec<String>)
    ensures
        texts(r@) == found_at(found@, i as int),
{
    if i < found.len() {
        lookup_ids(&found[i])
    } else {
        let none: Vec<String> = Vec::new();
        assert(texts(none@) =~= Seq::<Seq<char>>::empty());
        none
    }
}

/// The candidates of one condition, from what its lookups found, in the order in
/// which `lookups_for` gives them. A failed lookup finds nothing.
pub fn category_ids(search_type: SearchType, found: &Vec<Result<Vec<Row>, ()>>) -> (r: Vec<
    String,
>)
    ensures
        texts(r@) == category_candidates(search_type, found@),
{
    match search_type {
        SearchType::Name => {
            let by_name = lookup_ids_at(found, 0);
            let by_kana = lookup_ids_at(found, 1);
            union_ids(&by_name, &by_kana)
        },
        _ => lookup_ids_at(found, 0),
    }
}

/// What the lookups of condition `i` found; nothing where none are given.
pub open spec fn found_for(found: Seq<Vec<Result<Vec<Row>, ()>>>, i: int) -> Seq<
    Result<Vec<Row>, ()>,
> {
    if 0 <= i < found.len() {
        found[i]@
    } else {
        Seq::empty()
    }
}

/// The candidates of each condition.
pub open spec fn candidates_of(
    conditions: Seq<SearchCondition>,
    found: Seq<Vec<Result<Vec<Row>, ()>>>,
) -> Seq<Seq<Seq<char>>> {
    Seq::new(
        conditions.len(),
        |i: int| category_candidates(conditions[i].search_type, found_for(found, i)),
    )
}

/// The ids that satisfy every condition, from what the lookups of each condition
/// found (`found[i]` for condition `i`).
pub fn search_ids(conditions: &Vec<SearchCondition>, found: &Vec<Vec<Result<Vec<Row>, ()>>>) -> (r:
    Vec<String>)
    ensures
        texts(r@) == common_ids(candidates_of(conditions@, found@)),
{
    let ghost want = candidates_of(conditions@, found@);
    let mut candidates: Vec<Vec<String>> = Vec::new();
    let mut i: usize = 0;
    while i < conditions.len()
        invariant
            want == candidates_of(conditions@, found@),
            i <= conditions@.len(),
            candidates_view(candidates@) == want.take(i as int),
        decreases conditions@.len() - i,
    {
        let ids = if i < found.len() {
            category_ids(conditions[i].search_type, &found[i])
        } else {
            let nothing: Vec<Result<Vec<Row>, ()>> = Vec::new();
            assert(nothing@ =~= found_for(found@, i as int));
            category_ids(conditions[i].search_type, &nothing)
        };
        let ghost before = candidates@;
        candidates.push(ids);
        assert(candidates_view(candidates@) =~= candidates_view(before).push(want[i as int]));
        assert(want.take(i + 1) =~= want.take(i as int).push(want[i as int]));
        i = i + 1;
    }
    assert(want.take(conditions@.len() as int) =~= want);
    matching_ids(&candidates)
}

/// A page of a list of mountains, with the facts of the whole list.
pub struct SearchedMountainResult {
    pub mountains: Vec<Mountain>,
    pub total: usize,
    pub offset: usize,
    pub limit: Option<usize>,
}

/// Where a page ends: `limit` items after `offset`, or at the end of the list.
pub open spec fn page_end(len: nat, offset: nat, limit: Option<usize>) -> nat {
    match limit {
        Some(l) => if offset + l < len {
            (offset + l) as nat
        } else {
            len
        },
        None => len,
    }
}

/// The message for an offset beyond the end of a page.
pub open spec fn offset_message() -> Seq<char> {
    "offsetの値が不正です。"@
}

/// Cuts the page that `range_condition` asks for out of `mountains`. An offset
/// beyond the page's end is refused.
pub fn refine_mountains(mountains: Vec<Mountain>, range_condition: RangeCondition) -> (r: Result<
    SearchedMountainResult,
    String,
>)
    ensures
        ({
            let end = page_end(
                mountains@.len(),
                range_condition.offset as nat,
                range_condition.limit,
            );
            match r {
                Ok(page) => {
                    &&& range_condition.offset <= end
                    &&& page.mountains@ == mountains@.subrange(range_condition.offset as int, end as int)
                    &&& page.total == mountains@.len()
                    &&& page.offset == range_condition.offset
                    &&& page.limit == range_condition.limit
                },
                Err(e) => range_condition.offset > end && e@ == offset_message(),
            }
        }),
{
    let len = mountains.len();
    let offset = range_condition.offset;
    let mut end = len;
    if let Some(l) = range_condition.limit {
        if offset < len && l < len - offset {
            end = offset + l;
        }
    }
    if offset > end {
        return Err(String::from_str("offsetの値が不正です。"));
    }
    let mut page = mountains;
    page.truncate(end);
    let page = page.split_off(offset);
    Ok(SearchedMountainResult { mountains: page, total: len, offset, limit: range_condition.limit })
}

/// Whether `s` holds the mountains of `found`, each as often, sorted in order `o`,
/// with tied mountains in the order of `found`.
pub open spec fn is_listing(o: SortOrder, found: Seq<MountainView>, s: Seq<MountainView>) -> bool {
    s.to_multiset() == found.to_multiset() && sorted_by(o, s) && keeps_ties(o, s, found)
}

/// What listing the mountains `found` gives, sorted as `sort_key` says and cut to
/// `range`: the page, with the number of all mountains and the range asked for; or
/// the offset refused, where it lies beyond the page's end.
pub open spec fn listing_outcome(
    found: Seq<MountainView>,
    range: RangeCondition,
    sort_key: Seq<char>,
    r: Result<SearchedMountainResult, String>,
) -> bool {
    let end = page_end(found.len(), range.offset as nat, range.limit);
    match r {
        Ok(page) => {
            &&& range.offset <= end
            &&& page.total == found.len()
            &&& page.offset == range.offset
            &&& page.limit == range.limit
            &&& exists|s: Seq<MountainView>|
                #[trigger] is_listing(order_of(sort_key), found, s) && mountains_view(page.mountains@)
                    == s.subrange(range.offset as int, end as int)
        },
        Err(e) => range.offset > end && e@ == offset_message(),
    }
}

/// Two sequences that hold the same items, each as often, still do so once a
/// function is applied to each item.
pub proof fn lemma_map_keeps_permutation<A, B>(a: Seq<A>, b: Seq<A>, f: spec_fn(A) -> B)
    requires
        a.to_multiset() == b.to_multiset(),
    ensures
        a.map_values(f).to_multiset() == b.map_values(f).to_multiset(),
    decreases a.len(),
{
    broadcast use vstd::seq_lib::group_to_multiset_ensures;
    broadcast use vstd::multiset::group_multiset_axioms;

    if a.len() == 0 {
        assert(a.to_multiset().len() == 0);
        assert(b.len() == 0);
        assert(a.map_values(f) =~= b.map_values(f));
    } else {
        let x = a.last();
        assert(a.drop_last().push(x) =~= a);
        assert(a.to_multiset().count(x) > 0);
        assert(b.contains(x));
        let j = choose|j: int| 0 <= j < b.len() && b[j] == x;
        let b2 = b.remove(j);
        assert(a.drop_last().to_multiset() =~= a.to_multiset().remove(x));
        lemma_map_keeps_permutation(a.drop_last(), b2, f);
        assert(a.map_values(f) =~= a.drop_last().map_values(f).push(f(x)));
        assert(b2.map_values(f) =~= b.map_values(f).remove(j));
        assert(b.map_values(f)[j] == f(x));
        assert(b.map_values(f).to_multiset() =~= b2.map_values(f).to_multiset().insert(f(x)));
    }
}

/// Sorts `ms` and cuts the page that `range_condition` asks for.
fn list_page(ms: Vec<Mountain>, range_condition: RangeCondition, sort_key: &String) -> (r: Result<
    SearchedMountainResult,
    String,
>)
    ensures
        listing_outcome(mountains_view(ms@), range_condition, sort_key@, r),
{
    let ghost range = range_condition;
    let mut ms = ms;
    let ghost start = ms@;
    sort_mountains(&mut ms, sort_key);
    let ghost sorted = mountains_view(ms@);
    proof {
        lemma_map_keeps_permutation(ms@, start, |m: Mountain| m@);
        assert(sorted.to_multiset() == mountains_view(start).to_multiset());
        assert(sorted_by(order_of(sort_key@), sorted));
        assert(ms@.len() == start.len()) by {
            broadcast use vstd::seq_lib::group_to_multiset_ensures;

            assert(ms@.to_multiset().len() == start.to_multiset().len());
        }
        assert(is_listing(order_of(sort_key@), mountains_view(start), sorted));
    }
    let r = refine_mountains(ms, range_condition);
    proof {
        if r is Ok {
            let page = r->Ok_0;
            let end = page_end(sorted.len(), range.offset as nat, range.limit);
            assert(mountains_view(page.mountains@) =~= sorted.subrange(range.offset as int, end as int));
        }
    }
    r
}

/// Lists the mountains of a whole table: the rows are grouped by id into mountains,
/// which are sorted as `sort_key` says and cut to the range asked for.
pub fn get_all_mountains(rows: &Vec<Row>, range_condition: RangeCondition, sort_key: &String) -> (r:
    Result<SearchedMountainResult, String>)
    ensures
        listing_outcome(grouped(rows_view(rows@)), range_condition, sort_key@, r),
{
    let ms = collect_mountains(rows);
    list_page(ms, range_condition, sort_key)
}

/// A copy of the rows.
fn copy_rows(rows: &Vec<Row>) -> (r: Vec<Row>)
    ensures
        r@ == rows@,
{
    let mut out: Vec<Row> = Vec::new();
    let mut i: usize = 0;
    while i < rows.len()
        invariant
            i <= rows@.len(),
            out@ == rows@.take(i as int),
        decreases rows@.len() - i,
    {
        out.push(rows[i].duplicate());
        assert(rows@.take(i + 1) =~= rows@.take(i as int).push(rows@[i as int]));
        i = i + 1;
    }
    assert(rows@.take(rows@.len() as int) =~= rows@);
    out
}

/// The mountain that a lookup by id found: put together from its rows. A failed
/// lookup, or one that found no rows, finds no mountain.
pub fn get_mountain_by_id(found: Result<Vec<Row>, ()>) -> (r: Result<Mountain, ()>)
    ensures
        match found {
            Ok(rows) => if rows@.len() > 0 {
                r matches Ok(m) && m@ == decode(rows_view(rows@))
            } else {
                r is Err
            },
            Err(_) => r is Err,
        },
{
    match found {
        Ok(rows) => {
            if rows.len() == 0 {
                return Err(());
            }
            let mapper = MountainMapper::new(rows);
            Ok(mapper.to_mountain())
        },
        Err(_) => Err(()),
    }
}

/// The mountains that lookups by id found, in the order of the lookups; a lookup
/// that failed or found no rows adds none.
pub open spec fn found_mountains(found: Seq<Result<Vec<Row>, ()>>) -> Seq<MountainView>
    decreases found.len(),
{
    if found.len() == 0 {
        Seq::empty()
    } else {
        let earlier = found_mountains(found.drop_last());
        match found.last() {
            Ok(rows) => if rows@.len() > 0 {
                earlier.push(decode(rows_view(rows@)))
            } else {
                earlier
            },
            Err(_) => earlier,
        }
    }
}

/// Lists the mountains that lookups by id found (one lookup for each id that the
/// search matched): they are sorted as `sort_key` says and cut to the range asked for.
pub fn search_mountains(
    details: &Vec<Result<Vec<Row>, ()>>,
    range_condition: RangeCondition,
    sort_key: &String,
) -> (r: Result<SearchedMountainResult, String>)
    ensures
        listing_outcome(found_mountains(details@), range_condition, sort_key@, r),
{
    let ghost all = details@;
    let mut ms: Vec<Mountain> = Vec::new();
    let mut i: usize = 0;
    assert(all.take(0) =~= Seq::<Result<Vec<Row>, ()>>::empty());
    assert(mountains_view(ms@) =~= Seq::<MountainView>::empty());
    while i < details.len()
        invariant
            all == details@,
            i <= all.len(),
            mountains_view(ms@) == found_mountains(all.take(i as int)),
        decreases all.len() - i,
    {
        assert(all.take(i + 1).drop_last() =~= all.take(i as int));
        assert(all.take(i + 1).last() == all[i as int]);
        let ghost before = ms@;
        match &details[i] {
            Ok(rows) => {
                if rows.len() > 0 {
                    let mapper = MountainMapper::new(copy_rows(rows));
                    let m = mapper.to_mountain();
                    ms.push(m);
                    assert(mountains_view(ms@) =~= mountains_view(before).push(m@));
                }
            },
            Err(_) => {},
        }
        i = i + 1;
    }
    assert(all.take(all.len() as int) =~= all);
    list_page(ms, range_condition, sort_key)
}

/// A listing of a whole table holds each id once, and each of its mountains is made
/// of the rows of its id alone; the total counts the ids that the rows carry. With
/// no offset and no limit, the listing holds them all.
pub proof fn lemma_listing_one_per_id(
    rows: Seq<RowView>,
    range: RangeCondition,
    sort_key: Seq<char>,
    r: Result<SearchedMountainResult, String>,
)
    requires
        listing_outcome(grouped(rows), range, sort_key, r),
        r is Ok,
    ensures
        ({
            let page = mountains_view(r->Ok_0.mountains@);
            &&& forall|i: int, j: int|
                0 <= i < j < page.len() ==> (#[trigger] page[i]).id != (#[trigger] page[j]).id
            &&& forall|i: int|
                0 <= i < page.len() ==> rows_with_id(rows, (#[trigger] page[i]).id).len() > 0
                    && page[i] == decode(rows_with_id(rows, page[i].id))
            &&& r->Ok_0.total == ids_in_order(rows).len()
            &&& (range.offset == 0 && range.limit is None) ==> page.len() == r->Ok_0.total
        }),
{
    broadcast use vstd::seq_lib::group_to_multiset_ensures;

    let g = grouped(rows);
    let res = r->Ok_0;
    let page = mountains_view(res.mountains@);
    let o = order_of(sort_key);
    let end = page_end(g.len(), range.offset as nat, range.limit);
    let s = choose|s: Seq<MountainView>|
        #[trigger] is_listing(o, g, s) && page == s.subrange(range.offset as int, end as int);
    vstd::seq_lib::to_multiset_len(s);
    vstd::seq_lib::to_multiset_len(g);
    lemma_grouping_one_per_id(rows);
    assert(g.no_duplicates()) by {
        assert forall|a: int, b: int| 0 <= a < g.len() && 0 <= b < g.len() && a != b implies g[a]
            != g[b] by {
            if a < b {
                assert(g[a].id != g[b].id);
            } else {
                assert(g[b].id != g[a].id);
            }
        }
    }
    g.lemma_multiset_has_no_duplicates();
    s.lemma_multiset_has_no_duplicates_conv();
    assert forall|x: int| 0 <= x < s.len() implies exists|a: int|
        0 <= a < g.len() && g[a] == #[trigger] s[x] by {
        assert(s.contains(s[x]));
        assert(s.to_multiset().count(s[x]) > 0);
        assert(g.to_multiset().count(s[x]) > 0);
        assert(g.contains(s[x]));
    }
    assert forall|i: int, j: int|
        0 <= i < j < page.len() implies (#[trigger] page[i]).id != (#[trigger] page[j]).id by {
        let x = range.offset + i;
        let y = range.offset + j;
        assert(page[i] == s[x] && page[j] == s[y]);
        let a = choose|a: int| 0 <= a < g.len() && g[a] == s[x];
        let b = choose|b: int| 0 <= b < g.len() && g[b] == s[y];
        assert(s[x] != s[y]);
        if a < b {
            assert(g[a].id != g[b].id);
        } else {
            assert(g[b].id != g[a].id);
        }
    }
    assert forall|i: int| 0 <= i < page.len() implies rows_with_id(
        rows,
        (#[trigger] page[i]).id,
    ).len() > 0 && page[i] == decode(rows_with_id(rows, page[i].id)) by {
        let x = range.offset + i;
        assert(page[i] == s[x]);
        let a = choose|a: int| 0 <= a < g.len() && g[a] == s[x];
        lemma_lookup_matches_listing(rows, a);
    }
    if range.offset == 0 && range.limit is None {
        assert(page.len() == s.len());
    }
}

/// How a search request is answered: by reading the whole table, or by looking
/// up each condition.
#[derive(PartialEq, Eq, Structural, Clone, Copy, Debug)]
pub enum SearchPlan {
    FullScan,
    Lookups,
}

/// A request without conditions reads the whole table; one with conditions looks
/// them up.
pub fn plan_search(conditions: &Vec<SearchCondition>) -> (r: SearchPlan)
    ensures
        (r == SearchPlan::FullScan) == (conditions@.len() == 0),
{
    if conditions.len() == 0 {
        SearchPlan::FullScan
    } else {
        SearchPlan::Lookups
    }
}

/// Whether a lookup by the id `id` found rows, all of that id.
pub open spec fn answers(found: Result<Vec<Row>, ()>, id: Seq<char>) -> bool {
    found matches Ok(rows) && rows@.len() > 0 && forall|j: int|
        0 <= j < rows@.len() ==> (#[trigger] rows@[j]).id@ == id
}

/// The rows that a lookup found.
pub open spec fn found_rows(found: Result<Vec<Row>, ()>) -> Seq<RowView> {
    match found {
        Ok(rows) => rows_view(rows@),
        Err(_) => Seq::empty(),
    }
}

/// Where every lookup answers its id, each lookup gives one mountain, made of its
/// rows, with that id.
proof fn lemma_found_mountains_answered(ids: Seq<Seq<char>>, details: Seq<Result<Vec<Row>, ()>>)
    requires
        details.len() == ids.len(),
        forall|i: int|
            0 <= i < ids.len() ==> answers(#[trigger] details[i], ids[i]) && u32_of(ids[i]) is Some,
    ensures
        found_mountains(details).len() == details.len(),
        forall|i: int|
            0 <= i < details.len() ==> #[trigger] found_mountains(details)[i] == decode(
                found_rows(details[i]),
            ) && Some(found_mountains(details)[i].id) == u32_of(ids[i]),
    decreases details.len(),
{
    if details.len() > 0 {
        let n = details.len() - 1;
        lemma_found_mountains_answered(ids.drop_last(), details.drop_last());
        assert(details.drop_last().len() == ids.drop_last().len());
        assert(answers(details[n], ids[n]));
        let rv = found_rows(details[n]);
        assert forall|j: int| 0 <= j < rv.len() implies u32_of((#[trigger] rv[j]).id) == u32_of(
            ids[n],
        ) by {
            assert(rv[j].id == ids[n]);
        }
        lemma_first_id_uniform(rv, u32_of(ids[n]));
        assert(details.last() == details[n]);
        assert forall|i: int| 0 <= i < details.len() implies #[trigger] found_mountains(details)[i]
            == decode(found_rows(details[i])) && Some(found_mountains(details)[i].id) == u32_of(
            ids[i],
        ) by {
            if i < n {
                assert(details.drop_last()[i] == details[i]);
                assert(ids.drop_last()[i] == ids[i]);
                assert(found_mountains(details.drop_last())[i] == found_mountains(details)[i]);
            }
        }
    }
}

/// What a search lists, where the lookup by id of each matched id (`ids`, as
/// `search_ids` gives them) found that id's rows: with no offset and no limit, one
/// mountain for each matched id, made of the rows that its lookup found, and no
/// other. By `lemma_search_ids_contents`, the matched ids are those that satisfy
/// every condition. The mountains are those that `get_mountain_by_id` gives for
/// the same lookups.
pub proof fn lemma_search_listing(
    conditions: Seq<SearchCondition>,
    found: Seq<Vec<Result<Vec<Row>, ()>>>,
    ids: Seq<Seq<char>>,
    details: Seq<Result<Vec<Row>, ()>>,
    range: RangeCondition,
    sort_key: Seq<char>,
    r: Result<SearchedMountainResult, String>,
)
    requires
        ids == common_ids(candidates_of(conditions, found)),
        details.len() == ids.len(),
        forall|i: int|
            0 <= i < ids.len() ==> answers(#[trigger] details[i], ids[i]) && u32_of(ids[i]) is Some,
        listing_outcome(found_mountains(details), range, sort_key, r),
        range.offset == 0,
        range.limit is None,
    ensures
        r is Ok,
        ({
            let page = mountains_view(r->Ok_0.mountains@);
            &&& page.len() == ids.len()
            &&& r->Ok_0.total == ids.len()
            &&& forall|k: int|
                0 <= k < page.len() ==> exists|i: int|
                    0 <= i < ids.len() && #[trigger] page[k] == decode(found_rows(details[i]))
                        && Some(page[k].id) == u32_of(ids[i])
            &&& forall|i: int|
                0 <= i < ids.len() ==> exists|k: int|
                    0 <= k < page.len() && #[trigger] page[k] == decode(
                        found_rows(#[trigger] details[i]),
                    )
        }),
{
    broadcast use vstd::seq_lib::group_to_multiset_ensures;

    lemma_found_mountains_answered(ids, details);
    let f = found_mountains(details);
    let res = r->Ok_0;
    let page = mountains_view(res.mountains@);
    let o = order_of(sort_key);
    let end = page_end(f.len(), 0, None);
    let s = choose|s: Seq<MountainView>| #[trigger] is_listing(o, f, s) && page == s.subrange(0, end as int);
    vstd::seq_lib::to_multiset_len(s);
    vstd::seq_lib::to_multiset_len(f);
    assert(page =~= s);
    assert forall|k: int| 0 <= k < page.len() implies exists|i: int|
        0 <= i < ids.len() && #[trigger] page[k] == decode(found_rows(details[i])) && Some(
            page[k].id,
        ) == u32_of(ids[i]) by {
        assert(s.contains(s[k]));
        assert(s.to_multiset().count(s[k]) > 0);
        assert(f.to_multiset().count(s[k]) > 0);
        assert(f.contains(s[k]));
        let i = choose|i: int| 0 <= i < f.len() && f[i] == s[k];
        assert(f[i] == decode(found_rows(details[i])));
    }
    assert forall|i: int| 0 <= i < ids.len() implies exists|k: int|
        0 <= k < page.len() && #[trigger] page[k] == decode(found_rows(#[trigger] details[i])) by {
        assert(f[i] == decode(found_rows(details[i])));
        assert(f.contains(f[i]));
        assert(f.to_multiset().count(f[i]) > 0);
        assert(s.to_multiset().count(f[i]) > 0);
        assert(s.contains(f[i]));
        let k = choose|k: int| 0 <= k < s.len() && s[k] == f[i];
        assert(page[k] == f[i]);
    }
}

} // verus!
