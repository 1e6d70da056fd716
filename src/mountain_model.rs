use vstd::prelude::*;

use crate::text::{
    contains_text, has_prefix, parse_u32, same_text, starts_with, strip_prefix, texts, u32_of, without_prefix,
};

verus! {

/// Where a mountain stands: latitude and longitude as the decimal text that the
/// store holds, and the address of its page on the GSI map.
#[derive(PartialEq, Eq, Debug)]
pub struct Location {
    pub latitude: String,
    pub longitude: String,
    pub gsi_url: String,
}

pub struct LocationView {
    pub latitude: Seq<char>,
    pub longitude: Seq<char>,
    pub gsi_url: Seq<char>,
}

impl View for Location {
    type V = LocationView;

    open spec fn view(&self) -> LocationView {
        LocationView { latitude: self.latitude@, longitude: self.longitude@, gsi_url: self.gsi_url@ }
    }
}

/// A location with every text empty.
pub open spec fn empty_location() -> LocationView {
    LocationView { latitude: Seq::empty(), longitude: Seq::empty(), gsi_url: Seq::empty() }
}

impl Location {
    /// A location with every text empty.
    pub fn empty() -> (r: Location)
        ensures
            r@ == empty_location(),
    {
        Location { latitude: String::new(), longitude: String::new(), gsi_url: String::new() }
    }

    /// A copy of this location.
    pub fn duplicate(&self) -> (r: Location)
        ensures
            r == *self,
    {
        Location {
            latitude: self.latitude.clone(),
            longitude: self.longitude.clone(),
            gsi_url: self.gsi_url.clone(),
        }
    }
}

/// One stored row: a single attribute of one mountain. Each field holds the text
/// that the row carries under that attribute, and is empty where the row has none.
#[derive(PartialEq, Eq, Debug)]
pub struct Row {
    /// The mountain's id, as decimal text.
    pub id: String,
    /// The discriminator that says which field of the mountain the row carries.
    pub data_type: String,
    pub data_value: String,
    /// Decimal text.
    pub elevation_value: String,
    pub location_value: Location,
}

pub struct RowView {
    pub id: Seq<char>,
    pub data_type: Seq<char>,
    pub data_value: Seq<char>,
    pub elevation_value: Seq<char>,
    pub location_value: LocationView,
}

impl View for Row {
    type V = RowView;

    open spec fn view(&self) -> RowView {
        RowView {
            id: self.id@,
            data_type: self.data_type@,
            data_value: self.data_value@,
            elevation_value: self.elevation_value@,
            location_value: self.location_value@,
        }
    }
}

impl Row {
    /// A copy of this row.
    pub fn duplicate(&self) -> (r: Row)
        ensures
            r == *self,
    {
        Row {
            id: self.id.clone(),
            data_type: self.data_type.clone(),
            data_value: self.data_value.clone(),
            elevation_value: self.elevation_value.clone(),
            location_value: self.location_value.duplicate(),
        }
    }
}

/// Which form of stored value an attribute is read as: text or number.
#[derive(PartialEq, Eq, Structural, Clone, Copy, Debug)]
pub enum ValueType {
    String,
    Number,
}

/// The views of a sequence of rows.
pub open spec fn rows_view(rows: Seq<Row>) -> Seq<RowView> {
    rows.map_values(|r: Row| r@)
}

/// A mountain, as put together from its rows.
#[derive(PartialEq, Eq, Debug)]
pub struct Mountain {
    pub id: u32,
    pub name: String,
    pub name_kana: String,
    pub area: String,
    pub prefectures: Vec<String>,
    pub elevation: u32,
    pub location: Location,
    pub tags: Vec<String>,
}

pub struct MountainView {
    pub id: u32,
    pub name: Seq<char>,
    pub name_kana: Seq<char>,
    pub area: Seq<char>,
    pub prefectures: Seq<Seq<char>>,
    pub elevation: u32,
    pub location: LocationView,
    pub tags: Seq<Seq<char>>,
}

impl View for Mountain {
    type V = MountainView;

    open spec fn view(&self) -> MountainView {
        MountainView {
            id: self.id,
            name: self.name@,
            name_kana: self.name_kana@,
            area: self.area@,
            prefectures: texts(self.prefectures@),
            elevation: self.elevation,
            location: self.location@,
            tags: texts(self.tags@),
        }
    }
}

/// The views of a sequence of mountains.
pub open spec fn mountains_view(ms: Seq<Mountain>) -> Seq<MountainView> {
    ms.map_values(|m: Mountain| m@)
}

/// Which field of a mountain a row carries, as its discriminator says.
#[derive(PartialEq, Eq, Structural, Clone, Copy, Debug)]
pub enum RowKind {
    Name,
    NameKana,
    Elevation,
    Location,
    Area,
    Prefecture,
    Tag,
    Other,
}

/// The kind of row that the discriminator `t` names: four exact words, then three
/// prefixes; any other discriminator is of no field.
pub open spec fn kind_of(t: Seq<char>) -> RowKind {
    if t == "Name"@ {
        RowKind::Name
    } else if t == "NameKana"@ {
        RowKind::NameKana
    } else if t == "Elevation"@ {
        RowKind::Elevation
    } else if t == "Location"@ {
        RowKind::Location
    } else if has_prefix(t, "Area_"@) {
        RowKind::Area
    } else if has_prefix(t, "Prefecture_"@) {
        RowKind::Prefecture
    } else if has_prefix(t, "Tag_"@) {
        RowKind::Tag
    } else {
        RowKind::Other
    }
}

/// The kind of row that the discriminator `t` names.
pub fn kind_of_type(t: &str) -> (k: RowKind)
    ensures
        k == kind_of(t@),
{
    if same_text(t, "Name") {
        RowKind::Name
    } else if same_text(t, "NameKana") {
        RowKind::NameKana
    } else if same_text(t, "Elevation") {
        RowKind::Elevation
    } else if same_text(t, "Location") {
        RowKind::Location
    } else if starts_with(t, "Area_") {
        RowKind::Area
    } else if starts_with(t, "Prefecture_") {
        RowKind::Prefecture
    } else if starts_with(t, "Tag_") {
        RowKind::Tag
    } else {
        RowKind::Other
    }
}

/// Whether `r` is a row of kind `k`.
pub open spec fn of_kind(k: RowKind) -> spec_fn(RowView) -> bool {
    |r: RowView| kind_of(r.data_type) == k
}

/// Whether `r` is an elevation row whose value reads as a number.
pub open spec fn readable_elevation() -> spec_fn(RowView) -> bool {
    |r: RowView| kind_of(r.data_type) == RowKind::Elevation && u32_of(r.elevation_value) is Some
}

/// The last of `rows` that satisfies `p`.
pub open spec fn last_where(rows: Seq<RowView>, p: spec_fn(RowView) -> bool) -> Option<RowView>
    decreases rows.len(),
{
    if rows.len() == 0 {
        None
    } else if p(rows.last()) {
        Some(rows.last())
    } else {
        last_where(rows.drop_last(), p)
    }
}

/// The values of the rows of kind `k`, each without `prefix` and each once, in the
/// order in which they first appear.
pub open spec fn values_of(rows: Seq<RowView>, k: RowKind, prefix: Seq<char>) -> Seq<Seq<char>>
    decreases rows.len(),
{
    if rows.len() == 0 {
        Seq::empty()
    } else if kind_of(rows.last().data_type) == k {
        let earlier = values_of(rows.drop_last(), k, prefix);
        let v = without_prefix(rows.last().data_value, prefix);
        if earlier.contains(v) {
            earlier
        } else {
            earlier.push(v)
        }
    } else {
        values_of(rows.drop_last(), k, prefix)
    }
}

/// The first id among `rows` that reads as a number.
pub open spec fn first_id(rows: Seq<RowView>) -> Option<u32>
    decreases rows.len(),
{
    if rows.len() == 0 {
        None
    } else {
        match first_id(rows.drop_last()) {
            Some(v) => Some(v),
            None => u32_of(rows.last().id),
        }
    }
}

/// The id of a group of rows: the first that reads as a number, else 0.
pub open spec fn id_of(rows: Seq<RowView>) -> u32 {
    match first_id(rows) {
        Some(v) => v,
        None => 0,
    }
}

/// The text of the last row of kind `k`, without `prefix`; empty where there is none.
pub open spec fn text_of(rows: Seq<RowView>, k: RowKind, prefix: Seq<char>) -> Seq<char> {
    match last_where(rows, of_kind(k)) {
        Some(r) => without_prefix(r.data_value, prefix),
        None => Seq::empty(),
    }
}

/// The elevation of the last elevation row whose value reads as a number; else 0.
pub open spec fn elevation_of(rows: Seq<RowView>) -> u32 {
    match last_where(rows, readable_elevation()) {
        Some(r) => match u32_of(r.elevation_value) {
            Some(v) => v,
            None => 0,
        },
        None => 0,
    }
}

/// The location of the last location row; else the empty location.
pub open spec fn location_of(rows: Seq<RowView>) -> LocationView {
    match last_where(rows, of_kind(RowKind::Location)) {
        Some(r) => r.location_value,
        None => empty_location(),
    }
}

/// The mountain that a group of rows describes. The id is the first that reads as
/// a number; a single-valued field takes the value of the last row that carries
/// it; the prefectures and tags are those that the rows carry, each once, in the
/// order in which they first appear. No rows give a mountain with id 0 and every
/// field empty.
pub open spec fn decode(rows: Seq<RowView>) -> MountainView {
    MountainView {
        id: id_of(rows),
        name: text_of(rows, RowKind::Name, Seq::empty()),
        name_kana: text_of(rows, RowKind::NameKana, Seq::empty()),
        area: text_of(rows, RowKind::Area, "Area_"@),
        prefectures: values_of(rows, RowKind::Prefecture, "Prefecture_"@),
        elevation: elevation_of(rows),
        location: location_of(rows),
        tags: values_of(rows, RowKind::Tag, "Tag_"@),
    }
}

/// Builds a mountain out of its rows.
pub trait MountainBaseMapper: Sized {
    fn new(data: Vec<Row>) -> Self;

    fn to_mountain(&self) -> Mountain;
}

/// The rows of one mountain, to be put together.
pub struct MountainMapper {
    pub data: Vec<Row>,
}

impl MountainBaseMapper for MountainMapper {
    fn new(data: Vec<Row>) -> (r: Self)
        ensures
            r.data == data,
    {
        MountainMapper { data }
    }

    fn to_mountain(&self) -> (m: Mountain)
        ensures
            m@ == decode(rows_view(self.data@)),
    {
        let ghost rows = rows_view(self.data@);
        let n = self.data.len();
        let mut id: Option<u32> = None;
        let mut name = String::new();
        let mut name_kana = String::new();
        let mut area = String::new();
        let mut prefectures: Vec<String> = Vec::new();
        let mut elevation: u32 = 0;
        let mut location = Location::empty();
        let mut tags: Vec<String> = Vec::new();
        let mut i: usize = 0;
        assert(rows.take(0) =~= Seq::<RowView>::empty());
        assert(texts(prefectures@) =~= Seq::<Seq<char>>::empty());
        assert(texts(tags@) =~= Seq::<Seq<char>>::empty());
        while i < n
            invariant
                n == self.data@.len(),
                rows == rows_view(self.data@),
                i <= n,
                id == first_id(rows.take(i as int)),
                name@ == text_of(rows.take(i as int), RowKind::Name, Seq::empty()),
                name_kana@ == text_of(rows.take(i as int), RowKind::NameKana, Seq::empty()),
                area@ == text_of(rows.take(i as int), RowKind::Area, "Area_"@),
                texts(prefectures@) == values_of(
                    rows.take(i as int),
                    RowKind::Prefecture,
                    "Prefecture_"@,
                ),
                elevation == elevation_of(rows.take(i as int)),
                location@ == location_of(rows.take(i as int)),
                texts(tags@) == values_of(rows.take(i as int), RowKind::Tag, "Tag_"@),
            decreases n - i,
        {
            let row = &self.data[i];
            let ghost before = rows.take(i as int);
            let ghost after = rows.take(i + 1);
            assert(after.drop_last() =~= before);
            assert(after.last() == row@);
            if id.is_none() {
                id = parse_u32(row.id.as_str());
            }
            let kind = kind_of_type(row.data_type.as_str());
            match kind {
                RowKind::Name => {
                    name = row.data_value.clone();
                },
                RowKind::NameKana => {
                    name_kana = row.data_value.clone();
                },
                RowKind::Elevation => {
                    if let Some(v) = parse_u32(row.elevation_value.as_str()) {
                        elevation = v;
                    }
                },
                RowKind::Location => {
                    location = row.location_value.duplicate();
                },
                RowKind::Area => {
                    area = strip_prefix(row.data_value.as_str(), "Area_");
                },
                RowKind::Prefecture => {
                    let ghost old_p = prefectures@;
                    let v = strip_prefix(row.data_value.as_str(), "Prefecture_");
                    if !contains_text(&prefectures, &v) {
                        prefectures.push(v);
                        assert(texts(prefectures@) =~= texts(old_p).push(v@));
                    }
                },
                RowKind::Tag => {
                    let ghost old_t = tags@;
                    let v = strip_prefix(row.data_value.as_str(), "Tag_");
                    if !contains_text(&tags, &v) {
                        tags.push(v);
                        assert(texts(tags@) =~= texts(old_t).push(v@));
                    }
                },
                RowKind::Other => {},
            }
            i = i + 1;
        }
        assert(rows.take(n as int) =~= rows);
        let id = match id {
            Some(v) => v,
            None => 0,
        };
        Mountain { id, name, name_kana, area, prefectures, elevation, location, tags }
    }
}

/// Whether a row of kind `k` sets a field that holds one value.
pub open spec fn is_single_valued(k: RowKind) -> bool {
    k != RowKind::Prefecture && k != RowKind::Tag && k != RowKind::Other
}

/// Whether two rows carry the same values.
pub open spec fn same_payload(a: RowView, b: RowView) -> bool {
    a.data_value == b.data_value && a.elevation_value == b.elevation_value && a.location_value
        == b.location_value
}

/// Whether the rows of a group agree: all carry the same id, and rows that set the
/// same single-valued field carry the same values.
pub open spec fn agreeing_group(rows: Seq<RowView>) -> bool {
    forall|i: int, j: int|
        0 <= i < rows.len() && 0 <= j < rows.len() ==> {
            &&& (#[trigger] rows[i]).id == (#[trigger] rows[j]).id
            &&& (kind_of(rows[i].data_type) == kind_of(rows[j].data_type) && is_single_valued(
                kind_of(rows[i].data_type),
            )) ==> same_payload(rows[i], rows[j])
        }
}

/// What `last_where` finds is a row of the sequence that satisfies the predicate;
/// where it finds none, no row does.
pub proof fn lemma_last_where_found(rows: Seq<RowView>, p: spec_fn(RowView) -> bool)
    ensures
        match last_where(rows, p) {
            Some(r) => rows.contains(r) && p(r),
            None => forall|i: int| 0 <= i < rows.len() ==> !p(#[trigger] rows[i]),
        },
    decreases rows.len(),
{
    if rows.len() > 0 {
        lemma_last_where_found(rows.drop_last(), p);
        if !p(rows.last()) {
            match last_where(rows.drop_last(), p) {
                Some(r) => {
                    let i = choose|i: int| 0 <= i < rows.len() - 1 && rows.drop_last()[i] == r;
                    assert(rows[i] == r);
                },
                None => {
                    assert forall|i: int| 0 <= i < rows.len() implies !p(#[trigger] rows[i]) by {
                        if i < rows.len() - 1 {
                            assert(rows.drop_last()[i] == rows[i]);
                        }
                    }
                },
            }
        } else {
            assert(rows[rows.len() - 1] == rows.last());
        }
    }
}

/// In two orderings of the same rows, the last row that satisfies `p` carries the
/// same values, where all such rows do.
proof fn lemma_last_where_agrees(a: Seq<RowView>, b: Seq<RowView>, p: spec_fn(RowView) -> bool)
    requires
        a.to_multiset() == b.to_multiset(),
        forall|i: int, j: int|
            0 <= i < a.len() && 0 <= j < a.len() && p(#[trigger] a[i]) && p(#[trigger] a[j])
                ==> same_payload(a[i], a[j]),
    ensures
        (last_where(a, p) is Some) == (last_where(b, p) is Some),
        last_where(a, p) is Some ==> p(last_where(a, p)->0) && same_payload(
            last_where(a, p)->0,
            last_where(b, p)->0,
        ),
{
    broadcast use vstd::seq_lib::group_to_multiset_ensures;

    lemma_last_where_found(a, p);
    lemma_last_where_found(b, p);
    match last_where(b, p) {
        Some(rb) => {
            assert(b.to_multiset().count(rb) > 0);
            assert(a.contains(rb));
            let j = choose|j: int| 0 <= j < a.len() && a[j] == rb;
            assert(p(a[j]));
            match last_where(a, p) {
                Some(ra) => {
                    let i = choose|i: int| 0 <= i < a.len() && a[i] == ra;
                    assert(same_payload(a[i], a[j]));
                },
                None => {},
            }
        },
        None => {
            match last_where(a, p) {
                Some(ra) => {
                    assert(a.to_multiset().count(ra) > 0);
                    assert(b.contains(ra));
                    let j = choose|j: int| 0 <= j < b.len() && b[j] == ra;
                    assert(!p(b[j]));
                },
                None => {},
            }
        },
    }
}

/// What `values_of` keeps: the stripped value of every row of kind `k`, no other,
/// and none twice.
pub proof fn lemma_values_of_contents(rows: Seq<RowView>, k: RowKind, prefix: Seq<char>)
    ensures
        values_of(rows, k, prefix).no_duplicates(),
        forall|v: Seq<char>|
            values_of(rows, k, prefix).contains(v) <==> exists|i: int|
                0 <= i < rows.len() && kind_of(rows[i].data_type) == k && #[trigger] without_prefix(
                    rows[i].data_value,
                    prefix,
                ) == v,
    decreases rows.len(),
{
    if rows.len() > 0 {
        let front = rows.drop_last();
        let last = rows.last();
        lemma_values_of_contents(front, k, prefix);
        let e = values_of(front, k, prefix);
        let lv = without_prefix(last.data_value, prefix);
        assert forall|v: Seq<char>|
            values_of(rows, k, prefix).contains(v) <==> exists|i: int|
                0 <= i < rows.len() && kind_of(rows[i].data_type) == k && #[trigger] without_prefix(
                    rows[i].data_value,
                    prefix,
                ) == v by {
            if exists|i: int|
                0 <= i < rows.len() && kind_of(rows[i].data_type) == k && #[trigger] without_prefix(
                    rows[i].data_value,
                    prefix,
                ) == v {
                let i = choose|i: int|
                    0 <= i < rows.len() && kind_of(rows[i].data_type) == k
                        && #[trigger] without_prefix(rows[i].data_value, prefix) == v;
                if i < rows.len() - 1 {
                    assert(front[i] == rows[i]);
                    assert(e.contains(v));
                    if kind_of(last.data_type) == k && !e.contains(lv) {
                        let j = choose|j: int| 0 <= j < e.len() && e[j] == v;
                        assert(e.push(lv)[j] == v);
                    }
                } else {
                    assert(rows[i] == last);
                    if !e.contains(lv) {
                        assert(e.push(lv)[e.len() as int] == lv);
                    }
                }
            }
            if e.contains(v) {
                let i = choose|i: int|
                    0 <= i < front.len() && kind_of(front[i].data_type) == k
                        && #[trigger] without_prefix(front[i].data_value, prefix) == v;
                assert(rows[i] == front[i]);
            }
            if kind_of(last.data_type) == k && !e.contains(lv) {
                if e.push(lv).contains(v) && v != lv {
                    let j = choose|j: int| 0 <= j < e.len() + 1 && e.push(lv)[j] == v;
                    assert(e[j] == v);
                }
                if v == lv {
                    assert(rows[rows.len() - 1] == last);
                }
            }
        }
        if kind_of(last.data_type) == k && !e.contains(lv) {
            assert forall|i: int, j: int|
                0 <= i < j < e.len() + 1 implies e.push(lv)[i] != e.push(lv)[j] by {
                if j == e.len() {
                    assert(e.contains(e[i]));
                }
            }
        }
    }
}

/// Where every row reads its id the same way, and there is a row, that reading is
/// the first id.
pub proof fn lemma_first_id_uniform(rows: Seq<RowView>, k: Option<u32>)
    requires
        rows.len() > 0,
        forall|i: int| 0 <= i < rows.len() ==> u32_of((#[trigger] rows[i]).id) == k,
    ensures
        first_id(rows) == k,
    decreases rows.len(),
{
    let front = rows.drop_last();
    assert(rows[rows.len() - 1] == rows.last());
    assert(u32_of(rows.last().id) == k);
    if rows.len() > 1 {
        assert forall|i: int| 0 <= i < front.len() implies u32_of((#[trigger] front[i]).id) == k by {
            assert(front[i] == rows[i]);
        }
        lemma_first_id_uniform(front, k);
    } else {
        assert(first_id(front) is None);
    }
}

/// The first id is that of some row; where there is none, no row's id reads.
pub proof fn lemma_first_id_found(rows: Seq<RowView>)
    ensures
        match first_id(rows) {
            Some(v) => exists|i: int| 0 <= i < rows.len() && u32_of((#[trigger] rows[i]).id) == Some(v),
            None => forall|i: int| 0 <= i < rows.len() ==> u32_of((#[trigger] rows[i]).id) is None,
        },
    decreases rows.len(),
{
    if rows.len() > 0 {
        let front = rows.drop_last();
        lemma_first_id_found(front);
        assert(rows[rows.len() - 1] == rows.last());
        match first_id(front) {
            Some(v) => {
                let i = choose|i: int| 0 <= i < front.len() && u32_of((#[trigger] front[i]).id) == Some(v);
                assert(rows[i] == front[i]);
            },
            None => {
                assert forall|i: int| 0 <= i < rows.len() - 1 implies u32_of((#[trigger] rows[i]).id) is None by {
                    assert(front[i] == rows[i]);
                }
            },
        }
    }
}

/// Decoding does not depend on the order of the rows. Where the rows of a group
/// agree (one id, and one set of values for each single-valued field), any
/// reordering of them gives the same mountain: the same single-valued fields, and
/// the same prefectures and tags. (The lists keep the order in which values first
/// appear, so only their contents can be the same.)
pub proof fn lemma_decode_order_independent(a: Seq<RowView>, b: Seq<RowView>)
    requires
        a.to_multiset() == b.to_multiset(),
        agreeing_group(a),
    ensures
        decode(a).id == decode(b).id,
        decode(a).name == decode(b).name,
        decode(a).name_kana == decode(b).name_kana,
        decode(a).area == decode(b).area,
        decode(a).elevation == decode(b).elevation,
        decode(a).location == decode(b).location,
        decode(a).prefectures.to_set() == decode(b).prefectures.to_set(),
        decode(a).tags.to_set() == decode(b).tags.to_set(),
{
    broadcast use vstd::seq_lib::group_to_multiset_ensures;

    vstd::seq_lib::to_multiset_len(a);
    vstd::seq_lib::to_multiset_len(b);
    assert(a.len() == b.len());
    assert forall|j: int| 0 <= j < b.len() implies a.contains(#[trigger] b[j]) by {
        assert(b.contains(b[j]));
        assert(b.to_multiset().count(b[j]) > 0);
        assert(a.to_multiset().count(b[j]) > 0);
    }
    assert forall|i: int| 0 <= i < a.len() implies b.contains(#[trigger] a[i]) by {
        assert(a.contains(a[i]));
        assert(a.to_multiset().count(a[i]) > 0);
        assert(b.to_multiset().count(a[i]) > 0);
    }
    if b.len() > 0 {
        let k = u32_of(a[0].id);
        assert forall|i: int| 0 <= i < a.len() implies u32_of((#[trigger] a[i]).id) == k by {
            assert(a[i].id == a[0].id);
        }
        assert forall|j: int| 0 <= j < b.len() implies u32_of((#[trigger] b[j]).id) == k by {
            assert(a.contains(b[j]));
            let i = choose|i: int| 0 <= i < a.len() && a[i] == b[j];
            assert(a[i].id == a[0].id);
        }
        lemma_first_id_uniform(a, k);
        lemma_first_id_uniform(b, k);
    }
    lemma_last_where_agrees(a, b, of_kind(RowKind::Name));
    lemma_last_where_agrees(a, b, of_kind(RowKind::NameKana));
    lemma_last_where_agrees(a, b, of_kind(RowKind::Area));
    lemma_last_where_agrees(a, b, of_kind(RowKind::Location));
    lemma_last_where_agrees(a, b, readable_elevation());
    lemma_values_same_set(a, b, RowKind::Prefecture, "Prefecture_"@);
    lemma_values_same_set(a, b, RowKind::Tag, "Tag_"@);
}

/// Two sequences with the same rows give the same values.
proof fn lemma_values_same_set(a: Seq<RowView>, b: Seq<RowView>, k: RowKind, prefix: Seq<char>)
    requires
        forall|j: int| 0 <= j < b.len() ==> a.contains(#[trigger] b[j]),
        forall|i: int| 0 <= i < a.len() ==> b.contains(#[trigger] a[i]),
    ensures
        values_of(a, k, prefix).to_set() == values_of(b, k, prefix).to_set(),
{
    lemma_values_of_contents(a, k, prefix);
    lemma_values_of_contents(b, k, prefix);
    assert forall|v: Seq<char>|
        values_of(a, k, prefix).contains(v) <==> values_of(b, k, prefix).contains(v) by {
        if values_of(a, k, prefix).contains(v) {
            let i = choose|i: int|
                0 <= i < a.len() && kind_of(a[i].data_type) == k && #[trigger] without_prefix(
                    a[i].data_value,
                    prefix,
                ) == v;
            assert(b.contains(a[i]));
            let j = choose|j: int| 0 <= j < b.len() && b[j] == a[i];
            assert(without_prefix(b[j].data_value, prefix) == v);
        }
        if values_of(b, k, prefix).contains(v) {
            let j = choose|j: int|
                0 <= j < b.len() && kind_of(b[j].data_type) == k && #[trigger] without_prefix(
                    b[j].data_value,
                    prefix,
                ) == v;
            assert(a.contains(b[j]));
            let i = choose|i: int| 0 <= i < a.len() && a[i] == b[j];
            assert(without_prefix(a[i].data_value, prefix) == v);
        }
    }
    assert(values_of(a, k, prefix).to_set() =~= values_of(b, k, prefix).to_set());
}

/// Adding again a row of `rows` finds, for a predicate that the row satisfies, a
/// last row that carries the same values as before.
proof fn lemma_last_where_repeat(rows: Seq<RowView>, r: RowView, p: spec_fn(RowView) -> bool)
    requires
        rows.contains(r),
        forall|i: int, j: int|
            0 <= i < rows.len() && 0 <= j < rows.len() && p(#[trigger] rows[i]) && p(
                #[trigger] rows[j],
            ) ==> same_payload(rows[i], rows[j]),
    ensures
        (last_where(rows.push(r), p) is Some) == (last_where(rows, p) is Some),
        last_where(rows, p) is Some ==> same_payload(
            last_where(rows, p)->0,
            last_where(rows.push(r), p)->0,
        ),
{
    let s = rows.push(r);
    assert(s.drop_last() =~= rows);
    assert(s.last() == r);
    lemma_last_where_found(rows, p);
    if p(r) {
        let j = choose|j: int| 0 <= j < rows.len() && rows[j] == r;
        assert(p(rows[j]));
        let ra = last_where(rows, p)->0;
        let i = choose|i: int| 0 <= i < rows.len() && rows[i] == ra;
        assert(same_payload(rows[i], rows[j]));
    }
}

/// Decoding is duplicate-safe: where the rows of a group agree, a row that comes
/// again changes nothing.
pub proof fn lemma_decode_repeated_row(rows: Seq<RowView>, r: RowView)
    requires
        rows.contains(r),
        agreeing_group(rows),
    ensures
        decode(rows.push(r)) == decode(rows),
{
    let s = rows.push(r);
    assert(s.drop_last() =~= rows);
    assert(s.last() == r);
    let j = choose|j: int| 0 <= j < rows.len() && rows[j] == r;
    lemma_first_id_found(rows);
    if first_id(rows) is None {
        assert(u32_of(rows[j].id) is None);
    }
    assert(first_id(s) == first_id(rows));
    lemma_last_where_repeat(rows, r, of_kind(RowKind::Name));
    lemma_last_where_repeat(rows, r, of_kind(RowKind::NameKana));
    lemma_last_where_repeat(rows, r, of_kind(RowKind::Area));
    lemma_last_where_repeat(rows, r, of_kind(RowKind::Location));
    lemma_last_where_repeat(rows, r, readable_elevation());
    lemma_values_of_contents(rows, RowKind::Prefecture, "Prefecture_"@);
    lemma_values_of_contents(rows, RowKind::Tag, "Tag_"@);
    if kind_of(r.data_type) == RowKind::Prefecture {
        assert(values_of(rows, RowKind::Prefecture, "Prefecture_"@).contains(
            without_prefix(rows[j].data_value, "Prefecture_"@),
        ));
    }
    if kind_of(r.data_type) == RowKind::Tag {
        assert(values_of(rows, RowKind::Tag, "Tag_"@).contains(
            without_prefix(rows[j].data_value, "Tag_"@),
        ));
    }
    assert(decode(s) =~= decode(rows));
}

} // verus!
