use vstd::prelude::*;

use crate::mountain_service::{SearchCondition, SearchType};

verus! {

/// Read every row of a table.
pub struct ScanCommand {
    pub table: String,
}

/// Read the rows whose `key` equals `value`, through `index` where one is named.
pub struct QueryCommand {
    pub table: String,
    pub index: Option<String>,
    pub key: String,
    pub value: String,
}

/// As a query, keeping only the rows whose `filter_key` attribute contains
/// `filter_value`.
pub struct QueryFilterCommand {
    pub table: String,
    pub index: Option<String>,
    pub key: String,
    pub value: String,
    pub filter_key: String,
    pub filter_value: String,
}

/// One lookup that a search condition needs.
pub enum Lookup {
    Index(QueryCommand),
    IndexFilter(QueryFilterCommand),
}

/// Whether `index` names the index `name`.
pub open spec fn names_index(index: Option<String>, name: Seq<char>) -> bool {
    index matches Some(i) && i@ == name
}

/// Whether `c` looks up the rows whose value is `value`, by the value index.
pub open spec fn is_value_lookup(c: QueryCommand, value: Seq<char>) -> bool {
    &&& c.table@ == "Mountains"@
    &&& names_index(c.index, "DataValue_Id_Index"@)
    &&& c.key@ == "DataValue"@
    &&& c.value@ == value
}

/// Whether `c` looks up the rows of discriminator `data_type` whose value contains
/// `part`, by the discriminator index.
pub open spec fn is_contains_lookup(c: QueryFilterCommand, data_type: Seq<char>, part: Seq<char>) -> bool {
    &&& c.table@ == "Mountains"@
    &&& names_index(c.index, "DataType_Id_Index"@)
    &&& c.key@ == "DataType"@
    &&& c.value@ == data_type
    &&& c.filter_key@ == "DataValue"@
    &&& c.filter_value@ == part
}

/// The command that reads the whole table of mountains.
pub fn scan_command() -> (c: ScanCommand)
    ensures
        c.table@ == "Mountains"@,
{
    ScanCommand { table: String::from_str("Mountains") }
}

/// The command that reads the rows of the mountain with id `id`.
pub fn id_query(id: &String) -> (c: QueryCommand)
    ensures
        c.table@ == "Mountains"@,
        c.index is None,
        c.key@ == "Id"@,
        c.value@ == id@,
{
    QueryCommand {
        table: String::from_str("Mountains"),
        index: None,
        key: String::from_str("Id"),
        value: id.clone(),
    }
}

/// The lookups that a condition needs: for a prefecture or a tag, one by its value;
/// for a name, one among the names and one among the kana names, each for the
/// rows that contain the text.
pub fn lookups_for(condition: &SearchCondition) -> (r: Vec<Lookup>)
    ensures
        match condition.search_type {
            SearchType::Name => {
                &&& r@.len() == 2
                &&& r@[0] matches Lookup::IndexFilter(c) && is_contains_lookup(
                    c,
                    "Name"@,
                    condition.value@,
                )
                &&& r@[1] matches Lookup::IndexFilter(c) && is_contains_lookup(
                    c,
                    "NameKana"@,
                    condition.value@,
                )
            },
            _ => {
                &&& r@.len() == 1
                &&& r@[0] matches Lookup::Index(c) && is_value_lookup(c, condition.value@)
            },
        },
{
    let mut r: Vec<Lookup> = Vec::new();
    match condition.search_type {
        SearchType::Name => {
            r.push(Lookup::IndexFilter(name_filter("Name", &condition.value)));
            r.push(Lookup::IndexFilter(name_filter("NameKana", &condition.value)));
        },
        _ => {
            r.push(
                Lookup::Index(
                    QueryCommand {
                        table: String::from_str("Mountains"),
                        index: Some(String::from_str("DataValue_Id_Index")),
                        key: String::from_str("DataValue"),
                        value: condition.value.clone(),
                    },
                ),
            );
        },
    }
    r
}

/// The lookup of the rows of discriminator `data_type` whose value contains `part`.
fn name_filter(data_type: &str, part: &String) -> (c: QueryFilterCommand)
    ensures
        is_contains_lookup(c, data_type@, part@),
{
    QueryFilterCommand {
        table: String::from_str("Mountains"),
        index: Some(String::from_str("DataType_Id_Index")),
        key: String::from_str("DataType"),
        value: String::from_str(data_type),
        filter_key: String::from_str("DataValue"),
        filter_value: part.clone(),
    }
}

} // verus!
