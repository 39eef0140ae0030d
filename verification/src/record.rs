//! The form in which the records of a search index are written as JSON.
//!
//! The whole is an object with one member for each package, named by the
//! package. A package's record has three parts: `doc`, a string; `i`, the
//! array of its items; and `p`, the array of its parents. An item has six
//! parts: `ty`, the code of its kind; `name`, `path` and `desc`, strings;
//! `parent_idx`, the position of its parent or `null`; and `search_type`, a
//! value that is carried along. A parent has two parts: `ty` and `name`.
//!
//! A record, an item and a parent may each be written in two ways: as an
//! array of its parts in the order given here, or as an object with a member
//! for each part under the part's name. In an object the two last parts of
//! an item may be left out, and members of other names are passed over.

use crate::decoder::{
    decode, decodes_to, item_views, package_views, parent_views, DecodeError, IndexItem, IndexView,
    ItemView, Package, PackageView, ParentEntry, ParentView, SearchIndex,
};
use crate::doc::RustDoc;
use crate::json::{
    json_array, json_copy, json_elements, json_entries, json_field, json_is_null, json_member,
    json_members, json_null, json_number, json_parse, json_parsed, json_string, json_text,
    json_unsigned, member_views,
};
use vstd::prelude::*;

verus! {

/// The code of a kind that a value is: a whole number that fits in 32 bits.
pub open spec fn code_of_json(v: serde_json::Value) -> Option<u32> {
    match json_number(v) {
        Some(n) => if n <= u32::MAX {
            Some(n as u32)
        } else {
            None
        },
        None => None,
    }
}

/// The position of a parent that a value is: no position for `null`, and
/// else a whole number that fits in a `usize`.
pub open spec fn position_of_json(v: serde_json::Value) -> Option<Option<usize>> {
    if json_null(v) {
        Some(None)
    } else {
        match json_number(v) {
            Some(n) => if n <= usize::MAX {
                Some(Some(n as usize))
            } else {
                None
            },
            None => None,
        }
    }
}

/// The value that an optional reference refers to.
pub open spec fn referred(m: Option<&serde_json::Value>) -> Option<serde_json::Value> {
    match m {
        Some(v) => Some(*v),
        None => None,
    }
}

/// The parent of the given parts.
pub open spec fn parent_of_parts(ty: serde_json::Value, name: serde_json::Value) -> Option<
    ParentView,
> {
    match (code_of_json(ty), json_string(name)) {
        (Some(ty), Some(name)) => Some(ParentView { ty, name }),
        _ => None,
    }
}

/// The parent that a value is: an array of a code and a name, or an object
/// with the members `ty` and `name`.
pub open spec fn parent_of_json(v: serde_json::Value) -> Option<ParentView> {
    match json_array(v) {
        Some(a) => if a.len() == 2 {
            parent_of_parts(a[0], a[1])
        } else {
            None
        },
        None => match (json_member(v, "ty"@), json_member(v, "name"@)) {
            (Some(ty), Some(name)) => parent_of_parts(ty, name),
            _ => None,
        },
    }
}

/// The position of a parent that a part gives: none for a part left out, and
/// else the position that its value is.
pub open spec fn position_of_part(part: Option<serde_json::Value>) -> Option<Option<usize>> {
    match part {
        Some(v) => position_of_json(v),
        None => Some(None),
    }
}

/// The value that is carried along for a part: none for a part left out or
/// `null`, and else its value.
pub open spec fn carried_of_part(part: Option<serde_json::Value>) -> Option<serde_json::Value> {
    match part {
        Some(v) => if json_null(v) {
            None
        } else {
            Some(v)
        },
        None => None,
    }
}

/// The item of the given parts, of which the two last may be left out.
pub open spec fn item_of_parts(
    ty: serde_json::Value,
    name: serde_json::Value,
    path: serde_json::Value,
    desc: serde_json::Value,
    parent_idx: Option<serde_json::Value>,
    search_type: Option<serde_json::Value>,
) -> Option<ItemView> {
    match (
        code_of_json(ty),
        json_string(name),
        json_string(path),
        json_string(desc),
        position_of_part(parent_idx),
    ) {
        (Some(ty), Some(name), Some(path), Some(desc), Some(parent_idx)) => Some(
            ItemView { ty, name, path, desc, parent_idx, search_type: carried_of_part(search_type) },
        ),
        _ => None,
    }
}

/// The item that a value is: an array of its six parts, or an object with
/// the members `ty`, `name`, `path` and `desc`, and with or without
/// `parent_idx` and `search_type`.
pub open spec fn item_of_json(v: serde_json::Value) -> Option<ItemView> {
    match json_array(v) {
        Some(a) => if a.len() == 6 {
            item_of_parts(a[0], a[1], a[2], a[3], Some(a[4]), Some(a[5]))
        } else {
            None
        },
        None => match (
            json_member(v, "ty"@),
            json_member(v, "name"@),
            json_member(v, "path"@),
            json_member(v, "desc"@),
        ) {
            (Some(ty), Some(name), Some(path), Some(desc)) => item_of_parts(
                ty,
                name,
                path,
                desc,
                json_member(v, "parent_idx"@),
                json_member(v, "search_type"@),
            ),
            _ => None,
        },
    }
}

/// The items that a value is: an array of items.
pub open spec fn items_of_json(v: serde_json::Value) -> Option<Seq<ItemView>> {
    match json_array(v) {
        Some(a) => if forall|i: int| 0 <= i < a.len() ==> item_of_json(#[trigger] a[i]) is Some {
            Some(Seq::new(a.len(), |i: int| item_of_json(a[i])->0))
        } else {
            None
        },
        None => None,
    }
}

/// The table of parents that a value is: an array of parents.
pub open spec fn parents_of_json(v: serde_json::Value) -> Option<Seq<ParentView>> {
    match json_array(v) {
        Some(a) => if forall|i: int| 0 <= i < a.len() ==> parent_of_json(#[trigger] a[i]) is Some {
            Some(Seq::new(a.len(), |i: int| parent_of_json(a[i])->0))
        } else {
            None
        },
        None => None,
    }
}

/// The record of the given parts.
pub open spec fn index_of_parts(
    doc: serde_json::Value,
    items: serde_json::Value,
    paths: serde_json::Value,
) -> Option<IndexView> {
    match (json_string(doc), items_of_json(items), parents_of_json(paths)) {
        (Some(doc), Some(items), Some(paths)) => Some(IndexView { doc, items, paths }),
        _ => None,
    }
}

/// The record that a value is: an array of its three parts, or an object
/// with the members `doc`, `i` and `p`.
pub open spec fn index_of_json(v: serde_json::Value) -> Option<IndexView> {
    match json_array(v) {
        Some(a) => if a.len() == 3 {
            index_of_parts(a[0], a[1], a[2])
        } else {
            None
        },
        None => match (json_member(v, "doc"@), json_member(v, "i"@), json_member(v, "p"@)) {
            (Some(d), Some(i), Some(p)) => index_of_parts(d, i, p),
            _ => None,
        },
    }
}

/// The packages that a value is: an object whose members are records, each
/// under the name of its package.
pub open spec fn packages_of_json(v: serde_json::Value) -> Option<Seq<PackageView>> {
    match json_members(v) {
        Some(m) => if forall|i: int| 0 <= i < m.len() ==> index_of_json((#[trigger] m[i]).1) is Some {
            Some(
                Seq::new(
                    m.len(),
                    |i: int| PackageView { name: m[i].0, index: index_of_json(m[i].1)->0 },
                ),
            )
        } else {
            None
        },
        None => None,
    }
}

/// The packages that a text stands for; none where the text is no JSON, or
/// is JSON of another form.
pub open spec fn packages_of_text(text: Seq<char>) -> Option<Seq<PackageView>> {
    match json_parsed(text) {
        Some(v) => packages_of_json(v),
        None => None,
    }
}

/// Reads the code of a kind.
fn read_code(v: &serde_json::Value) -> (r: Option<u32>)
    ensures
        r == code_of_json(*v),
{
    match json_unsigned(v) {
        Some(n) => if n <= 0xffff_ffffu64 {
            Some(n as u32)
        } else {
            None
        },
        None => None,
    }
}

/// Reads the position of a parent.
fn read_position(v: &serde_json::Value) -> (r: Option<Option<usize>>)
    ensures
        r == position_of_json(*v),
{
    if json_is_null(v) {
        Some(None)
    } else {
        match json_unsigned(v) {
            Some(n) => if n <= usize::MAX as u64 {
                Some(Some(n as usize))
            } else {
                None
            },
            None => None,
        }
    }
}

/// Reads a string.
fn read_string(v: &serde_json::Value) -> (r: Option<String>)
    ensures
        match r {
            Some(s) => json_string(*v) == Some(s@),
            None => json_string(*v) is None,
        },
{
    match json_text(v) {
        Some(s) => Some(s.to_owned()),
        None => None,
    }
}

/// Puts a parent together from its parts.
fn parent_from_parts(ty: &serde_json::Value, name: &serde_json::Value) -> (r: Option<ParentEntry>)
    ensures
        match r {
            Some(p) => parent_of_parts(*ty, *name) == Some(p@),
            None => parent_of_parts(*ty, *name) is None,
        },
{
    match (read_code(ty), read_string(name)) {
        (Some(ty), Some(name)) => Some(ParentEntry { ty, name }),
        _ => None,
    }
}

/// Reads a parent; none where the value has not the form of one.
pub fn read_parent(v: &serde_json::Value) -> (r: Option<ParentEntry>)
    ensures
        match r {
            Some(p) => parent_of_json(*v) == Some(p@),
            None => parent_of_json(*v) is None,
        },
{
    match json_elements(v) {
        Some(a) => if a.len() == 2 {
            parent_from_parts(&a[0], &a[1])
        } else {
            None
        },
        None => match (json_field(v, "ty"), json_field(v, "name")) {
            (Some(ty), Some(name)) => parent_from_parts(ty, name),
            _ => None,
        },
    }
}

/// Puts an item together from its parts, of which the two last may be left
/// out.
fn item_from_parts(
    ty: &serde_json::Value,
    name: &serde_json::Value,
    path: &serde_json::Value,
    desc: &serde_json::Value,
    parent_idx: Option<&serde_json::Value>,
    search_type: Option<&serde_json::Value>,
) -> (r: Option<IndexItem>)
    ensures
        match r {
            Some(item) => item_of_parts(
                *ty,
                *name,
                *path,
                *desc,
                referred(parent_idx),
                referred(search_type),
            ) == Some(item@),
            None => item_of_parts(
                *ty,
                *name,
                *path,
                *desc,
                referred(parent_idx),
                referred(search_type),
            ) is None,
        },
{
    let position: Option<Option<usize>> = match parent_idx {
        Some(p) => read_position(p),
        None => Some(None),
    };
    match (read_code(ty), read_string(name), read_string(path), read_string(desc), position) {
        (Some(ty), Some(name), Some(path), Some(desc), Some(parent_idx)) => {
            let search_type = match search_type {
                Some(c) => if json_is_null(c) {
                    None
                } else {
                    Some(json_copy(c))
                },
                None => None,
            };
            Some(IndexItem { ty, name, path, desc, parent_idx, search_type })
        },
        _ => None,
    }
}

/// Reads an item; none where the value has not the form of one.
pub fn read_item(v: &serde_json::Value) -> (r: Option<IndexItem>)
    ensures
        match r {
            Some(item) => item_of_json(*v) == Some(item@),
            None => item_of_json(*v) is None,
        },
{
    match json_elements(v) {
        Some(a) => if a.len() == 6 {
            item_from_parts(&a[0], &a[1], &a[2], &a[3], Some(&a[4]), Some(&a[5]))
        } else {
            None
        },
        None => match (
            json_field(v, "ty"),
            json_field(v, "name"),
            json_field(v, "path"),
            json_field(v, "desc"),
        ) {
            (Some(ty), Some(name), Some(path), Some(desc)) => item_from_parts(
                ty,
                name,
                path,
                desc,
                json_field(v, "parent_idx"),
                json_field(v, "search_type"),
            ),
            _ => None,
        },
    }
}

/// Reads an array of items; none where the value is no array, or one of its
/// elements has not the form of an item.
pub fn read_items(v: &serde_json::Value) -> (r: Option<Vec<IndexItem>>)
    ensures
        match r {
            Some(items) => items_of_json(*v) == Some(item_views(items@)),
            None => items_of_json(*v) is None,
        },
{
    let a = match json_elements(v) {
        Some(a) => a,
        None => {
            return None;
        },
    };
    let mut items: Vec<IndexItem> = Vec::with_capacity(a.len());
    let mut i: usize = 0;
    while i < a.len()
        invariant
            json_array(*v) == Some(a@),
            i <= a.len(),
            items.len() == i,
            forall|k: int| 0 <= k < i ==> item_of_json(#[trigger] a[k]) == Some(items[k]@),
        decreases a.len() - i,
    {
        match read_item(&a[i]) {
            Some(item) => {
                items.push(item);
            },
            None => {
                return None;
            },
        }
        i += 1;
    }
    proof {
        assert(item_views(items@) =~= Seq::new(a@.len(), |i: int| item_of_json(a@[i])->0));
    }
    Some(items)
}

/// Reads a table of parents; none where the value is no array, or one of its
/// elements has not the form of a parent.
pub fn read_parents(v: &serde_json::Value) -> (r: Option<Vec<ParentEntry>>)
    ensures
        match r {
            Some(paths) => parents_of_json(*v) == Some(parent_views(paths@)),
            None => parents_of_json(*v) is None,
        },
{
    let a = match json_elements(v) {
        Some(a) => a,
        None => {
            return None;
        },
    };
    let mut paths: Vec<ParentEntry> = Vec::with_capacity(a.len());
    let mut i: usize = 0;
    while i < a.len()
        invariant
            json_array(*v) == Some(a@),
            i <= a.len(),
            paths.len() == i,
            forall|k: int| 0 <= k < i ==> parent_of_json(#[trigger] a[k]) == Some(paths[k]@),
        decreases a.len() - i,
    {
        match read_parent(&a[i]) {
            Some(p) => {
                paths.push(p);
            },
            None => {
                return None;
            },
        }
        i += 1;
    }
    proof {
        assert(parent_views(paths@) =~= Seq::new(a@.len(), |i: int| parent_of_json(a@[i])->0));
    }
    Some(paths)
}

/// Puts a record together from its parts.
fn index_from_parts(
    doc: &serde_json::Value,
    items: &serde_json::Value,
    paths: &serde_json::Value,
) -> (r: Option<SearchIndex>)
    ensures
        match r {
            Some(index) => index_of_parts(*doc, *items, *paths) == Some(index@),
            None => index_of_parts(*doc, *items, *paths) is None,
        },
{
    match (read_string(doc), read_items(items), read_parents(paths)) {
        (Some(doc), Some(items), Some(paths)) => Some(SearchIndex { doc, items, paths }),
        _ => None,
    }
}

/// Reads the record of a package; none where the value has not the form of
/// one.
pub fn read_index(v: &serde_json::Value) -> (r: Option<SearchIndex>)
    ensures
        match r {
            Some(index) => index_of_json(*v) == Some(index@),
            None => index_of_json(*v) is None,
        },
{
    match json_elements(v) {
        Some(a) => if a.len() == 3 {
            index_from_parts(&a[0], &a[1], &a[2])
        } else {
            None
        },
        None => match (json_field(v, "doc"), json_field(v, "i"), json_field(v, "p")) {
            (Some(d), Some(i), Some(p)) => index_from_parts(d, i, p),
            _ => None,
        },
    }
}

/// Reads the records of all packages, in the order of the object that holds
/// them; none where the value is no object, or one of its members has not
/// the form of a record.
pub fn read_packages(v: &serde_json::Value) -> (r: Option<Vec<Package>>)
    ensures
        match r {
            Some(packages) => packages_of_json(*v) == Some(package_views(packages@)),
            None => packages_of_json(*v) is None,
        },
{
    let members = match json_entries(v) {
        Some(members) => members,
        None => {
            return None;
        },
    };
    let ghost m = member_views(members@);
    let mut packages: Vec<Package> = Vec::with_capacity(members.len());
    let mut i: usize = 0;
    while i < members.len()
        invariant
            json_members(*v) == Some(m),
            m == member_views(members@),
            i <= members.len(),
            packages.len() == i,
            forall|k: int|
                0 <= k < i ==> index_of_json((#[trigger] m[k]).1) == Some(packages[k]@.index)
                    && packages[k]@.name == m[k].0,
        decreases members.len() - i,
    {
        let name: &String = members[i].0;
        let record: &serde_json::Value = members[i].1;
        assert(m[i as int] == (name@, *record));
        match read_index(record) {
            Some(index) => {
                packages.push(Package { name: name.clone(), index });
            },
            None => {
                return None;
            },
        }
        i += 1;
    }
    proof {
        assert(package_views(packages@) =~= Seq::new(
            m.len(),
            |i: int| PackageView { name: m[i].0, index: index_of_json(m[i].1)->0 },
        ));
    }
    Some(packages)
}

/// The packages that a parsed text holds: those of the value where the text
/// parsed and the value has their form, and else the error that says the
/// input is malformed.
pub fn packages_of_parsed(parsed: Result<serde_json::Value, serde_json::Error>) -> (r: Result<
    Vec<Package>,
    DecodeError,
>)
    ensures
        match r {
            Ok(packages) => parsed matches Ok(v) && packages_of_json(v) == Some(
                package_views(packages@),
            ),
            Err(e) => e == DecodeError::MalformedInput && (parsed matches Ok(v) ==> packages_of_json(
                v,
            ) is None),
        },
{
    match parsed {
        Ok(v) => match read_packages(&v) {
            Some(packages) => Ok(packages),
            None => Err(DecodeError::MalformedInput),
        },
        Err(_) => Err(DecodeError::MalformedInput),
    }
}

/// Parses the records of all packages out of a JSON text. Fails where the
/// text is no JSON, or is JSON of another form.
pub fn parse_packages(text: &str) -> (r: Result<Vec<Package>, DecodeError>)
    ensures
        match r {
            Ok(packages) => packages_of_text(text@) == Some(package_views(packages@)),
            Err(e) => e == DecodeError::MalformedInput && packages_of_text(text@) is None,
        },
{
    packages_of_parsed(json_parse(text))
}

impl RustDoc {
    /// Reads the set of entries out of the JSON text of a search index: the
    /// text is parsed into the records of its packages, and the records are
    /// decoded. Fails where the text has not the form of such records, and
    /// where a record cannot be decoded; nothing is read then.
    pub fn from_json(text: &str) -> (r: Result<RustDoc, DecodeError>)
        ensures
            match packages_of_text(text@) {
                Some(packages) => decodes_to(packages, r),
                None => r matches Err(DecodeError::MalformedInput),
            },
    {
        match parse_packages(text) {
            Ok(packages) => decode(&packages),
            Err(e) => Err(e),
        }
    }
}

} // verus!
