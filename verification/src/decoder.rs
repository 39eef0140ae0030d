//! Decoding of per-package index records into documentation entries.
//!
//! A record lists its items in a compressed form: an item with an empty path
//! stands under the path of the nearest item before it that has one, and an
//! item names the entity it belongs to by a position in the record's table
//! of parents.

use crate::doc::{doc_views, elements, strictly_sorted, RustDoc};
use crate::item::{kind_of_code, DocItem, DocView, NameView, TypeItem};
use vstd::prelude::*;

verus! {

/// An entry of a record's table of parents.
#[derive(Clone, Debug, PartialEq, Eq)]
pub struct ParentEntry {
    pub ty: u32,
    pub name: String,
}

/// An item of a record, as the record holds it.
#[derive(Clone, Debug, PartialEq, Eq)]
pub struct IndexItem {
    pub ty: u32,
    pub name: String,
    pub path: String,
    pub desc: String,
    pub parent_idx: Option<usize>,
    pub search_type: Option<serde_json::Value>,
}

/// The record of one package.
#[derive(Clone, Debug, PartialEq, Eq)]
pub struct SearchIndex {
    pub doc: String,
    pub items: Vec<IndexItem>,
    pub paths: Vec<ParentEntry>,
}

/// A package's name with its record.
#[derive(Clone, Debug, PartialEq, Eq)]
pub struct Package {
    pub name: String,
    pub index: SearchIndex,
}

/// Why a record could not be decoded.
#[derive(Clone, Debug, PartialEq, Eq)]
pub enum DecodeError {
    /// The input does not have the shape of a record.
    MalformedInput,
    /// Item number `item` of the package names as its parent the position
    /// `parent_idx`, which the package's table of parents does not have.
    ParentIndexOutOfRange { package: String, item: usize, parent_idx: usize },
}

/// What a `ParentEntry` stands for.
pub struct ParentView {
    pub ty: u32,
    pub name: Seq<char>,
}

/// What an `IndexItem` stands for.
pub struct ItemView {
    pub ty: u32,
    pub name: Seq<char>,
    pub path: Seq<char>,
    pub desc: Seq<char>,
    pub parent_idx: Option<usize>,
    pub search_type: Option<serde_json::Value>,
}

/// What a `SearchIndex` stands for.
pub struct IndexView {
    pub doc: Seq<char>,
    pub items: Seq<ItemView>,
    pub paths: Seq<ParentView>,
}

/// What a `Package` stands for.
pub struct PackageView {
    pub name: Seq<char>,
    pub index: IndexView,
}

impl View for ParentEntry {
    type V = ParentView;

    open spec fn view(&self) -> ParentView {
        ParentView { ty: self.ty, name: self.name@ }
    }
}

impl View for IndexItem {
    type V = ItemView;

    open spec fn view(&self) -> ItemView {
        ItemView {
            ty: self.ty,
            name: self.name@,
            path: self.path@,
            desc: self.desc@,
            parent_idx: self.parent_idx,
            search_type: self.search_type,
        }
    }
}

/// What each item of a sequence stands for.
pub open spec fn item_views(items: Seq<IndexItem>) -> Seq<ItemView> {
    Seq::new(items.len(), |i: int| items[i]@)
}

/// What each entry of a table of parents stands for.
pub open spec fn parent_views(paths: Seq<ParentEntry>) -> Seq<ParentView> {
    Seq::new(paths.len(), |i: int| paths[i]@)
}

impl View for SearchIndex {
    type V = IndexView;

    open spec fn view(&self) -> IndexView {
        IndexView {
            doc: self.doc@,
            items: item_views(self.items@),
            paths: parent_views(self.paths@),
        }
    }
}

impl View for Package {
    type V = PackageView;

    open spec fn view(&self) -> PackageView {
        PackageView { name: self.name@, index: self.index@ }
    }
}

/// What each package of a sequence stands for.
pub open spec fn package_views(packages: Seq<Package>) -> Seq<PackageView> {
    Seq::new(packages.len(), |i: int| packages[i]@)
}

/// The path that item `i` stands under: its own where that is not empty,
/// else that of the item before it; empty where no item up to `i` has one.
pub open spec fn path_at(items: Seq<ItemView>, i: int) -> Seq<char>
    decreases i + 1,
{
    if i < 0 || i >= items.len() {
        Seq::empty()
    } else if items[i].path.len() > 0 {
        items[i].path
    } else {
        path_at(items, i - 1)
    }
}

/// Item `i` names no parent, or one that the table of parents has.
pub open spec fn parent_ok(index: IndexView, i: int) -> bool {
    match index.items[i].parent_idx {
        Some(p) => p < index.paths.len(),
        None => true,
    }
}

/// Every item of the record names no parent, or one that the table has.
pub open spec fn parents_ok(index: IndexView) -> bool {
    forall|i: int| 0 <= i < index.items.len() ==> parent_ok(index, i)
}

/// The parent that item `i` names, looked up in the table of parents.
pub open spec fn parent_at(index: IndexView, i: int) -> Option<NameView> {
    match index.items[i].parent_idx {
        Some(p) => Some(
            NameView { kind: kind_of_code(index.paths[p as int].ty), name: index.paths[p as int].name },
        ),
        None => None,
    }
}

/// The entry that item `i` of the record stands for.
pub open spec fn decoded_at(index: IndexView, i: int) -> DocView {
    DocView {
        name: NameView { kind: kind_of_code(index.items[i].ty), name: index.items[i].name },
        parent: parent_at(index, i),
        path: path_at(index.items, i),
        desc: index.items[i].desc,
    }
}

/// The entries that the items of the record stand for, in the record's order.
pub open spec fn decoded(index: IndexView) -> Seq<DocView> {
    Seq::new(index.items.len(), |i: int| decoded_at(index, i))
}

/// The entries of the first `n` packages, one package after the other.
pub open spec fn decoded_all(packages: Seq<PackageView>, n: int) -> Seq<DocView>
    decreases n,
{
    if n <= 0 {
        Seq::empty()
    } else {
        decoded_all(packages, n - 1) + decoded(packages[n - 1].index)
    }
}

/// `e` reports the first item of the package that names a parent which the
/// package's table does not have.
pub open spec fn reports_first_bad_parent(package: PackageView, e: DecodeError) -> bool {
    match e {
        DecodeError::MalformedInput => false,
        DecodeError::ParentIndexOutOfRange { package: name, item, parent_idx } => {
            &&& name@ == package.name
            &&& item < package.index.items.len()
            &&& package.index.items[item as int].parent_idx == Some(parent_idx)
            &&& parent_idx >= package.index.paths.len()
            &&& forall|k: int| 0 <= k < item ==> parent_ok(package.index, k)
        },
    }
}

/// `r` is what decoding the packages comes to: the set of all their entries
/// where every package can be decoded, and else the error of the first
/// package that cannot.
pub open spec fn decodes_to(packages: Seq<PackageView>, r: Result<RustDoc, DecodeError>) -> bool {
    &&& r is Ok <==> forall|p: int| 0 <= p < packages.len() ==> parents_ok(packages[p].index)
    &&& match r {
        Ok(doc) => strictly_sorted(doc@) && elements(doc@) == elements(
            decoded_all(packages, packages.len() as int),
        ),
        Err(e) => exists|p: int|
            0 <= p < packages.len() && reports_first_bad_parent(packages[p], e) && forall|q: int|
                0 <= q < p ==> parents_ok(packages[q].index),
    }
}

/// Decodes the record of one package into its entries, in the record's
/// order. Fails at the first item that names a parent which the table of
/// parents does not have.
pub fn decode_package(package: &Package) -> (r: Result<Vec<DocItem>, DecodeError>)
    ensures
        r is Ok <==> parents_ok(package.index@),
        match r {
            Ok(docs) => doc_views(docs@) == decoded(package.index@),
            Err(e) => reports_first_bad_parent(package@, e),
        },
{
    let index = &package.index;
    let mut docs: Vec<DocItem> = Vec::with_capacity(index.items.len());
    let mut last_path: String = String::new();
    let mut i: usize = 0;
    while i < index.items.len()
        invariant
            index == &package.index,
            i <= index.items.len(),
            docs.len() == i,
            last_path@ == path_at(index@.items, i - 1),
            forall|k: int| 0 <= k < i ==> parent_ok(index@, k),
            forall|k: int| 0 <= k < i ==> (#[trigger] docs[k])@ == decoded_at(index@, k),
        decreases index.items.len() - i,
    {
        let item = &index.items[i];
        if !item.path.as_str().is_empty() {
            last_path = item.path.clone();
        }
        assert(index@.items[i as int] == item@);
        assert(last_path@ == path_at(index@.items, i as int));
        let parent: Option<TypeItem> = match item.parent_idx {
            Some(p) => {
                if p < index.paths.len() {
                    let entry = &index.paths[p];
                    assert(index@.paths[p as int] == entry@);
                    Some(TypeItem::new(entry.ty, entry.name.clone()))
                } else {
                    assert(!parent_ok(package.index@, i as int));
                    return Err(
                        DecodeError::ParentIndexOutOfRange {
                            package: package.name.clone(),
                            item: i,
                            parent_idx: p,
                        },
                    );
                }
            },
            None => None,
        };
        let name = TypeItem::new(item.ty, item.name.clone());
        let doc = DocItem::new(name, parent, last_path.clone(), item.desc.clone());
        assert(doc@ == decoded_at(index@, i as int));
        docs.push(doc);
        i += 1;
    }
    proof {
        assert(doc_views(docs@) =~= decoded(package.index@));
    }
    Ok(docs)
}

/// Decodes the records of all packages into one set of entries. Fails with
/// the error of the first package that cannot be decoded, and then yields no
/// entries at all.
pub fn decode(packages: &Vec<Package>) -> (r: Result<RustDoc, DecodeError>)
    ensures
        decodes_to(package_views(packages@), r),
{
    let ghost views = package_views(packages@);
    let mut all: Vec<DocItem> = Vec::new();
    let mut p: usize = 0;
    while p < packages.len()
        invariant
            p <= packages.len(),
            views == package_views(packages@),
            forall|q: int| 0 <= q < p ==> parents_ok(views[q].index),
            doc_views(all@) == decoded_all(views, p as int),
        decreases packages.len() - p,
    {
        assert(views[p as int] == packages[p as int]@);
        match decode_package(&packages[p]) {
            Ok(mut docs) => {
                let ghost before = all@;
                let ghost added = docs@;
                all.append(&mut docs);
                proof {
                    assert(all@ == before + added);
                    assert(doc_views(all@) =~= doc_views(before) + doc_views(added));
                }
            },
            Err(e) => {
                return Err(e);
            },
        }
        p += 1;
    }
    Ok(RustDoc::new(all))
}

} // verus!
