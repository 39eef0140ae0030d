//! Documentation entries and their total order.

use crate::bytes::{compare_bytes, lemma_lex_transitive, lemma_lex_trichotomy, lex_lt, Order};
use vstd::prelude::*;
use vstd::utf8::{encode_utf8, encode_utf8_decode_utf8};

verus! {

/// The kind of a documented entity, as the numeric code of an index record
/// gives it. A code that stands for no known kind is kept in `Unknown`.
#[derive(Clone, Copy, Debug, PartialEq, Eq, Hash, Structural)]
pub enum EntityKind {
    Module,
    ExternCrate,
    Import,
    Struct,
    Enum,
    Function,
    Typedef,
    Static,
    Trait,
    Impl,
    TyMethod,
    Method,
    StructField,
    Variant,
    Macro,
    Primitive,
    AssociatedType,
    Constant,
    AssociatedConstant,
    Union,
    ForeignType,
    Keyword,
    Existential,
    AttributeMacro,
    DeriveMacro,
    TraitAlias,
    Unknown(u32),
}

/// The number of codes that stand for a known kind.
pub const KNOWN_KINDS: u32 = 26;

/// The kind that a numeric code stands for.
pub open spec fn kind_of_code(code: u32) -> EntityKind {
    if code == 0 {
        EntityKind::Module
    } else if code == 1 {
        EntityKind::ExternCrate
    } else if code == 2 {
        EntityKind::Import
    } else if code == 3 {
        EntityKind::Struct
    } else if code == 4 {
        EntityKind::Enum
    } else if code == 5 {
        EntityKind::Function
    } else if code == 6 {
        EntityKind::Typedef
    } else if code == 7 {
        EntityKind::Static
    } else if code == 8 {
        EntityKind::Trait
    } else if code == 9 {
        EntityKind::Impl
    } else if code == 10 {
        EntityKind::TyMethod
    } else if code == 11 {
        EntityKind::Method
    } else if code == 12 {
        EntityKind::StructField
    } else if code == 13 {
        EntityKind::Variant
    } else if code == 14 {
        EntityKind::Macro
    } else if code == 15 {
        EntityKind::Primitive
    } else if code == 16 {
        EntityKind::AssociatedType
    } else if code == 17 {
        EntityKind::Constant
    } else if code == 18 {
        EntityKind::AssociatedConstant
    } else if code == 19 {
        EntityKind::Union
    } else if code == 20 {
        EntityKind::ForeignType
    } else if code == 21 {
        EntityKind::Keyword
    } else if code == 22 {
        EntityKind::Existential
    } else if code == 23 {
        EntityKind::AttributeMacro
    } else if code == 24 {
        EntityKind::DeriveMacro
    } else if code == 25 {
        EntityKind::TraitAlias
    } else {
        EntityKind::Unknown(code)
    }
}

impl EntityKind {
    /// The place of a kind in the order of kinds: a known kind stands at its
    /// code, and every `Unknown` after all known kinds, by the code it holds.
    pub open spec fn rank(self) -> int {
        match self {
            EntityKind::Module => 0,
            EntityKind::ExternCrate => 1,
            EntityKind::Import => 2,
            EntityKind::Struct => 3,
            EntityKind::Enum => 4,
            EntityKind::Function => 5,
            EntityKind::Typedef => 6,
            EntityKind::Static => 7,
            EntityKind::Trait => 8,
            EntityKind::Impl => 9,
            EntityKind::TyMethod => 10,
            EntityKind::Method => 11,
            EntityKind::StructField => 12,
            EntityKind::Variant => 13,
            EntityKind::Macro => 14,
            EntityKind::Primitive => 15,
            EntityKind::AssociatedType => 16,
            EntityKind::Constant => 17,
            EntityKind::AssociatedConstant => 18,
            EntityKind::Union => 19,
            EntityKind::ForeignType => 20,
            EntityKind::Keyword => 21,
            EntityKind::Existential => 22,
            EntityKind::AttributeMacro => 23,
            EntityKind::DeriveMacro => 24,
            EntityKind::TraitAlias => 25,
            EntityKind::Unknown(code) => KNOWN_KINDS + code,
        }
    }

    /// The kind that `code` stands for; `Unknown(code)` where it stands for
    /// none.
    pub fn from_code(code: u32) -> (kind: EntityKind)
        ensures
            kind == kind_of_code(code),
            code < KNOWN_KINDS ==> kind.rank() == code,
            code >= KNOWN_KINDS ==> kind == EntityKind::Unknown(code),
    {
        match code {
            0 => EntityKind::Module,
            1 => EntityKind::ExternCrate,
            2 => EntityKind::Import,
            3 => EntityKind::Struct,
            4 => EntityKind::Enum,
            5 => EntityKind::Function,
            6 => EntityKind::Typedef,
            7 => EntityKind::Static,
            8 => EntityKind::Trait,
            9 => EntityKind::Impl,
            10 => EntityKind::TyMethod,
            11 => EntityKind::Method,
            12 => EntityKind::StructField,
            13 => EntityKind::Variant,
            14 => EntityKind::Macro,
            15 => EntityKind::Primitive,
            16 => EntityKind::AssociatedType,
            17 => EntityKind::Constant,
            18 => EntityKind::AssociatedConstant,
            19 => EntityKind::Union,
            20 => EntityKind::ForeignType,
            21 => EntityKind::Keyword,
            22 => EntityKind::Existential,
            23 => EntityKind::AttributeMacro,
            24 => EntityKind::DeriveMacro,
            25 => EntityKind::TraitAlias,
            _ => EntityKind::Unknown(code),
        }
    }

    /// The rank of a kind as a number.
    pub fn rank_number(self) -> (r: u64)
        ensures
            r == self.rank(),
    {
        match self {
            EntityKind::Module => 0,
            EntityKind::ExternCrate => 1,
            EntityKind::Import => 2,
            EntityKind::Struct => 3,
            EntityKind::Enum => 4,
            EntityKind::Function => 5,
            EntityKind::Typedef => 6,
            EntityKind::Static => 7,
            EntityKind::Trait => 8,
            EntityKind::Impl => 9,
            EntityKind::TyMethod => 10,
            EntityKind::Method => 11,
            EntityKind::StructField => 12,
            EntityKind::Variant => 13,
            EntityKind::Macro => 14,
            EntityKind::Primitive => 15,
            EntityKind::AssociatedType => 16,
            EntityKind::Constant => 17,
            EntityKind::AssociatedConstant => 18,
            EntityKind::Union => 19,
            EntityKind::ForeignType => 20,
            EntityKind::Keyword => 21,
            EntityKind::Existential => 22,
            EntityKind::AttributeMacro => 23,
            EntityKind::DeriveMacro => 24,
            EntityKind::TraitAlias => 25,
            EntityKind::Unknown(code) => 26u64 + (code as u64),
        }
    }
}

/// Two kinds of one rank are one kind.
pub proof fn lemma_rank_injective(a: EntityKind, b: EntityKind)
    requires
        a.rank() == b.rank(),
    ensures
        a == b,
{
}

/// What a `TypeItem` stands for: a kind and the characters of a name.
pub struct NameView {
    pub kind: EntityKind,
    pub name: Seq<char>,
}

/// What a `DocItem` stands for.
pub struct DocView {
    pub name: NameView,
    pub parent: Option<NameView>,
    pub path: Seq<char>,
    pub desc: Seq<char>,
}

/// The name of an entity together with its kind.
#[derive(Clone, Debug, PartialEq, Eq)]
pub struct TypeItem {
    pub kind: EntityKind,
    pub name: String,
}

/// One documentation entry: the entity's name, the entity it belongs to if
/// any, the path it is found under, and its description.
#[derive(Clone, Debug, PartialEq, Eq)]
pub struct DocItem {
    pub name: TypeItem,
    pub parent: Option<TypeItem>,
    pub path: String,
    pub desc: String,
}

impl View for TypeItem {
    type V = NameView;

    open spec fn view(&self) -> NameView {
        NameView { kind: self.kind, name: self.name@ }
    }
}

/// The view of an optional `TypeItem`.
pub open spec fn parent_view(parent: Option<TypeItem>) -> Option<NameView> {
    match parent {
        Some(p) => Some(p@),
        None => None,
    }
}

impl View for DocItem {
    type V = DocView;

    open spec fn view(&self) -> DocView {
        DocView {
            name: self.name@,
            parent: parent_view(self.parent),
            path: self.path@,
            desc: self.desc@,
        }
    }
}

/// `a` comes before `b`: the bytes of its UTF-8 encoding come first in
/// lexicographic order.
pub open spec fn text_lt(a: Seq<char>, b: Seq<char>) -> bool {
    lex_lt(encode_utf8(a), encode_utf8(b))
}

/// Names are ordered by their text, and names of one text by their kind.
pub open spec fn name_lt(a: NameView, b: NameView) -> bool {
    text_lt(a.name, b.name) || (a.name == b.name && a.kind.rank() < b.kind.rank())
}

/// No parent comes before any parent; two parents are ordered as names.
pub open spec fn parent_lt(a: Option<NameView>, b: Option<NameView>) -> bool {
    match (a, b) {
        (None, None) => false,
        (None, Some(_)) => true,
        (Some(_), None) => false,
        (Some(x), Some(y)) => name_lt(x, y),
    }
}

/// Entries are ordered by name, then parent, then path, then description.
pub open spec fn doc_lt(a: DocView, b: DocView) -> bool {
    ||| name_lt(a.name, b.name)
    ||| (a.name == b.name && parent_lt(a.parent, b.parent))
    ||| (a.name == b.name && a.parent == b.parent && text_lt(a.path, b.path))
    ||| (a.name == b.name && a.parent == b.parent && a.path == b.path && text_lt(a.desc, b.desc))
}

/// The bytes under which an entry is searched: the UTF-8 encoding of its bare
/// name.
pub open spec fn key_of(d: DocView) -> Seq<u8> {
    encode_utf8(d.name.name)
}

/// Of two texts exactly one holds: the first comes before the second, they
/// are equal, or the second comes before the first.
pub proof fn lemma_text_trichotomy(a: Seq<char>, b: Seq<char>)
    ensures
        text_lt(a, b) || a == b || text_lt(b, a),
        !(text_lt(a, b) && a == b),
        !(text_lt(b, a) && a == b),
        !(text_lt(a, b) && text_lt(b, a)),
        a == b <==> encode_utf8(a) == encode_utf8(b),
{
    lemma_lex_trichotomy(encode_utf8(a), encode_utf8(b));
    encode_utf8_decode_utf8(a);
    encode_utf8_decode_utf8(b);
}

/// The order of texts is transitive.
pub proof fn lemma_text_transitive(a: Seq<char>, b: Seq<char>, c: Seq<char>)
    requires
        text_lt(a, b),
        text_lt(b, c),
    ensures
        text_lt(a, c),
{
    lemma_lex_transitive(encode_utf8(a), encode_utf8(b), encode_utf8(c));
}

/// Of two names exactly one holds: the first comes before the second, they
/// are equal, or the second comes before the first.
pub proof fn lemma_name_trichotomy(a: NameView, b: NameView)
    ensures
        name_lt(a, b) || a == b || name_lt(b, a),
        !(name_lt(a, b) && a == b),
        !(name_lt(b, a) && a == b),
        !(name_lt(a, b) && name_lt(b, a)),
{
    lemma_text_trichotomy(a.name, b.name);
    if a.kind.rank() == b.kind.rank() {
        lemma_rank_injective(a.kind, b.kind);
    }
}

/// The order of names is transitive.
pub proof fn lemma_name_transitive(a: NameView, b: NameView, c: NameView)
    requires
        name_lt(a, b),
        name_lt(b, c),
    ensures
        name_lt(a, c),
{
    lemma_text_trichotomy(a.name, b.name);
    lemma_text_trichotomy(b.name, c.name);
    if text_lt(a.name, b.name) && text_lt(b.name, c.name) {
        lemma_text_transitive(a.name, b.name, c.name);
    }
}

/// Of two optional names exactly one holds: the first comes before the
/// second, they are equal, or the second comes before the first.
pub proof fn lemma_parent_trichotomy(a: Option<NameView>, b: Option<NameView>)
    ensures
        parent_lt(a, b) || a == b || parent_lt(b, a),
        !(parent_lt(a, b) && a == b),
        !(parent_lt(b, a) && a == b),
        !(parent_lt(a, b) && parent_lt(b, a)),
{
    if a is Some && b is Some {
        lemma_name_trichotomy(a->0, b->0);
    }
}

/// The order of optional names is transitive.
pub proof fn lemma_parent_transitive(a: Option<NameView>, b: Option<NameView>, c: Option<NameView>)
    requires
        parent_lt(a, b),
        parent_lt(b, c),
    ensures
        parent_lt(a, c),
{
    if a is Some && b is Some && c is Some {
        lemma_name_transitive(a->0, b->0, c->0);
    }
}

/// The order of entries is total: of two entries exactly one holds, the first
/// comes before the second, they are equal, or the second comes before the
/// first.
pub proof fn lemma_doc_trichotomy(a: DocView, b: DocView)
    ensures
        doc_lt(a, b) || a == b || doc_lt(b, a),
        !(doc_lt(a, b) && a == b),
        !(doc_lt(b, a) && a == b),
        !(doc_lt(a, b) && doc_lt(b, a)),
{
    lemma_name_trichotomy(a.name, b.name);
    lemma_parent_trichotomy(a.parent, b.parent);
    lemma_text_trichotomy(a.path, b.path);
    lemma_text_trichotomy(a.desc, b.desc);
}

/// The order of entries is transitive.
pub proof fn lemma_doc_transitive(a: DocView, b: DocView, c: DocView)
    requires
        doc_lt(a, b),
        doc_lt(b, c),
    ensures
        doc_lt(a, c),
{
    lemma_name_trichotomy(a.name, b.name);
    lemma_name_trichotomy(b.name, c.name);
    lemma_parent_trichotomy(a.parent, b.parent);
    lemma_parent_trichotomy(b.parent, c.parent);
    lemma_text_trichotomy(a.path, b.path);
    lemma_text_trichotomy(b.path, c.path);
    lemma_text_trichotomy(a.desc, b.desc);
    lemma_text_trichotomy(b.desc, c.desc);
    if name_lt(a.name, b.name) && name_lt(b.name, c.name) {
        lemma_name_transitive(a.name, b.name, c.name);
    }
    if parent_lt(a.parent, b.parent) && parent_lt(b.parent, c.parent) {
        lemma_parent_transitive(a.parent, b.parent, c.parent);
    }
    if text_lt(a.path, b.path) && text_lt(b.path, c.path) {
        lemma_text_transitive(a.path, b.path, c.path);
    }
    if text_lt(a.desc, b.desc) && text_lt(b.desc, c.desc) {
        lemma_text_transitive(a.desc, b.desc, c.desc);
    }
}

/// Entries in order have their keys in order: the order of entries refines
/// the lexicographic order of their keys.
pub proof fn lemma_doc_lt_keys(a: DocView, b: DocView)
    requires
        doc_lt(a, b),
    ensures
        key_of(a) == key_of(b) || lex_lt(key_of(a), key_of(b)),
{
}

/// Compares two texts by the bytes of their UTF-8 encoding.
pub fn compare_text(a: &str, b: &str) -> (r: Order)
    ensures
        r == Order::Less <==> text_lt(a@, b@),
        r == Order::Equal <==> a@ == b@,
        r == Order::Greater <==> text_lt(b@, a@),
{
    proof {
        lemma_text_trichotomy(a@, b@);
    }
    compare_bytes(a.as_bytes(), b.as_bytes())
}

impl TypeItem {
    /// A name of the kind that the code `ty` stands for.
    pub fn new(ty: u32, name: String) -> (item: TypeItem)
        ensures
            item.kind == kind_of_code(ty),
            item.name == name,
    {
        TypeItem { kind: EntityKind::from_code(ty), name }
    }

    /// Compares two names: by their text first, then by their kind.
    pub fn compare(&self, other: &TypeItem) -> (r: Order)
        ensures
            r == Order::Less <==> name_lt(self@, other@),
            r == Order::Equal <==> self@ == other@,
            r == Order::Greater <==> name_lt(other@, self@),
    {
        proof {
            lemma_name_trichotomy(self@, other@);
            lemma_text_trichotomy(self.name@, other.name@);
        }
        match compare_text(self.name.as_str(), other.name.as_str()) {
            Order::Less => Order::Less,
            Order::Greater => Order::Greater,
            Order::Equal => {
                let x: u64 = self.kind.rank_number();
                let y: u64 = other.kind.rank_number();
                if x < y {
                    Order::Less
                } else if x > y {
                    Order::Greater
                } else {
                    proof {
                        lemma_rank_injective(self.kind, other.kind);
                    }
                    Order::Equal
                }
            },
        }
    }

    /// A copy of this name.
    pub fn duplicate(&self) -> (item: TypeItem)
        ensures
            item == *self,
    {
        TypeItem { kind: self.kind, name: self.name.clone() }
    }
}

/// Compares two optional names: none comes before any.
pub fn compare_parents(a: &Option<TypeItem>, b: &Option<TypeItem>) -> (r: Order)
    ensures
        r == Order::Less <==> parent_lt(parent_view(*a), parent_view(*b)),
        r == Order::Equal <==> parent_view(*a) == parent_view(*b),
        r == Order::Greater <==> parent_lt(parent_view(*b), parent_view(*a)),
{
    match (a, b) {
        (None, None) => Order::Equal,
        (None, Some(_)) => Order::Less,
        (Some(_), None) => Order::Greater,
        (Some(x), Some(y)) => x.compare(y),
    }
}

impl DocItem {
    /// An entry of the given parts.
    pub fn new(name: TypeItem, parent: Option<TypeItem>, path: String, desc: String) -> (item:
        DocItem)
        ensures
            item.name == name,
            item.parent == parent,
            item.path == path,
            item.desc == desc,
    {
        DocItem { name, parent, path, desc }
    }

    /// The bytes under which this entry is searched: those of its bare name.
    pub fn index_key(&self) -> (key: &[u8])
        ensures
            key@ == key_of(self@),
    {
        self.name.name.as_str().as_bytes()
    }

    /// Compares two entries: by name, then parent, then path, then
    /// description.
    pub fn compare(&self, other: &DocItem) -> (r: Order)
        ensures
            r == Order::Less <==> doc_lt(self@, other@),
            r == Order::Equal <==> self@ == other@,
            r == Order::Greater <==> doc_lt(other@, self@),
    {
        proof {
            lemma_doc_trichotomy(self@, other@);
            lemma_name_trichotomy(self.name@, other.name@);
            lemma_parent_trichotomy(parent_view(self.parent), parent_view(other.parent));
            lemma_text_trichotomy(self.path@, other.path@);
            lemma_text_trichotomy(self.desc@, other.desc@);
        }
        match self.name.compare(&other.name) {
            Order::Less => Order::Less,
            Order::Greater => Order::Greater,
            Order::Equal => match compare_parents(&self.parent, &other.parent) {
                Order::Less => Order::Less,
                Order::Greater => Order::Greater,
                Order::Equal => match compare_text(self.path.as_str(), other.path.as_str()) {
                    Order::Less => Order::Less,
                    Order::Greater => Order::Greater,
                    Order::Equal => compare_text(self.desc.as_str(), other.desc.as_str()),
                },
            },
        }
    }

    /// A copy of this entry.
    pub fn duplicate(&self) -> (item: DocItem)
        ensures
            item == *self,
    {
        let parent = match &self.parent {
            Some(p) => Some(p.duplicate()),
            None => None,
        };
        DocItem {
            name: self.name.duplicate(),
            parent,
            path: self.path.clone(),
            desc: self.desc.clone(),
        }
    }
}

} // verus!
