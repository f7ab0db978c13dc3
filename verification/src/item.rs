//! The item vocabulary of the schema graph: scopes, components, concepts,
//! messages, types and attributes, together with the reference-cell primitive
//! used at every cross-reference site.
//!
//! Every cross-item relationship is an identifier resolved through the single
//! owning arena; items never hold owning links to one another. The
//! specification functions here give each item a uniform view of its
//! reference cells, which the resolver's contracts are stated over.

use vstd::prelude::*;
use vstd::string::StringExecFns;

verus! {

/// The stable interned identifier of an item: its index in the arena, never
/// reused or mutated after creation.
pub type ItemId = usize;

/// The kind of an item, and the namespace a short name is looked up in.
#[derive(Debug, Clone, Copy, PartialEq, Eq, Structural)]
pub enum ItemKind {
    Scope,
    Component,
    Concept,
    Message,
    Type,
    Attribute,
}

/// A raw cross-reference path as recorded at parse time: the dot-separated
/// segments of the textual path, already split by the loader.
pub struct ItemPath {
    pub segments: Vec<String>,
}

/// The character-sequence view of a path: one sequence per segment.
pub open spec fn path_view(p: ItemPath) -> Seq<Seq<char>> {
    p.segments@.map(|i: int, s: String| s@)
}

/// Dot-joins a sequence of name segments.
pub open spec fn spec_join_path(segs: Seq<Seq<char>>) -> Seq<char>
    decreases segs.len(),
{
    if segs.len() == 0 {
        Seq::empty()
    } else if segs.len() == 1 {
        segs[0]
    } else {
        segs[0] + seq!['.'] + spec_join_path(segs.skip(1))
    }
}

/// Appending a segment extends the joined path by a dot and that segment.
pub proof fn lemma_join_path_push(segs: Seq<Seq<char>>, x: Seq<char>)
    ensures
        spec_join_path(segs.push(x)) == if segs.len() == 0 {
            x
        } else {
            spec_join_path(segs) + seq!['.'] + x
        },
    decreases segs.len(),
{
    if segs.len() == 0 {
        assert(segs.push(x).len() == 1);
        assert(segs.push(x)[0] == x);
    } else {
        lemma_join_path_push(segs.skip(1), x);
        assert(segs.push(x).skip(1) =~= segs.skip(1).push(x));
        if segs.len() == 1 {
            assert(segs.skip(1).len() == 0);
            assert(spec_join_path(segs) == segs[0]);
        }
    }
}

impl ItemPath {
    /// A path with the given segments.
    pub fn new(segments: Vec<String>) -> (r: ItemPath)
        ensures
            r.segments@ == segments@,
    {
        ItemPath { segments }
    }

    /// The dot-joined textual form of the path, exactly as a schema author
    /// wrote it.
    pub fn display(&self) -> (r: String)
        ensures
            r@ == spec_join_path(path_view(*self)),
    {
        let mut acc = String::new();
        let mut i: usize = 0;
        while i < self.segments.len()
            invariant
                i <= self.segments@.len(),
                acc@ == spec_join_path(path_view(*self).take(i as int)),
            decreases self.segments@.len() - i,
        {
            if i > 0 {
                acc.append(".");
                proof {
                    reveal_strlit(".");
                }
            }
            acc.append(self.segments[i].as_str());
            proof {
                let pv = path_view(*self);
                assert(pv.take(i + 1) =~= pv.take(i as int).push(pv[i as int]));
                lemma_join_path_push(pv.take(i as int), pv[i as int]);
                assert(pv[i as int] == self.segments@[i as int]@);
            }
            i += 1;
        }
        proof {
            assert(path_view(*self).take(self.segments@.len() as int) =~= path_view(*self));
        }
        acc
    }
}

/// The resolvable-reference primitive: every cross-reference site starts as
/// an unresolved textual path and, on success, becomes the identifier of an
/// item of the expected kind. No transition ever leaves `Resolved`.
pub enum ItemRef {
    Unresolved(ItemPath),
    Resolved(ItemId),
}

impl ItemRef {
    /// The resolved identifier, if resolution has reached this cell.
    pub open spec fn spec_resolved(self) -> Option<ItemId> {
        match self {
            ItemRef::Resolved(id) => Some(id),
            ItemRef::Unresolved(_) => None,
        }
    }

    /// The resolved identifier, if resolution has reached this cell.
    pub fn as_resolved(&self) -> (r: Option<ItemId>)
        ensures
            r == self.spec_resolved(),
    {
        match self {
            ItemRef::Resolved(id) => Some(*id),
            ItemRef::Unresolved(_) => None,
        }
    }
}

/// The data every item carries: its short name, an optional description and
/// the identifier of its owning scope (`None` only for the root scope and
/// for synthesized container types, which no scope owns).
pub struct ItemData {
    pub name: String,
    pub description: Option<String>,
    pub parent: Option<ItemId>,
}

/// A named, typed, described field: a reference cell to its value type and
/// an ordered sequence of reference cells to attributes, plus an optional
/// literal default value.
pub struct Component {
    pub data: ItemData,
    pub type_: ItemRef,
    pub attributes: Vec<ItemRef>,
    pub default_value: Option<String>,
}

/// A named bundle: reference cells to the parent concepts it extends and an
/// ordered mapping from component reference to a literal default value.
pub struct Concept {
    pub data: ItemData,
    pub extends: Vec<ItemRef>,
    pub defaults: Vec<(ItemRef, String)>,
}

/// A named wire payload shape: an ordered sequence of field name and value
/// type reference pairs.
pub struct MessageDef {
    pub data: ItemData,
    pub fields: Vec<(String, ItemRef)>,
}

/// What a type is: a primitive drawn from the fixed vocabulary (held by
/// name), an enumeration of ordered members with descriptions, or a
/// synthesized container form of a primitive type.
pub enum TypeInner {
    Primitive(String),
    Enumeration(Vec<(String, String)>),
    VecOf(ItemId),
    OptionOf(ItemId),
}

/// A user-defined or synthesized value type.
pub struct TypeDef {
    pub data: ItemData,
    pub inner: TypeInner,
}

/// A named tag with no payload beyond identity; its meaning is opaque to the
/// resolution engine.
pub struct AttributeDef {
    pub data: ItemData,
}

/// A namespace node: per kind, an ordered mapping from short name to item
/// identifier, in declaration order, plus the child scopes by name.
pub struct Scope {
    pub data: ItemData,
    pub components: Vec<(String, ItemId)>,
    pub concepts: Vec<(String, ItemId)>,
    pub messages: Vec<(String, ItemId)>,
    pub types: Vec<(String, ItemId)>,
    pub attributes: Vec<(String, ItemId)>,
    pub scopes: Vec<(String, ItemId)>,
}

/// Any item of the schema graph.
pub enum Item {
    Scope(Scope),
    Component(Component),
    Concept(Concept),
    Message(MessageDef),
    Type(TypeDef),
    Attribute(AttributeDef),
}

/// The kind of an item.
pub open spec fn kind_of(it: Item) -> ItemKind {
    match it {
        Item::Scope(_) => ItemKind::Scope,
        Item::Component(_) => ItemKind::Component,
        Item::Concept(_) => ItemKind::Concept,
        Item::Message(_) => ItemKind::Message,
        Item::Type(_) => ItemKind::Type,
        Item::Attribute(_) => ItemKind::Attribute,
    }
}

/// The common data of an item.
pub open spec fn data_of(it: Item) -> ItemData {
    match it {
        Item::Scope(x) => x.data,
        Item::Component(x) => x.data,
        Item::Concept(x) => x.data,
        Item::Message(x) => x.data,
        Item::Type(x) => x.data,
        Item::Attribute(x) => x.data,
    }
}

/// Every reference cell an item holds, in a fixed order: a component's value
/// type then its attributes; a concept's parents then its default keys; a
/// message's field types. Scopes, types and attributes hold no cells.
pub open spec fn cells(it: Item) -> Seq<ItemRef> {
    match it {
        Item::Component(x) => seq![x.type_] + x.attributes@,
        Item::Concept(x) => x.extends@ + x.defaults@.map(|i: int, p: (ItemRef, String)| p.0),
        Item::Message(x) => x.fields@.map(|i: int, p: (String, ItemRef)| p.1),
        _ => Seq::empty(),
    }
}

/// The kind of item each cell of `it` must resolve to, slot by slot.
pub open spec fn cell_kinds(it: Item) -> Seq<ItemKind> {
    match it {
        Item::Component(x) => seq![ItemKind::Type] + Seq::new(
            x.attributes@.len(),
            |i: int| ItemKind::Attribute,
        ),
        Item::Concept(x) => Seq::new(x.extends@.len(), |i: int| ItemKind::Concept) + Seq::new(
            x.defaults@.len(),
            |i: int| ItemKind::Component,
        ),
        Item::Message(x) => Seq::new(x.fields@.len(), |i: int| ItemKind::Type),
        _ => Seq::empty(),
    }
}

/// Two items agree on everything but the contents of their reference cells:
/// same kind, same data, same non-cell fields, same number of cells.
pub open spec fn same_skeleton(a: Item, b: Item) -> bool {
    match (a, b) {
        (Item::Scope(x), Item::Scope(y)) => x == y,
        (Item::Component(x), Item::Component(y)) => x.data == y.data && x.default_value
            == y.default_value && x.attributes@.len() == y.attributes@.len(),
        (Item::Concept(x), Item::Concept(y)) => x.data == y.data && x.extends@.len()
            == y.extends@.len() && x.defaults@.len() == y.defaults@.len() && (forall|j: int|
            0 <= j < x.defaults@.len() ==> x.defaults@[j].1 == y.defaults@[j].1),
        (Item::Message(x), Item::Message(y)) => x.data == y.data && x.fields@.len()
            == y.fields@.len() && (forall|j: int|
            0 <= j < x.fields@.len() ==> x.fields@[j].0 == y.fields@[j].0),
        (Item::Type(x), Item::Type(y)) => x == y,
        (Item::Attribute(x), Item::Attribute(y)) => x == y,
        _ => false,
    }
}

/// Two item sequences agree item by item on everything but cell contents.
pub open spec fn skeleton_eq(a: Seq<Item>, b: Seq<Item>) -> bool {
    a.len() == b.len() && forall|i: int| 0 <= i < a.len() ==> same_skeleton(a[i], b[i])
}

/// Items with the same skeleton have the same kind, data, cell count and
/// expected cell kinds.
pub proof fn lemma_same_skeleton_basics(a: Item, b: Item)
    requires
        same_skeleton(a, b),
    ensures
        kind_of(a) == kind_of(b),
        data_of(a) == data_of(b),
        cells(a).len() == cells(b).len(),
        cell_kinds(a) == cell_kinds(b),
{
    assert(cell_kinds(a) =~= cell_kinds(b));
}

/// First-match association lookup over an ordered name-to-identifier map.
pub open spec fn assoc_find(entries: Seq<(String, ItemId)>, name: Seq<char>) -> Option<ItemId>
    decreases entries.len(),
{
    if entries.len() == 0 {
        None
    } else if entries[0].0@ == name {
        Some(entries[0].1)
    } else {
        assoc_find(entries.skip(1), name)
    }
}

/// Looks a short name up in one of a scope's per-kind maps.
pub fn assoc_get(entries: &Vec<(String, ItemId)>, name: &String) -> (r: Option<ItemId>)
    ensures
        r == assoc_find(entries@, name@),
{
    let mut i: usize = 0;
    proof {
        assert(entries@.skip(0) =~= entries@);
    }
    while i < entries.len()
        invariant
            i <= entries@.len(),
            assoc_find(entries@, name@) == assoc_find(entries@.skip(i as int), name@),
        decreases entries@.len() - i,
    {
        if entries[i].0 == *name {
            proof {
                assert(entries@.skip(i as int)[0] == entries@[i as int]);
            }
            return Some(entries[i].1);
        }
        proof {
            assert(entries@.skip(i as int).skip(1) =~= entries@.skip(i + 1));
            assert(entries@.skip(i as int)[0] == entries@[i as int]);
        }
        i += 1;
    }
    proof {
        assert(entries@.skip(i as int).len() == 0);
    }
    None
}

impl Item {
    /// The kind of this item.
    pub fn kind(&self) -> (r: ItemKind)
        ensures
            r == kind_of(*self),
    {
        match self {
            Item::Scope(_) => ItemKind::Scope,
            Item::Component(_) => ItemKind::Component,
            Item::Concept(_) => ItemKind::Concept,
            Item::Message(_) => ItemKind::Message,
            Item::Type(_) => ItemKind::Type,
            Item::Attribute(_) => ItemKind::Attribute,
        }
    }

    /// The common data of this item.
    pub fn data(&self) -> (r: &ItemData)
        ensures
            *r == data_of(*self),
    {
        match self {
            Item::Scope(x) => &x.data,
            Item::Component(x) => &x.data,
            Item::Concept(x) => &x.data,
            Item::Message(x) => &x.data,
            Item::Type(x) => &x.data,
            Item::Attribute(x) => &x.data,
        }
    }
}

} // verus!
