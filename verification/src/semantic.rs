//! The semantic graph and its loader: documents are parsed into scope
//! subtrees merged under one shared root, append-only into the arena.

use vstd::prelude::*;

use crate::arena::{
    entries_wf, item_wf, items_wf, memo_wf, ItemArena,
};
use crate::err::SemanticError;
use crate::item::{
    assoc_find, assoc_get, cells, data_of, kind_of, path_view, AttributeDef, Component, Concept,
    Item, ItemData, ItemId, ItemKind, ItemPath, ItemRef, MessageDef, Scope, TypeDef, TypeInner,
};
use crate::scope::{kind_map, lemma_assoc_find_some, scope_map};

verus! {

/// One item of `a` evolved into the corresponding item of `b` by loading:
/// kind and common data never change, non-scope items do not change at all,
/// and a scope's per-kind maps only grow at the end, so every existing name
/// still resolves to the same identifier.
pub open spec fn item_preserved(a: Item, b: Item) -> bool {
    &&& kind_of(b) == kind_of(a)
    &&& data_of(b) == data_of(a)
    &&& (!(a is Scope) ==> b == a)
    &&& (a is Scope ==> (forall|kk: ItemKind|
        (#[trigger] scope_map(a->Scope_0, kk)).is_prefix_of(scope_map(b->Scope_0, kk))))
}

/// The whole arena evolved by loading: items are only appended, and each
/// existing item is preserved in the sense of [`item_preserved`].
pub open spec fn preserves_items(a: Seq<Item>, b: Seq<Item>) -> bool {
    &&& a.len() <= b.len()
    &&& (forall|x: int| 0 <= x < a.len() ==> #[trigger] item_preserved(a[x], b[x]))
}

/// Loading steps compose.
pub proof fn lemma_preserves_trans(a: Seq<Item>, b: Seq<Item>, c: Seq<Item>)
    requires
        preserves_items(a, b),
        preserves_items(b, c),
    ensures
        preserves_items(a, c),
{
    assert forall|x: int| 0 <= x < a.len() implies #[trigger] item_preserved(a[x], c[x]) by {
        assert(item_preserved(a[x], b[x]));
        assert(item_preserved(b[x], c[x]));
        if a[x] is Scope {
            assert forall|kk: ItemKind|
                (#[trigger] scope_map(a[x]->Scope_0, kk)).is_prefix_of(
                    scope_map(c[x]->Scope_0, kk),
                ) by {
                let sa = scope_map(a[x]->Scope_0, kk);
                let sb = scope_map(b[x]->Scope_0, kk);
                let sc = scope_map(c[x]->Scope_0, kk);
                assert(sa.is_prefix_of(sb));
                assert(sb.is_prefix_of(sc));
                assert(sa =~= sc.subrange(0, sa.len() as int));
            }
        }
    }
}

/// Loading never disturbs an existing association: first-match lookup still
/// finds the old entry once the map has grown at the end.
pub proof fn lemma_assoc_find_prefix(a: Seq<(String, ItemId)>, b: Seq<(String, ItemId)>, name: Seq<char>)
    requires
        a.is_prefix_of(b),
        assoc_find(a, name) is Some,
    ensures
        assoc_find(b, name) == assoc_find(a, name),
    decreases a.len(),
{
    assert(a[0] == b[0]);
    if a[0].0@ != name {
        assert(a.skip(1).is_prefix_of(b.skip(1)));
        lemma_assoc_find_prefix(a.skip(1), b.skip(1), name);
    }
}

/// Appending an association changes no earlier answer and answers the new
/// name when it was previously absent.
pub proof fn lemma_assoc_find_push(
    entries: Seq<(String, ItemId)>,
    e: (String, ItemId),
    name: Seq<char>,
)
    ensures
        assoc_find(entries.push(e), name) == (match assoc_find(entries, name) {
            Some(v) => Some(v),
            None => if e.0@ == name {
                Some(e.1)
            } else {
                None
            },
        }),
    decreases entries.len(),
{
    if entries.len() == 0 {
        assert(entries.push(e).len() == 1);
        assert(entries.push(e)[0] == e);
        assert(entries.push(e).skip(1).len() == 0);
        assert(assoc_find(entries.push(e).skip(1), name) is None);
    } else {
        assert(entries.push(e)[0] == entries[0]);
        assert(entries.push(e).skip(1) =~= entries.skip(1).push(e));
        lemma_assoc_find_push(entries.skip(1), e, name);
    }
}

/// The semantic graph: the arena that owns every item, and the identifier
/// of the synthetic root scope all documents merge under.
pub struct Semantic {
    pub items: ItemArena,
    pub root: ItemId,
}

impl Semantic {
    /// The graph's internal invariant: a well-formed arena whose root is a
    /// parentless scope.
    pub open spec fn wf(&self) -> bool {
        &&& self.items.wf()
        &&& self.root < self.items.items@.len()
        &&& self.items.items@[self.root as int] is Scope
        &&& data_of(self.items.items@[self.root as int]).parent is None
    }

    /// A graph holding nothing but the shared root scope.
    pub fn new() -> (r: Semantic)
        ensures
            r.wf(),
            r.items.items@.len() == 1,
            r.root == 0usize,
    {
        let mut items = ItemArena::new();
        let root_scope = Item::Scope(
            Scope {
                data: ItemData { name: String::new(), description: None, parent: None },
                components: Vec::new(),
                concepts: Vec::new(),
                messages: Vec::new(),
                types: Vec::new(),
                attributes: Vec::new(),
                scopes: Vec::new(),
            },
        );
        proof {
            assert(cells(root_scope).len() == 0);
            assert(item_wf(items.items@.push(root_scope), 0));
        }
        let root = items.insert(root_scope);
        Semantic { items, root }
    }

    /// The identifier of the root scope.
    pub fn root_scope(&self) -> (r: ItemId)
        ensures
            r == self.root,
    {
        self.root
    }

    /// Appends one entry to a scope's map of the given kind. The new entry
    /// must name an in-bounds item of that kind; a child scope must
    /// additionally have been created after its parent and point back at it.
    fn add_scope_entry(&mut self, sid: ItemId, k: ItemKind, name: String, id: ItemId)
        requires
            old(self).wf(),
            sid < old(self).items.items@.len(),
            old(self).items.items@[sid as int] is Scope,
            id < old(self).items.items@.len(),
            kind_of(old(self).items.items@[id as int]) == k,
            k == ItemKind::Scope ==> sid < id && data_of(old(self).items.items@[id as int]).parent
                == Some(sid),
        ensures
            final(self).wf(),
            final(self).root == old(self).root,
            final(self).items.items@.len() == old(self).items.items@.len(),
            final(self).items.vec_memo@ == old(self).items.vec_memo@,
            final(self).items.option_memo@ == old(self).items.option_memo@,
            forall|x: int|
                0 <= x < old(self).items.items@.len() && x != sid ==> final(self).items.items@[x]
                    == old(self).items.items@[x],
            final(self).items.items@[sid as int] is Scope,
            data_of(final(self).items.items@[sid as int]) == data_of(
                old(self).items.items@[sid as int],
            ),
            scope_map(final(self).items.items@[sid as int]->Scope_0, k) == scope_map(
                old(self).items.items@[sid as int]->Scope_0,
                k,
            ).push((name, id)),
            forall|kk: ItemKind|
                kk != k ==> #[trigger] scope_map(final(self).items.items@[sid as int]->Scope_0, kk)
                    == scope_map(old(self).items.items@[sid as int]->Scope_0, kk),
            preserves_items(old(self).items.items@, final(self).items.items@),
    {
        let ghost items0 = self.items.items@;
        let ghost entry: (String, ItemId) = (name, id);
        let slot = &mut self.items.items[sid];
        match slot {
            Item::Scope(s) => {
                match k {
                    ItemKind::Component => s.components.push((name, id)),
                    ItemKind::Concept => s.concepts.push((name, id)),
                    ItemKind::Message => s.messages.push((name, id)),
                    ItemKind::Type => s.types.push((name, id)),
                    ItemKind::Attribute => s.attributes.push((name, id)),
                    ItemKind::Scope => s.scopes.push((name, id)),
                }
            },
            _ => {
                proof {
                    assert(false);
                }
            },
        }
        proof {
            let items1 = self.items.items@;
            assert(items1 == items0.update(sid as int, items1[sid as int]));
            assert(forall|x: int| 0 <= x < items0.len() && x != sid ==> items1[x] == items0[x]);
            lemma_wf_after_entry(items0, items1, sid as int, entry, k);
            assert forall|x: int| 0 <= x < items0.len() implies #[trigger] item_preserved(
                items0[x],
                items1[x],
            ) by {
                if x == sid {
                    assert forall|kk: ItemKind|
                        (#[trigger] scope_map(items0[x]->Scope_0, kk)).is_prefix_of(
                            scope_map(items1[x]->Scope_0, kk),
                        ) by {
                        if kk == k {
                            assert(scope_map(items0[x]->Scope_0, kk).is_prefix_of(
                                scope_map(items0[x]->Scope_0, kk).push((name, id)),
                            ));
                        } else {
                            assert(scope_map(items1[x]->Scope_0, kk).is_prefix_of(
                                scope_map(items1[x]->Scope_0, kk),
                            ));
                        }
                    }
                }
            }
            lemma_memo_wf_scope_update(items0, items1, sid as int, self.items.vec_memo@, true);
            lemma_memo_wf_scope_update(items0, items1, sid as int, self.items.option_memo@, false);
        }
    }
}

/// Appending one valid entry to one scope map keeps every item well-formed.
pub proof fn lemma_wf_after_entry(
    items0: Seq<Item>,
    items1: Seq<Item>,
    sid: int,
    e: (String, ItemId),
    k: ItemKind,
)
    requires
        items_wf(items0),
        0 <= sid < items0.len(),
        items0[sid] is Scope,
        items1.len() == items0.len(),
        forall|x: int| 0 <= x < items0.len() && x != sid ==> items1[x] == items0[x],
        items1[sid] is Scope,
        data_of(items1[sid]) == data_of(items0[sid]),
        e.1 < items0.len(),
        kind_of(items0[e.1 as int]) == k,
        k == ItemKind::Scope ==> sid < e.1 && data_of(items0[e.1 as int]).parent == Some(
            sid as usize,
        ),
        scope_map(items1[sid]->Scope_0, k) == scope_map(items0[sid]->Scope_0, k).push(e),
        forall|kk: ItemKind|
            kk != k ==> #[trigger] scope_map(items1[sid]->Scope_0, kk) == scope_map(
                items0[sid]->Scope_0,
                kk,
            ),
    ensures
        items_wf(items1),
{
    assert(forall|x: int|
        0 <= x < items0.len() ==> kind_of(#[trigger] items1[x]) == kind_of(items0[x])
            && data_of(items1[x]) == data_of(items0[x]));
    assert forall|i: int| 0 <= i < items1.len() implies item_wf(items1, i) by {
        assert(item_wf(items0, i));
        lemma_item_wf_shape(items0, items1, i, e, k);
    }
}

/// An item stays well-formed when other items keep their kind and data and
/// scope maps only change where this item does not look.
pub proof fn lemma_item_wf_shape(
    items0: Seq<Item>,
    items1: Seq<Item>,
    i: int,
    e: (String, ItemId),
    k: ItemKind,
)
    requires
        items_wf(items0),
        0 <= i < items0.len(),
        items1.len() == items0.len(),
        forall|x: int|
            0 <= x < items0.len() ==> kind_of(#[trigger] items1[x]) == kind_of(items0[x])
                && data_of(items1[x]) == data_of(items0[x]),
        (items1[i] == items0[i]) || (items0[i] is Scope && items1[i] is Scope && data_of(
            items1[i],
        ) == data_of(items0[i]) && e.1 < items0.len() && kind_of(items0[e.1 as int]) == k && (k
            == ItemKind::Scope ==> i < e.1 && data_of(items0[e.1 as int]).parent == Some(
            i as usize,
        )) && scope_map(items1[i]->Scope_0, k) == scope_map(items0[i]->Scope_0, k).push(e) && (
        forall|kk: ItemKind|
            kk != k ==> #[trigger] scope_map(items1[i]->Scope_0, kk) == scope_map(
                items0[i]->Scope_0,
                kk,
            ))),
    ensures
        item_wf(items1, i),
{
    assert(item_wf(items0, i));
    let it0 = items0[i];
    let it1 = items1[i];
    assert(kind_of(it1) == kind_of(it0));
    if it1 == it0 {
        assert forall|j: int|
            0 <= j < cells(it1).len() implies crate::arena::ref_wf(
            items1,
            cells(it1)[j],
            crate::item::cell_kinds(it1)[j],
        ) by {
            assert(crate::arena::ref_wf(items0, cells(it0)[j], crate::item::cell_kinds(it0)[j]));
        }
        match it1 {
            Item::Scope(s) => {
                assert(entries_wf(items1, s.components@, ItemKind::Component));
                assert(entries_wf(items1, s.concepts@, ItemKind::Concept));
                assert(entries_wf(items1, s.messages@, ItemKind::Message));
                assert(entries_wf(items1, s.types@, ItemKind::Type));
                assert(entries_wf(items1, s.attributes@, ItemKind::Attribute));
                assert(entries_wf(items1, s.scopes@, ItemKind::Scope));
            },
            _ => {},
        }
    } else {
        let s0 = it0->Scope_0;
        let s1 = it1->Scope_0;
        assert forall|kk: ItemKind| entries_wf(items1, #[trigger] scope_map(s1, kk), kk) by {
            assert(entries_wf(items0, scope_map(s0, kk), kk));
            if kk == k {
                let m1 = scope_map(s1, kk);
                let m0 = scope_map(s0, kk);
                assert forall|j: int|
                    0 <= j < m1.len() implies m1[j].1 < items1.len() && kind_of(
                    items1[m1[j].1 as int],
                ) == kk by {
                    if j < m0.len() {
                        assert(m1[j] == m0[j]);
                    } else {
                        assert(m1[j] == e);
                    }
                }
            }
        }
        assert(entries_wf(items1, s1.components@, ItemKind::Component)) by {
            assert(scope_map(s1, ItemKind::Component) == s1.components@);
            assert(entries_wf(items1, scope_map(s1, ItemKind::Component), ItemKind::Component));
        }
        assert(entries_wf(items1, s1.concepts@, ItemKind::Concept)) by {
            assert(entries_wf(items1, scope_map(s1, ItemKind::Concept), ItemKind::Concept));
        }
        assert(entries_wf(items1, s1.messages@, ItemKind::Message)) by {
            assert(entries_wf(items1, scope_map(s1, ItemKind::Message), ItemKind::Message));
        }
        assert(entries_wf(items1, s1.types@, ItemKind::Type)) by {
            assert(entries_wf(items1, scope_map(s1, ItemKind::Type), ItemKind::Type));
        }
        assert(entries_wf(items1, s1.attributes@, ItemKind::Attribute)) by {
            assert(entries_wf(items1, scope_map(s1, ItemKind::Attribute), ItemKind::Attribute));
        }
        assert(entries_wf(items1, s1.scopes@, ItemKind::Scope)) by {
            assert(entries_wf(items1, scope_map(s1, ItemKind::Scope), ItemKind::Scope));
        }
        assert(crate::arena::children_wf(items1, i, s1.scopes@)) by {
            assert(crate::arena::children_wf(items0, i, s0.scopes@));
            let m1 = s1.scopes@;
            let m0 = s0.scopes@;
            if k == ItemKind::Scope {
                assert(m1 == m0.push(e));
                assert forall|j: int|
                    0 <= j < m1.len() implies i < m1[j].1 && data_of(items1[m1[j].1 as int]).parent
                        == Some(i as usize) by {
                    if j < m0.len() {
                        assert(m1[j] == m0[j]);
                    } else {
                        assert(m1[j] == e);
                    }
                }
            } else {
                assert(scope_map(s1, ItemKind::Scope) == scope_map(s0, ItemKind::Scope));
                assert(m1 == m0);
            }
        }
    }
}

/// A component declaration as the loader hands it over: all cross-references
/// are raw dotted paths, already split into segments.
pub struct DocComponent {
    pub name: String,
    pub description: Option<String>,
    pub type_path: Vec<String>,
    pub attribute_paths: Vec<Vec<String>>,
    pub default_value: Option<String>,
}

/// A concept declaration: the concepts it extends and the per-component
/// literal default values it provides, both by raw path.
pub struct DocConcept {
    pub name: String,
    pub description: Option<String>,
    pub extends: Vec<Vec<String>>,
    pub defaults: Vec<(Vec<String>, String)>,
}

/// A message declaration: ordered fields, each with a raw type path.
pub struct DocMessage {
    pub name: String,
    pub description: Option<String>,
    pub fields: Vec<(String, Vec<String>)>,
}

/// A type declaration: a primitive name from the fixed vocabulary, or an
/// enumeration of ordered members with descriptions.
pub enum DocTypeInner {
    Primitive(String),
    Enumeration(Vec<(String, String)>),
}

/// A user-defined type declaration.
pub struct DocType {
    pub name: String,
    pub description: Option<String>,
    pub inner: DocTypeInner,
}

/// An attribute declaration: a bare named tag.
pub struct DocAttribute {
    pub name: String,
    pub description: Option<String>,
}

/// One scope's worth of a parsed document: the five per-kind item lists and
/// the named child scopes. The exact document grammar is an external
/// concern; the loader yields this shape with every field already extracted.
pub struct DocScope {
    pub components: Vec<DocComponent>,
    pub concepts: Vec<DocConcept>,
    pub messages: Vec<DocMessage>,
    pub types: Vec<DocType>,
    pub attributes: Vec<DocAttribute>,
    pub scopes: Vec<(String, DocScope)>,
}

/// The scope `sid` maps `name` under kind `k` to the item `id`, whose short
/// name, owning scope and kind match the declaration.
pub open spec fn decl_found(
    items: Seq<Item>,
    sid: int,
    k: ItemKind,
    name: Seq<char>,
    id: ItemId,
) -> bool {
    &&& assoc_find(scope_map(items[sid]->Scope_0, k), name) == Some(id)
    &&& id < items.len()
    &&& kind_of(items[id as int]) == k
    &&& data_of(items[id as int]).name@ == name
    &&& data_of(items[id as int]).parent == Some(sid as usize)
}

/// The item mirrors a type declaration: same primitive name, or the same
/// enumeration members in declaration order.
pub open spec fn type_mirrors(it: Item, d: DocType) -> bool {
    it matches Item::Type(t) && (match t.inner {
        TypeInner::Primitive(n2) => d.inner matches DocTypeInner::Primitive(n) && n2@ == n@,
        TypeInner::Enumeration(ms2) => d.inner matches DocTypeInner::Enumeration(ms)
            && ms2@.len() == ms@.len() && (forall|x: int|
            0 <= x < ms@.len() ==> (#[trigger] ms2@[x]).0@ == ms@[x].0@ && ms2@[x].1@
                == ms@[x].1@),
        _ => false,
    })
}

/// The item mirrors a component declaration: an unresolved value-type cell
/// carrying the declared path segments, and one unresolved attribute cell
/// per declared attribute path, in order.
pub open spec fn component_mirrors(it: Item, d: DocComponent) -> bool {
    it matches Item::Component(c) && {
        &&& (c.type_ matches ItemRef::Unresolved(p) && path_view(p) == d.type_path@.map(
            |x: int, s2: String| s2@,
        ))
        &&& c.attributes@.len() == d.attribute_paths@.len()
        &&& (forall|x: int|
            0 <= x < d.attribute_paths@.len() ==> ((#[trigger] c.attributes@[x]) matches
            ItemRef::Unresolved(p2) && path_view(p2) == d.attribute_paths@[x]@.map(
                |y: int, s2: String| s2@,
            )))
    }
}

/// The item mirrors a concept declaration: unresolved parent cells and
/// unresolved default keys carrying the declared paths, with the declared
/// default values.
pub open spec fn concept_mirrors(it: Item, d: DocConcept) -> bool {
    it matches Item::Concept(c) && {
        &&& c.extends@.len() == d.extends@.len()
        &&& (forall|x: int|
            0 <= x < d.extends@.len() ==> ((#[trigger] c.extends@[x]) matches
            ItemRef::Unresolved(p) && path_view(p) == d.extends@[x]@.map(
                |y: int, s2: String| s2@,
            )))
        &&& c.defaults@.len() == d.defaults@.len()
        &&& (forall|x: int|
            0 <= x < d.defaults@.len() ==> ((#[trigger] c.defaults@[x]).0 matches
            ItemRef::Unresolved(p) && path_view(p) == d.defaults@[x].0@.map(
                |y: int, s2: String| s2@,
            ) && c.defaults@[x].1@ == d.defaults@[x].1@))
    }
}

/// The item mirrors a message declaration: the declared fields in order,
/// each with an unresolved type cell carrying the declared path.
pub open spec fn message_mirrors(it: Item, d: DocMessage) -> bool {
    it matches Item::Message(m) && {
        &&& m.fields@.len() == d.fields@.len()
        &&& (forall|x: int|
            0 <= x < d.fields@.len() ==> ((#[trigger] m.fields@[x]).0@ == d.fields@[x].0@ && (
            m.fields@[x].1 matches ItemRef::Unresolved(p) && path_view(p) == d.fields@[x].1@.map(
                |y: int, s2: String| s2@,
            ))))
    }
}

/// The declared type stands in the scope.
pub open spec fn type_present(items: Seq<Item>, sid: int, d: DocType) -> bool {
    exists|id: ItemId|
        #[trigger] decl_found(items, sid, ItemKind::Type, d.name@, id) && type_mirrors(
            items[id as int],
            d,
        )
}

/// The declared attribute stands in the scope.
pub open spec fn attribute_present(items: Seq<Item>, sid: int, d: DocAttribute) -> bool {
    exists|id: ItemId| #[trigger] decl_found(items, sid, ItemKind::Attribute, d.name@, id)
}

/// The declared component stands in the scope.
pub open spec fn component_present(items: Seq<Item>, sid: int, d: DocComponent) -> bool {
    exists|id: ItemId|
        #[trigger] decl_found(items, sid, ItemKind::Component, d.name@, id) && component_mirrors(
            items[id as int],
            d,
        )
}

/// The declared concept stands in the scope.
pub open spec fn concept_present(items: Seq<Item>, sid: int, d: DocConcept) -> bool {
    exists|id: ItemId|
        #[trigger] decl_found(items, sid, ItemKind::Concept, d.name@, id) && concept_mirrors(
            items[id as int],
            d,
        )
}

/// The declared message stands in the scope.
pub open spec fn message_present(items: Seq<Item>, sid: int, d: DocMessage) -> bool {
    exists|id: ItemId|
        #[trigger] decl_found(items, sid, ItemKind::Message, d.name@, id) && message_mirrors(
            items[id as int],
            d,
        )
}

/// Every declaration of the document stands in the scope it was merged
/// into: findable by its short name under its kind, mirroring what was
/// declared, with child document scopes merged into the named child scope,
/// recursively. (A merged child scope is reused whatever short name its
/// creating document stored for it, so only the map entry is stated.)
pub open spec fn doc_loaded(items: Seq<Item>, sid: int, doc: DocScope) -> bool
    decreases doc,
{
    &&& (forall|j: int| 0 <= j < doc.types@.len() ==> type_present(items, sid, #[trigger] doc.types@[j]))
    &&& (forall|j: int|
        0 <= j < doc.attributes@.len() ==> attribute_present(
            items,
            sid,
            #[trigger] doc.attributes@[j],
        ))
    &&& (forall|j: int|
        0 <= j < doc.components@.len() ==> component_present(
            items,
            sid,
            #[trigger] doc.components@[j],
        ))
    &&& (forall|j: int|
        0 <= j < doc.concepts@.len() ==> concept_present(items, sid, #[trigger] doc.concepts@[j]))
    &&& (forall|j: int|
        0 <= j < doc.messages@.len() ==> message_present(items, sid, #[trigger] doc.messages@[j]))
    &&& (forall|j: int|
        0 <= j < doc.scopes@.len() ==> (exists|cid: ItemId|
            #![all_triggers]
            assoc_find(scope_map(items[sid]->Scope_0, ItemKind::Scope), (
            #[trigger] doc.scopes@[j]).0@) == Some(cid) && cid < items.len()
                && items[cid as int] is Scope && doc_loaded(items, cid as int, doc.scopes@[j].1)))
}

/// A found declaration stays found while the graph only grows, and its
/// non-scope item is untouched.
pub proof fn lemma_decl_found_stable(
    a: Seq<Item>,
    b: Seq<Item>,
    sid: int,
    k: ItemKind,
    name: Seq<char>,
    id: ItemId,
)
    requires
        preserves_items(a, b),
        0 <= sid < a.len(),
        a[sid] is Scope,
        decl_found(a, sid, k, name, id),
    ensures
        decl_found(b, sid, k, name, id),
        k != ItemKind::Scope ==> b[id as int] == a[id as int],
{
    assert(item_preserved(a[sid], b[sid]));
    assert(scope_map(a[sid]->Scope_0, k).is_prefix_of(scope_map(b[sid]->Scope_0, k)));
    lemma_assoc_find_prefix(scope_map(a[sid]->Scope_0, k), scope_map(b[sid]->Scope_0, k), name);
    assert(item_preserved(a[id as int], b[id as int]));
}

/// Everything a document loaded stays loaded while the graph only grows.
pub proof fn lemma_doc_loaded_stable(a: Seq<Item>, b: Seq<Item>, sid: int, doc: DocScope)
    requires
        preserves_items(a, b),
        0 <= sid < a.len(),
        a[sid] is Scope,
        doc_loaded(a, sid, doc),
    ensures
        doc_loaded(b, sid, doc),
    decreases doc,
{
    assert forall|j: int| 0 <= j < doc.types@.len() implies type_present(
        b,
        sid,
        #[trigger] doc.types@[j],
    ) by {
        let id = choose|id: ItemId|
            #[trigger] decl_found(a, sid, ItemKind::Type, doc.types@[j].name@, id) && type_mirrors(
                a[id as int],
                doc.types@[j],
            );
        lemma_decl_found_stable(a, b, sid, ItemKind::Type, doc.types@[j].name@, id);
    }
    assert forall|j: int| 0 <= j < doc.attributes@.len() implies attribute_present(
        b,
        sid,
        #[trigger] doc.attributes@[j],
    ) by {
        let id = choose|id: ItemId|
            #[trigger] decl_found(a, sid, ItemKind::Attribute, doc.attributes@[j].name@, id);
        lemma_decl_found_stable(a, b, sid, ItemKind::Attribute, doc.attributes@[j].name@, id);
    }
    assert forall|j: int| 0 <= j < doc.components@.len() implies component_present(
        b,
        sid,
        #[trigger] doc.components@[j],
    ) by {
        let id = choose|id: ItemId|
            #[trigger] decl_found(a, sid, ItemKind::Component, doc.components@[j].name@, id)
                && component_mirrors(a[id as int], doc.components@[j]);
        lemma_decl_found_stable(a, b, sid, ItemKind::Component, doc.components@[j].name@, id);
    }
    assert forall|j: int| 0 <= j < doc.concepts@.len() implies concept_present(
        b,
        sid,
        #[trigger] doc.concepts@[j],
    ) by {
        let id = choose|id: ItemId|
            #[trigger] decl_found(a, sid, ItemKind::Concept, doc.concepts@[j].name@, id)
                && concept_mirrors(a[id as int], doc.concepts@[j]);
        lemma_decl_found_stable(a, b, sid, ItemKind::Concept, doc.concepts@[j].name@, id);
    }
    assert forall|j: int| 0 <= j < doc.messages@.len() implies message_present(
        b,
        sid,
        #[trigger] doc.messages@[j],
    ) by {
        let id = choose|id: ItemId|
            #[trigger] decl_found(a, sid, ItemKind::Message, doc.messages@[j].name@, id)
                && message_mirrors(a[id as int], doc.messages@[j]);
        lemma_decl_found_stable(a, b, sid, ItemKind::Message, doc.messages@[j].name@, id);
    }
    assert forall|j: int| 0 <= j < doc.scopes@.len() implies (exists|cid: ItemId|
        #![all_triggers]
        assoc_find(scope_map(b[sid]->Scope_0, ItemKind::Scope), (
        #[trigger] doc.scopes@[j]).0@) == Some(cid) && cid < b.len() && b[cid as int] is Scope
            && doc_loaded(b, cid as int, doc.scopes@[j].1)) by {
        let cid = choose|cid: ItemId|
            #![all_triggers]
            assoc_find(scope_map(a[sid]->Scope_0, ItemKind::Scope), doc.scopes@[j].0@) == Some(cid)
                && cid < a.len() && a[cid as int] is Scope && doc_loaded(
                a,
                cid as int,
                doc.scopes@[j].1,
            );
        assert(item_preserved(a[sid], b[sid]));
        assert(scope_map(a[sid]->Scope_0, ItemKind::Scope).is_prefix_of(
            scope_map(b[sid]->Scope_0, ItemKind::Scope),
        ));
        lemma_assoc_find_prefix(
            scope_map(a[sid]->Scope_0, ItemKind::Scope),
            scope_map(b[sid]->Scope_0, ItemKind::Scope),
            doc.scopes@[j].0@,
        );
        assert(item_preserved(a[cid as int], b[cid as int]));
        lemma_doc_loaded_stable(a, b, cid as int, doc.scopes@[j].1);
    }
}

/// Already-loaded type declarations stay loaded while the graph grows.
pub proof fn lemma_types_prefix_stable(
    a: Seq<Item>,
    b: Seq<Item>,
    sid: int,
    doc: DocScope,
    upto: int,
)
    requires
        preserves_items(a, b),
        0 <= sid < a.len(),
        a[sid] is Scope,
        upto <= doc.types@.len(),
        forall|x: int| 0 <= x < upto ==> type_present(a, sid, #[trigger] doc.types@[x]),
    ensures
        forall|x: int| 0 <= x < upto ==> type_present(b, sid, #[trigger] doc.types@[x]),
{
    assert forall|x: int| 0 <= x < upto implies type_present(b, sid, #[trigger] doc.types@[x]) by {
        let id = choose|id: ItemId|
            #[trigger] decl_found(a, sid, ItemKind::Type, doc.types@[x].name@, id) && type_mirrors(
                a[id as int],
                doc.types@[x],
            );
        lemma_decl_found_stable(a, b, sid, ItemKind::Type, doc.types@[x].name@, id);
    }
}

/// Already-loaded attribute declarations stay loaded while the graph grows.
pub proof fn lemma_attributes_prefix_stable(
    a: Seq<Item>,
    b: Seq<Item>,
    sid: int,
    doc: DocScope,
    upto: int,
)
    requires
        preserves_items(a, b),
        0 <= sid < a.len(),
        a[sid] is Scope,
        upto <= doc.attributes@.len(),
        forall|x: int| 0 <= x < upto ==> attribute_present(a, sid, #[trigger] doc.attributes@[x]),
    ensures
        forall|x: int| 0 <= x < upto ==> attribute_present(b, sid, #[trigger] doc.attributes@[x]),
{
    assert forall|x: int| 0 <= x < upto implies attribute_present(
        b,
        sid,
        #[trigger] doc.attributes@[x],
    ) by {
        let id = choose|id: ItemId|
            #[trigger] decl_found(a, sid, ItemKind::Attribute, doc.attributes@[x].name@, id);
        lemma_decl_found_stable(a, b, sid, ItemKind::Attribute, doc.attributes@[x].name@, id);
    }
}

/// Already-loaded component declarations stay loaded while the graph grows.
pub proof fn lemma_components_prefix_stable(
    a: Seq<Item>,
    b: Seq<Item>,
    sid: int,
    doc: DocScope,
    upto: int,
)
    requires
        preserves_items(a, b),
        0 <= sid < a.len(),
        a[sid] is Scope,
        upto <= doc.components@.len(),
        forall|x: int| 0 <= x < upto ==> component_present(a, sid, #[trigger] doc.components@[x]),
    ensures
        forall|x: int| 0 <= x < upto ==> component_present(b, sid, #[trigger] doc.components@[x]),
{
    assert forall|x: int| 0 <= x < upto implies component_present(
        b,
        sid,
        #[trigger] doc.components@[x],
    ) by {
        let id = choose|id: ItemId|
            #[trigger] decl_found(a, sid, ItemKind::Component, doc.components@[x].name@, id)
                && component_mirrors(a[id as int], doc.components@[x]);
        lemma_decl_found_stable(a, b, sid, ItemKind::Component, doc.components@[x].name@, id);
    }
}

/// Already-loaded concept declarations stay loaded while the graph grows.
pub proof fn lemma_concepts_prefix_stable(
    a: Seq<Item>,
    b: Seq<Item>,
    sid: int,
    doc: DocScope,
    upto: int,
)
    requires
        preserves_items(a, b),
        0 <= sid < a.len(),
        a[sid] is Scope,
        upto <= doc.concepts@.len(),
        forall|x: int| 0 <= x < upto ==> concept_present(a, sid, #[trigger] doc.concepts@[x]),
    ensures
        forall|x: int| 0 <= x < upto ==> concept_present(b, sid, #[trigger] doc.concepts@[x]),
{
    assert forall|x: int| 0 <= x < upto implies concept_present(
        b,
        sid,
        #[trigger] doc.concepts@[x],
    ) by {
        let id = choose|id: ItemId|
            #[trigger] decl_found(a, sid, ItemKind::Concept, doc.concepts@[x].name@, id)
                && concept_mirrors(a[id as int], doc.concepts@[x]);
        lemma_decl_found_stable(a, b, sid, ItemKind::Concept, doc.concepts@[x].name@, id);
    }
}

/// Already-loaded message declarations stay loaded while the graph grows.
pub proof fn lemma_messages_prefix_stable(
    a: Seq<Item>,
    b: Seq<Item>,
    sid: int,
    doc: DocScope,
    upto: int,
)
    requires
        preserves_items(a, b),
        0 <= sid < a.len(),
        a[sid] is Scope,
        upto <= doc.messages@.len(),
        forall|x: int| 0 <= x < upto ==> message_present(a, sid, #[trigger] doc.messages@[x]),
    ensures
        forall|x: int| 0 <= x < upto ==> message_present(b, sid, #[trigger] doc.messages@[x]),
{
    assert forall|x: int| 0 <= x < upto implies message_present(
        b,
        sid,
        #[trigger] doc.messages@[x],
    ) by {
        let id = choose|id: ItemId|
            #[trigger] decl_found(a, sid, ItemKind::Message, doc.messages@[x].name@, id)
                && message_mirrors(a[id as int], doc.messages@[x]);
        lemma_decl_found_stable(a, b, sid, ItemKind::Message, doc.messages@[x].name@, id);
    }
}

/// Already-merged child document scopes stay merged while the graph grows.
pub proof fn lemma_children_prefix_stable(
    a: Seq<Item>,
    b: Seq<Item>,
    sid: int,
    doc: DocScope,
    upto: int,
)
    requires
        preserves_items(a, b),
        0 <= sid < a.len(),
        a[sid] is Scope,
        upto <= doc.scopes@.len(),
        forall|j: int|
            0 <= j < upto ==> (exists|cid: ItemId|
                #![all_triggers]
                assoc_find(scope_map(a[sid]->Scope_0, ItemKind::Scope), (
                #[trigger] doc.scopes@[j]).0@) == Some(cid) && cid < a.len()
                    && a[cid as int] is Scope && doc_loaded(a, cid as int, doc.scopes@[j].1)),
    ensures
        forall|j: int|
            0 <= j < upto ==> (exists|cid: ItemId|
                #![all_triggers]
                assoc_find(scope_map(b[sid]->Scope_0, ItemKind::Scope), (
                #[trigger] doc.scopes@[j]).0@) == Some(cid) && cid < b.len()
                    && b[cid as int] is Scope && doc_loaded(b, cid as int, doc.scopes@[j].1)),
{
    assert forall|j: int| 0 <= j < upto implies (exists|cid: ItemId|
        #![all_triggers]
        assoc_find(scope_map(b[sid]->Scope_0, ItemKind::Scope), (
        #[trigger] doc.scopes@[j]).0@) == Some(cid) && cid < b.len() && b[cid as int] is Scope
            && doc_loaded(b, cid as int, doc.scopes@[j].1)) by {
        let cid = choose|cid: ItemId|
            #![all_triggers]
            assoc_find(scope_map(a[sid]->Scope_0, ItemKind::Scope), doc.scopes@[j].0@) == Some(cid)
                && cid < a.len() && a[cid as int] is Scope && doc_loaded(
                a,
                cid as int,
                doc.scopes@[j].1,
            );
        assert(item_preserved(a[sid], b[sid]));
        assert(scope_map(a[sid]->Scope_0, ItemKind::Scope).is_prefix_of(
            scope_map(b[sid]->Scope_0, ItemKind::Scope),
        ));
        lemma_assoc_find_prefix(
            scope_map(a[sid]->Scope_0, ItemKind::Scope),
            scope_map(b[sid]->Scope_0, ItemKind::Scope),
            doc.scopes@[j].0@,
        );
        assert(item_preserved(a[cid as int], b[cid as int]));
        lemma_doc_loaded_stable(a, b, cid as int, doc.scopes@[j].1);
    }
}

/// Clones an optional description.
pub fn clone_opt_string(o: &Option<String>) -> (r: Option<String>)
    ensures
        (o is Some <==> r is Some),
        o matches Some(s) ==> (r matches Some(t) && t@ == s@),
{
    match o {
        Some(s) => Some(s.clone()),
        None => None,
    }
}

/// Clones raw path segments into a reference-cell path.
fn clone_path(v: &Vec<String>) -> (r: ItemPath)
    ensures
        path_view(r) == v@.map(|i: int, s: String| s@),
{
    let mut segments: Vec<String> = Vec::new();
    let mut i: usize = 0;
    while i < v.len()
        invariant
            i <= v@.len(),
            segments@.len() == i,
            forall|j: int| 0 <= j < i ==> segments@[j]@ == v@[j]@,
        decreases v@.len() - i,
    {
        segments.push(v[i].clone());
        i += 1;
    }
    let r = ItemPath { segments };
    proof {
        assert(path_view(r) =~= v@.map(|i: int, s: String| s@));
    }
    r
}

/// Clones the ordered member list of an enumeration.
fn clone_pairs(v: &Vec<(String, String)>) -> (r: Vec<(String, String)>)
    ensures
        r@.len() == v@.len(),
        forall|j: int| 0 <= j < v@.len() ==> #[trigger] r@[j].0@ == v@[j].0@ && r@[j].1@ == v@[j].1@,
{
    let mut out: Vec<(String, String)> = Vec::new();
    let mut i: usize = 0;
    while i < v.len()
        invariant
            i <= v@.len(),
            out@.len() == i,
            forall|j: int| 0 <= j < i ==> #[trigger] out@[j].0@ == v@[j].0@ && out@[j].1@ == v@[j].1@,
        decreases v@.len() - i,
    {
        out.push((v[i].0.clone(), v[i].1.clone()));
        i += 1;
    }
    out
}

/// Clones a list of raw paths into unresolved reference cells carrying
/// exactly the declared segments.
fn clone_ref_paths(v: &Vec<Vec<String>>) -> (r: Vec<ItemRef>)
    ensures
        r@.len() == v@.len(),
        forall|j: int|
            0 <= j < v@.len() ==> ((#[trigger] r@[j]) matches ItemRef::Unresolved(p) && path_view(
                p,
            ) == v@[j]@.map(|y: int, s2: String| s2@)),
{
    let mut out: Vec<ItemRef> = Vec::new();
    let mut i: usize = 0;
    while i < v.len()
        invariant
            i <= v@.len(),
            out@.len() == i,
            forall|j: int|
                0 <= j < i ==> ((#[trigger] out@[j]) matches ItemRef::Unresolved(p) && path_view(
                    p,
                ) == v@[j]@.map(|y: int, s2: String| s2@)),
        decreases v@.len() - i,
    {
        out.push(ItemRef::Unresolved(clone_path(&v[i])));
        i += 1;
    }
    out
}

impl Semantic {
    /// Adds one non-scope item under `sid`, rejecting a short name already
    /// taken by an item of the same kind in that scope.
    fn add_item(&mut self, sid: ItemId, name: String, it: Item) -> (r: Result<
        ItemId,
        SemanticError,
    >)
        requires
            old(self).wf(),
            sid < old(self).items.items@.len(),
            old(self).items.items@[sid as int] is Scope,
            kind_of(it) != ItemKind::Scope,
            item_wf(
                old(self).items.items@.push(it),
                old(self).items.items@.len() as int,
            ),
        ensures
            final(self).wf(),
            final(self).root == old(self).root,
            final(self).items.vec_memo@ == old(self).items.vec_memo@,
            final(self).items.option_memo@ == old(self).items.option_memo@,
            preserves_items(old(self).items.items@, final(self).items.items@),
            sid < final(self).items.items@.len(),
            final(self).items.items@[sid as int] is Scope,
            match r {
                Ok(id) => {
                    &&& id == old(self).items.items@.len()
                    &&& final(self).items.items@.len() == old(self).items.items@.len() + 1
                    &&& final(self).items.items@[id as int] == it
                    &&& assoc_find(
                        scope_map(old(self).items.items@[sid as int]->Scope_0, kind_of(it)),
                        name@,
                    ) is None
                    &&& assoc_find(
                        scope_map(final(self).items.items@[sid as int]->Scope_0, kind_of(it)),
                        name@,
                    ) == Some(id)
                },
                Err(e) => {
                    &&& e is DuplicateName
                    &&& final(self).items.items@ == old(self).items.items@
                    &&& assoc_find(
                        scope_map(old(self).items.items@[sid as int]->Scope_0, kind_of(it)),
                        name@,
                    ) is Some
                },
            },
    {
        let k = it.kind();
        let is_dup = match &self.items.items[sid] {
            Item::Scope(s) => assoc_get(kind_map(s, k), &name).is_some(),
            _ => false,
        };
        if is_dup {
            return Err(SemanticError::DuplicateName { name });
        }
        let ghost items0 = self.items.items@;
        let id = self.items.insert(it);
        proof {
            assert(self.items.items@[id as int] == it);
            assert forall|x: int| 0 <= x < items0.len() implies #[trigger] item_preserved(
                items0[x],
                self.items.items@[x],
            ) by {
                assert(self.items.items@[x] == items0[x]);
                if items0[x] is Scope {
                    assert forall|kk: ItemKind|
                        (#[trigger] scope_map(items0[x]->Scope_0, kk)).is_prefix_of(
                            scope_map(self.items.items@[x]->Scope_0, kk),
                        ) by {}
                }
            }
        }
        let ghost items_mid = self.items.items@;
        let ghost name0 = name@;
        self.add_scope_entry(sid, k, name, id);
        proof {
            lemma_preserves_trans(items0, items_mid, self.items.items@);
            lemma_assoc_find_push(
                scope_map(items_mid[sid as int]->Scope_0, k),
                (name, id),
                name0,
            );
            assert(scope_map(items_mid[sid as int]->Scope_0, k) == scope_map(
                items0[sid as int]->Scope_0,
                k,
            ));
            assert(assoc_find(
                scope_map(self.items.items@[sid as int]->Scope_0, k),
                name0,
            ) == Some(id));
        }
        Ok(id)
    }

    /// The child scope of `sid` with the given short name: the existing one
    /// if a document already declared it (scopes merge across documents), a
    /// newly created one otherwise.
    fn add_child_scope(&mut self, sid: ItemId, name: String, description: Option<String>) -> (r:
        ItemId)
        requires
            old(self).wf(),
            sid < old(self).items.items@.len(),
            old(self).items.items@[sid as int] is Scope,
        ensures
            final(self).wf(),
            final(self).root == old(self).root,
            final(self).items.vec_memo@ == old(self).items.vec_memo@,
            final(self).items.option_memo@ == old(self).items.option_memo@,
            preserves_items(old(self).items.items@, final(self).items.items@),
            sid < final(self).items.items@.len(),
            final(self).items.items@[sid as int] is Scope,
            r < final(self).items.items@.len(),
            final(self).items.items@[r as int] is Scope,
            assoc_find(
                scope_map(final(self).items.items@[sid as int]->Scope_0, ItemKind::Scope),
                name@,
            ) == Some(r),
    {
        let ghost name0 = name@;
        let existing = match &self.items.items[sid] {
            Item::Scope(s) => assoc_get(&s.scopes, &name),
            _ => None,
        };
        match existing {
            Some(cid) => {
                proof {
                    assert(item_wf(self.items.items@, sid as int));
                    lemma_assoc_find_some(
                        self.items.items@[sid as int]->Scope_0.scopes@,
                        name@,
                        cid,
                    );
                    assert forall|x: int|
                        0 <= x < self.items.items@.len() implies #[trigger] item_preserved(
                        self.items.items@[x],
                        self.items.items@[x],
                    ) by {}
                }
                cid
            },
            None => {
                let ghost items0 = self.items.items@;
                let item_name = name.clone();
                let child = Item::Scope(
                    Scope {
                        data: ItemData {
                            name: item_name,
                            description,
                            parent: Some(sid),
                        },
                        components: Vec::new(),
                        concepts: Vec::new(),
                        messages: Vec::new(),
                        types: Vec::new(),
                        attributes: Vec::new(),
                        scopes: Vec::new(),
                    },
                );
                proof {
                    assert(cells(child).len() == 0);
                    assert(item_wf(items0.push(child), items0.len() as int));
                }
                let id = self.items.insert(child);
                proof {
                    assert forall|x: int| 0 <= x < items0.len() implies #[trigger] item_preserved(
                        items0[x],
                        self.items.items@[x],
                    ) by {
                        assert(self.items.items@[x] == items0[x]);
                    }
                }
                let ghost items_mid = self.items.items@;
                self.add_scope_entry(sid, ItemKind::Scope, name, id);
                proof {
                    lemma_preserves_trans(items0, items_mid, self.items.items@);
                    lemma_assoc_find_push(
                        scope_map(items_mid[sid as int]->Scope_0, ItemKind::Scope),
                        (name, id),
                        name0,
                    );
                    assert(scope_map(items_mid[sid as int]->Scope_0, ItemKind::Scope)
                        == scope_map(items0[sid as int]->Scope_0, ItemKind::Scope));
                }
                id
            },
        }
    }

    /// Merges one parsed scope's declarations into the scope `sid`, then
    /// each child document scope into the matching (or newly created) child
    /// scope, recursively. Two items of one kind sharing a short name in one
    /// scope fail with `DuplicateName` before resolution ever runs.
    #[verifier::loop_isolation(false)]
    fn add_into_scope(&mut self, sid: ItemId, doc: &DocScope) -> (r: Result<(), SemanticError>)
        requires
            old(self).wf(),
            sid < old(self).items.items@.len(),
            old(self).items.items@[sid as int] is Scope,
        ensures
            final(self).wf(),
            final(self).root == old(self).root,
            final(self).items.vec_memo@ == old(self).items.vec_memo@,
            final(self).items.option_memo@ == old(self).items.option_memo@,
            preserves_items(old(self).items.items@, final(self).items.items@),
            r matches Err(e) ==> e is DuplicateName,
            r matches Ok(u) ==> doc_loaded(final(self).items.items@, sid as int, *doc),
        decreases *doc,
    {
        let ghost items0 = self.items.items@;
        let mut i: usize = 0;
        while i < doc.types.len()
            invariant
                self.wf(),
                self.root == old(self).root,
                self.items.vec_memo@ == old(self).items.vec_memo@,
                self.items.option_memo@ == old(self).items.option_memo@,
                preserves_items(items0, self.items.items@),
                sid < self.items.items@.len(),
                self.items.items@[sid as int] is Scope,
                forall|x: int|
                    0 <= x < i ==> type_present(self.items.items@, sid as int, #[trigger] doc.types@[x]),
            decreases doc.types@.len() - i,
        {
            let dt = &doc.types[i];
            let inner = match &dt.inner {
                DocTypeInner::Primitive(n) => TypeInner::Primitive(n.clone()),
                DocTypeInner::Enumeration(ms) => TypeInner::Enumeration(clone_pairs(ms)),
            };
            let it = Item::Type(
                TypeDef {
                    data: ItemData {
                        name: dt.name.clone(),
                        description: clone_opt_string(&dt.description),
                        parent: Some(sid),
                    },
                    inner,
                },
            );
            proof {
                assert(cells(it).len() == 0);
                assert(item_wf(
                    self.items.items@.push(it),
                    self.items.items@.len() as int,
                ));
            }
            let ghost pre = self.items.items@;
            let ghost itg = it;
            match self.add_item(sid, dt.name.clone(), it) {
                Ok(nid) => {
                    proof {
                        let cur = self.items.items@;
                        assert(cur[nid as int] == itg);
                        assert(decl_found(
                            cur,
                            sid as int,
                            ItemKind::Type,
                            doc.types@[i as int].name@,
                            nid,
                        ));
                        assert(type_mirrors(cur[nid as int], doc.types@[i as int]));
                        assert(type_present(cur, sid as int, doc.types@[i as int]));

                        lemma_types_prefix_stable(pre, cur, sid as int, *doc, i as int);
                    }
                },
                Err(e) => {
                    proof {
                        lemma_preserves_trans(items0, pre, self.items.items@);
                    }
                    return Err(e);
                },
            }
            proof {
                lemma_preserves_trans(items0, pre, self.items.items@);
            }
            i += 1;
        }
        let mut i: usize = 0;
        while i < doc.attributes.len()
            invariant
                self.wf(),
                self.root == old(self).root,
                self.items.vec_memo@ == old(self).items.vec_memo@,
                self.items.option_memo@ == old(self).items.option_memo@,
                preserves_items(items0, self.items.items@),
                sid < self.items.items@.len(),
                self.items.items@[sid as int] is Scope,
                forall|x: int|
                    0 <= x < doc.types@.len() ==> type_present(self.items.items@, sid as int, #[trigger] doc.types@[x]),
                forall|x: int|
                    0 <= x < i ==> attribute_present(self.items.items@, sid as int, #[trigger] doc.attributes@[x]),
            decreases doc.attributes@.len() - i,
        {
            let da = &doc.attributes[i];
            let it = Item::Attribute(
                AttributeDef {
                    data: ItemData {
                        name: da.name.clone(),
                        description: clone_opt_string(&da.description),
                        parent: Some(sid),
                    },
                },
            );
            proof {
                assert(cells(it).len() == 0);
                assert(item_wf(
                    self.items.items@.push(it),
                    self.items.items@.len() as int,
                ));
            }
            let ghost pre = self.items.items@;
            let ghost itg = it;
            match self.add_item(sid, da.name.clone(), it) {
                Ok(nid) => {
                    proof {
                        let cur = self.items.items@;
                        assert(cur[nid as int] == itg);
                        assert(decl_found(
                            cur,
                            sid as int,
                            ItemKind::Attribute,
                            doc.attributes@[i as int].name@,
                            nid,
                        ));

                        assert(attribute_present(cur, sid as int, doc.attributes@[i as int]));
                        lemma_types_prefix_stable(pre, cur, sid as int, *doc, doc.types@.len() as int);
                        lemma_attributes_prefix_stable(pre, cur, sid as int, *doc, i as int);
                    }
                },
                Err(e) => {
                    proof {
                        lemma_preserves_trans(items0, pre, self.items.items@);
                    }
                    return Err(e);
                },
            }
            proof {
                lemma_preserves_trans(items0, pre, self.items.items@);
            }
            i += 1;
        }
        let mut i: usize = 0;
        while i < doc.components.len()
            invariant
                self.wf(),
                self.root == old(self).root,
                self.items.vec_memo@ == old(self).items.vec_memo@,
                self.items.option_memo@ == old(self).items.option_memo@,
                preserves_items(items0, self.items.items@),
                sid < self.items.items@.len(),
                self.items.items@[sid as int] is Scope,
                forall|x: int|
                    0 <= x < doc.types@.len() ==> type_present(self.items.items@, sid as int, #[trigger] doc.types@[x]),
                forall|x: int|
                    0 <= x < doc.attributes@.len() ==> attribute_present(self.items.items@, sid as int, #[trigger] doc.attributes@[x]),
                forall|x: int|
                    0 <= x < i ==> component_present(self.items.items@, sid as int, #[trigger] doc.components@[x]),
            decreases doc.components@.len() - i,
        {
            let dc = &doc.components[i];
            let it = Item::Component(
                Component {
                    data: ItemData {
                        name: dc.name.clone(),
                        description: clone_opt_string(&dc.description),
                        parent: Some(sid),
                    },
                    type_: ItemRef::Unresolved(clone_path(&dc.type_path)),
                    attributes: clone_ref_paths(&dc.attribute_paths),
                    default_value: clone_opt_string(&dc.default_value),
                },
            );
            proof {
                let pushed = self.items.items@.push(it);
                let n = self.items.items@.len() as int;
                assert(pushed[n] == it);
                assert forall|j: int| 0 <= j < cells(it).len() implies crate::arena::ref_wf(
                    pushed,
                    cells(it)[j],
                    crate::item::cell_kinds(it)[j],
                ) by {
                    assert(cells(it)[j] is Unresolved);
                }
                assert(item_wf(pushed, n));
            }
            let ghost pre = self.items.items@;
            let ghost itg = it;
            match self.add_item(sid, dc.name.clone(), it) {
                Ok(nid) => {
                    proof {
                        let cur = self.items.items@;
                        assert(cur[nid as int] == itg);
                        assert(decl_found(
                            cur,
                            sid as int,
                            ItemKind::Component,
                            doc.components@[i as int].name@,
                            nid,
                        ));
                        assert(component_mirrors(cur[nid as int], doc.components@[i as int]));
                        assert(component_present(cur, sid as int, doc.components@[i as int]));
                        lemma_types_prefix_stable(pre, cur, sid as int, *doc, doc.types@.len() as int);
                        lemma_attributes_prefix_stable(pre, cur, sid as int, *doc, doc.attributes@.len() as int);
                        lemma_components_prefix_stable(pre, cur, sid as int, *doc, i as int);
                    }
                },
                Err(e) => {
                    proof {
                        lemma_preserves_trans(items0, pre, self.items.items@);
                    }
                    return Err(e);
                },
            }
            proof {
                lemma_preserves_trans(items0, pre, self.items.items@);
            }
            i += 1;
        }
        let mut i: usize = 0;
        while i < doc.concepts.len()
            invariant
                self.wf(),
                self.root == old(self).root,
                self.items.vec_memo@ == old(self).items.vec_memo@,
                self.items.option_memo@ == old(self).items.option_memo@,
                preserves_items(items0, self.items.items@),
                sid < self.items.items@.len(),
                self.items.items@[sid as int] is Scope,
                forall|x: int|
                    0 <= x < doc.types@.len() ==> type_present(self.items.items@, sid as int, #[trigger] doc.types@[x]),
                forall|x: int|
                    0 <= x < doc.attributes@.len() ==> attribute_present(self.items.items@, sid as int, #[trigger] doc.attributes@[x]),
                forall|x: int|
                    0 <= x < doc.components@.len() ==> component_present(self.items.items@, sid as int, #[trigger] doc.components@[x]),
                forall|x: int|
                    0 <= x < i ==> concept_present(self.items.items@, sid as int, #[trigger] doc.concepts@[x]),
            decreases doc.concepts@.len() - i,
        {
            let dk = &doc.concepts[i];
            let mut defaults: Vec<(ItemRef, String)> = Vec::new();
            let mut j: usize = 0;
            while j < dk.defaults.len()
                invariant
                    j <= dk.defaults@.len(),
                    defaults@.len() == j,
                    forall|x: int|
                        0 <= x < j ==> ((#[trigger] defaults@[x]).0 matches ItemRef::Unresolved(p)
                            && path_view(p) == dk.defaults@[x].0@.map(|y: int, s2: String| s2@)
                            && defaults@[x].1@ == dk.defaults@[x].1@),
                decreases dk.defaults@.len() - j,
            {
                defaults.push(
                    (ItemRef::Unresolved(clone_path(&dk.defaults[j].0)), dk.defaults[j].1.clone()),
                );
                j += 1;
            }
            let it = Item::Concept(
                Concept {
                    data: ItemData {
                        name: dk.name.clone(),
                        description: clone_opt_string(&dk.description),
                        parent: Some(sid),
                    },
                    extends: clone_ref_paths(&dk.extends),
                    defaults,
                },
            );
            proof {
                let pushed = self.items.items@.push(it);
                let n = self.items.items@.len() as int;
                assert(pushed[n] == it);
                assert forall|j2: int| 0 <= j2 < cells(it).len() implies crate::arena::ref_wf(
                    pushed,
                    cells(it)[j2],
                    crate::item::cell_kinds(it)[j2],
                ) by {
                    assert(cells(it)[j2] is Unresolved);
                }
                assert(item_wf(pushed, n));
            }
            let ghost pre = self.items.items@;
            let ghost itg = it;
            match self.add_item(sid, dk.name.clone(), it) {
                Ok(nid) => {
                    proof {
                        let cur = self.items.items@;
                        assert(cur[nid as int] == itg);
                        assert(decl_found(
                            cur,
                            sid as int,
                            ItemKind::Concept,
                            doc.concepts@[i as int].name@,
                            nid,
                        ));
                        assert(concept_mirrors(cur[nid as int], doc.concepts@[i as int]));
                        assert(concept_present(cur, sid as int, doc.concepts@[i as int]));
                        lemma_types_prefix_stable(pre, cur, sid as int, *doc, doc.types@.len() as int);
                        lemma_attributes_prefix_stable(pre, cur, sid as int, *doc, doc.attributes@.len() as int);
                        lemma_components_prefix_stable(pre, cur, sid as int, *doc, doc.components@.len() as int);
                        lemma_concepts_prefix_stable(pre, cur, sid as int, *doc, i as int);
                    }
                },
                Err(e) => {
                    proof {
                        lemma_preserves_trans(items0, pre, self.items.items@);
                    }
                    return Err(e);
                },
            }
            proof {
                lemma_preserves_trans(items0, pre, self.items.items@);
            }
            i += 1;
        }
        let mut i: usize = 0;
        while i < doc.messages.len()
            invariant
                self.wf(),
                self.root == old(self).root,
                self.items.vec_memo@ == old(self).items.vec_memo@,
                self.items.option_memo@ == old(self).items.option_memo@,
                preserves_items(items0, self.items.items@),
                sid < self.items.items@.len(),
                self.items.items@[sid as int] is Scope,
                forall|x: int|
                    0 <= x < doc.types@.len() ==> type_present(self.items.items@, sid as int, #[trigger] doc.types@[x]),
                forall|x: int|
                    0 <= x < doc.attributes@.len() ==> attribute_present(self.items.items@, sid as int, #[trigger] doc.attributes@[x]),
                forall|x: int|
                    0 <= x < doc.components@.len() ==> component_present(self.items.items@, sid as int, #[trigger] doc.components@[x]),
                forall|x: int|
                    0 <= x < doc.concepts@.len() ==> concept_present(self.items.items@, sid as int, #[trigger] doc.concepts@[x]),
                forall|x: int|
                    0 <= x < i ==> message_present(self.items.items@, sid as int, #[trigger] doc.messages@[x]),
            decreases doc.messages@.len() - i,
        {
            let dm = &doc.messages[i];
            let mut fields: Vec<(String, ItemRef)> = Vec::new();
            let mut j: usize = 0;
            while j < dm.fields.len()
                invariant
                    j <= dm.fields@.len(),
                    fields@.len() == j,
                    forall|x: int|
                        0 <= x < j ==> ((#[trigger] fields@[x]).0@ == dm.fields@[x].0@ && (
                        fields@[x].1 matches ItemRef::Unresolved(p) && path_view(p)
                            == dm.fields@[x].1@.map(|y: int, s2: String| s2@))),
                decreases dm.fields@.len() - j,
            {
                fields.push(
                    (dm.fields[j].0.clone(), ItemRef::Unresolved(clone_path(&dm.fields[j].1))),
                );
                j += 1;
            }
            let it = Item::Message(
                MessageDef {
                    data: ItemData {
                        name: dm.name.clone(),
                        description: clone_opt_string(&dm.description),
                        parent: Some(sid),
                    },
                    fields,
                },
            );
            proof {
                let pushed = self.items.items@.push(it);
                let n = self.items.items@.len() as int;
                assert(pushed[n] == it);
                assert forall|j2: int| 0 <= j2 < cells(it).len() implies crate::arena::ref_wf(
                    pushed,
                    cells(it)[j2],
                    crate::item::cell_kinds(it)[j2],
                ) by {
                    assert(cells(it)[j2] is Unresolved);
                }
                assert(item_wf(pushed, n));
            }
            let ghost pre = self.items.items@;
            let ghost itg = it;
            match self.add_item(sid, dm.name.clone(), it) {
                Ok(nid) => {
                    proof {
                        let cur = self.items.items@;
                        assert(cur[nid as int] == itg);
                        assert(decl_found(
                            cur,
                            sid as int,
                            ItemKind::Message,
                            doc.messages@[i as int].name@,
                            nid,
                        ));
                        assert(message_mirrors(cur[nid as int], doc.messages@[i as int]));
                        assert(message_present(cur, sid as int, doc.messages@[i as int]));
                        lemma_types_prefix_stable(pre, cur, sid as int, *doc, doc.types@.len() as int);
                        lemma_attributes_prefix_stable(pre, cur, sid as int, *doc, doc.attributes@.len() as int);
                        lemma_components_prefix_stable(pre, cur, sid as int, *doc, doc.components@.len() as int);
                        lemma_concepts_prefix_stable(pre, cur, sid as int, *doc, doc.concepts@.len() as int);
                        lemma_messages_prefix_stable(pre, cur, sid as int, *doc, i as int);
                    }
                },
                Err(e) => {
                    proof {
                        lemma_preserves_trans(items0, pre, self.items.items@);
                    }
                    return Err(e);
                },
            }
            proof {
                lemma_preserves_trans(items0, pre, self.items.items@);
            }
            i += 1;
        }
        let mut i: usize = 0;
        while i < doc.scopes.len()
            invariant
                self.wf(),
                self.root == old(self).root,
                self.items.vec_memo@ == old(self).items.vec_memo@,
                self.items.option_memo@ == old(self).items.option_memo@,
                preserves_items(items0, self.items.items@),
                sid < self.items.items@.len(),
                self.items.items@[sid as int] is Scope,
                forall|x: int|
                    0 <= x < doc.types@.len() ==> type_present(self.items.items@, sid as int, #[trigger] doc.types@[x]),
                forall|x: int|
                    0 <= x < doc.attributes@.len() ==> attribute_present(self.items.items@, sid as int, #[trigger] doc.attributes@[x]),
                forall|x: int|
                    0 <= x < doc.components@.len() ==> component_present(self.items.items@, sid as int, #[trigger] doc.components@[x]),
                forall|x: int|
                    0 <= x < doc.concepts@.len() ==> concept_present(self.items.items@, sid as int, #[trigger] doc.concepts@[x]),
                forall|x: int|
                    0 <= x < doc.messages@.len() ==> message_present(self.items.items@, sid as int, #[trigger] doc.messages@[x]),
                forall|j2: int|
                    0 <= j2 < i ==> (exists|cid2: ItemId|
                        #![all_triggers]
                        assoc_find(scope_map(self.items.items@[sid as int]->Scope_0, ItemKind::Scope), (
                        #[trigger] doc.scopes@[j2]).0@) == Some(cid2) && cid2 < self.items.items@.len()
                            && self.items.items@[cid2 as int] is Scope && doc_loaded(
                            self.items.items@,
                            cid2 as int,
                            doc.scopes@[j2].1,
                        )),
            decreases doc.scopes@.len() - i,
        {
            let ghost pre = self.items.items@;
            let cid = self.add_child_scope(sid, doc.scopes[i].0.clone(), None);
            let ghost mid = self.items.items@;
            proof {
                assert(decreases_to!(*doc => doc.scopes));
                assert(decreases_to!(doc.scopes => doc.scopes@));
                assert(decreases_to!(doc.scopes@ => doc.scopes@[i as int]));
                assert(decreases_to!(doc.scopes@[i as int] => doc.scopes@[i as int].1));
            }
            match self.add_into_scope(cid, &doc.scopes[i].1) {
                Ok(_) => {},
                Err(e) => {
                    proof {
                        lemma_preserves_trans(pre, mid, self.items.items@);
                        lemma_preserves_trans(items0, pre, self.items.items@);
                    }
                    return Err(e);
                },
            }
            proof {
                lemma_preserves_trans(pre, mid, self.items.items@);
                lemma_preserves_trans(items0, pre, self.items.items@);
                assert(item_preserved(pre[sid as int], self.items.items@[sid as int]));
                assert(kind_of(self.items.items@[sid as int]) == ItemKind::Scope);
                let cur = self.items.items@;
                assert(assoc_find(
                    scope_map(mid[sid as int]->Scope_0, ItemKind::Scope),
                    doc.scopes@[i as int].0@,
                ) == Some(cid));
                assert(item_preserved(mid[sid as int], cur[sid as int]));
                assert(scope_map(mid[sid as int]->Scope_0, ItemKind::Scope).is_prefix_of(
                    scope_map(cur[sid as int]->Scope_0, ItemKind::Scope),
                ));
                lemma_assoc_find_prefix(
                    scope_map(mid[sid as int]->Scope_0, ItemKind::Scope),
                    scope_map(cur[sid as int]->Scope_0, ItemKind::Scope),
                    doc.scopes@[i as int].0@,
                );
                assert(item_preserved(mid[cid as int], cur[cid as int]));
                assert(cur[cid as int] is Scope);
                assert(doc_loaded(cur, cid as int, doc.scopes@[i as int].1));
                lemma_types_prefix_stable(pre, cur, sid as int, *doc, doc.types@.len() as int);
                lemma_attributes_prefix_stable(
                    pre,
                    cur,
                    sid as int,
                    *doc,
                    doc.attributes@.len() as int,
                );
                lemma_components_prefix_stable(
                    pre,
                    cur,
                    sid as int,
                    *doc,
                    doc.components@.len() as int,
                );
                lemma_concepts_prefix_stable(
                    pre,
                    cur,
                    sid as int,
                    *doc,
                    doc.concepts@.len() as int,
                );
                lemma_messages_prefix_stable(
                    pre,
                    cur,
                    sid as int,
                    *doc,
                    doc.messages@.len() as int,
                );
                lemma_children_prefix_stable(pre, cur, sid as int, *doc, i as int);
            }
            i += 1;
        }
        proof {
            assert(doc_loaded(self.items.items@, sid as int, *doc));
        }
        Ok(())
    }

    /// Parses one document into a scope subtree merged under the shared
    /// root. Documents may reference items of documents already added or
    /// still to come: nothing is resolved here, and forward references
    /// across documents are legal until [`Semantic::resolve`] runs.
    pub fn add_document(&mut self, doc: &DocScope) -> (r: Result<(), SemanticError>)
        requires
            old(self).wf(),
        ensures
            final(self).wf(),
            final(self).root == old(self).root,
            preserves_items(old(self).items.items@, final(self).items.items@),
            r matches Err(e) ==> e is DuplicateName,
            r matches Ok(u) ==> doc_loaded(
                final(self).items.items@,
                old(self).root as int,
                *doc,
            ),
    {
        let root = self.root;
        self.add_into_scope(root, doc)
    }
}

/// A memoization table cares only about type items, which a scope-map
/// update never touches.
pub proof fn lemma_memo_wf_scope_update(
    items0: Seq<Item>,
    items1: Seq<Item>,
    sid: int,
    memo: Seq<(ItemId, ItemId)>,
    vec_form: bool,
)
    requires
        memo_wf(items0, memo, vec_form),
        0 <= sid < items0.len(),
        items0[sid] is Scope,
        items1[sid] is Scope,
        items1.len() == items0.len(),
        forall|x: int| 0 <= x < items0.len() && x != sid ==> items1[x] == items0[x],
    ensures
        memo_wf(items1, memo, vec_form),
{
    assert forall|j: int|
        0 <= j < memo.len() implies memo[j].0 < items1.len() && memo[j].1 < items1.len() && (
    items1[memo[j].1 as int] matches Item::Type(t) && t.inner == (if vec_form {
        crate::item::TypeInner::VecOf(memo[j].0)
    } else {
        crate::item::TypeInner::OptionOf(memo[j].0)
    })) by {
        assert(memo[j].1 != sid);
    }
}

} // verus!
