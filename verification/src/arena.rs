//! The item arena: sole owner of every item, keyed by stable interned
//! identifiers, with memoized on-demand synthesis of the derived list-form
//! and optional-form of each primitive type.

use vstd::prelude::*;
use vstd::string::StringExecFns;

use crate::err::SemanticError;
use crate::item::{
    cell_kinds, cells, data_of, kind_of, Item, ItemData, ItemId, ItemKind, ItemRef, TypeDef,
    TypeInner,
};

verus! {

/// A reference cell may only be `Resolved` to an in-bounds item of the
/// expected kind.
pub open spec fn ref_wf(items: Seq<Item>, c: ItemRef, k: ItemKind) -> bool {
    match c {
        ItemRef::Resolved(id) => id < items.len() && kind_of(items[id as int]) == k,
        ItemRef::Unresolved(_) => true,
    }
}

/// Every entry of a per-kind scope map names an in-bounds item of that kind.
pub open spec fn entries_wf(items: Seq<Item>, entries: Seq<(String, ItemId)>, k: ItemKind) -> bool {
    forall|j: int|
        0 <= j < entries.len() ==> entries[j].1 < items.len() && kind_of(
            items[entries[j].1 as int],
        ) == k
}

/// A scope's children were created after it and name it as their parent;
/// this is what makes the scope graph a tree and every traversal finite.
pub open spec fn children_wf(items: Seq<Item>, i: int, entries: Seq<(String, ItemId)>) -> bool {
    forall|j: int|
        0 <= j < entries.len() ==> i < entries[j].1 && data_of(items[entries[j].1 as int]).parent
            == Some(i as usize)
}

/// Well-formedness of one item within the arena.
pub open spec fn item_wf(items: Seq<Item>, i: int) -> bool {
    let it = items[i];
    &&& (forall|j: int|
        0 <= j < cells(it).len() ==> ref_wf(items, cells(it)[j], cell_kinds(it)[j]))
    &&& match data_of(it).parent {
        Some(p) => p < i && items[p as int] is Scope,
        None => true,
    }
    &&& ((it is Component || it is Concept || it is Message) ==> data_of(it).parent is Some)
    &&& match it {
        Item::Scope(s) => {
            &&& entries_wf(items, s.components@, ItemKind::Component)
            &&& entries_wf(items, s.concepts@, ItemKind::Concept)
            &&& entries_wf(items, s.messages@, ItemKind::Message)
            &&& entries_wf(items, s.types@, ItemKind::Type)
            &&& entries_wf(items, s.attributes@, ItemKind::Attribute)
            &&& entries_wf(items, s.scopes@, ItemKind::Scope)
            &&& children_wf(items, i, s.scopes@)
        },
        Item::Type(t) => match t.inner {
            TypeInner::VecOf(p) => p < items.len() && items[p as int] is Type,
            TypeInner::OptionOf(p) => p < items.len() && items[p as int] is Type,
            _ => true,
        },
        _ => true,
    }
}

/// Well-formedness of the whole item sequence.
pub open spec fn items_wf(items: Seq<Item>) -> bool {
    forall|i: int| 0 <= i < items.len() ==> item_wf(items, i)
}

/// First-match lookup in a memoization table keyed by primitive identifier.
pub open spec fn memo_find(memo: Seq<(ItemId, ItemId)>, key: ItemId) -> Option<ItemId>
    decreases memo.len(),
{
    if memo.len() == 0 {
        None
    } else if memo[0].0 == key {
        Some(memo[0].1)
    } else {
        memo_find(memo.skip(1), key)
    }
}

/// A memoization table maps distinct primitive identifiers to the in-bounds
/// synthesized container type over that primitive.
pub open spec fn memo_wf(items: Seq<Item>, memo: Seq<(ItemId, ItemId)>, vec_form: bool) -> bool {
    &&& (forall|j: int|
        0 <= j < memo.len() ==> memo[j].0 < items.len() && memo[j].1 < items.len() && (
        items[memo[j].1 as int] matches Item::Type(t) && t.inner == (if vec_form {
            TypeInner::VecOf(memo[j].0)
        } else {
            TypeInner::OptionOf(memo[j].0)
        })))
    &&& (forall|j: int, k: int| 0 <= j < k < memo.len() ==> memo[j].0 != memo[k].0)
}

/// Appending to a memo table changes no earlier answer and answers the new
/// key when it was previously absent.
pub proof fn lemma_memo_find_push(memo: Seq<(ItemId, ItemId)>, p: (ItemId, ItemId), key: ItemId)
    ensures
        memo_find(memo.push(p), key) == (match memo_find(memo, key) {
            Some(v) => Some(v),
            None => if p.0 == key {
                Some(p.1)
            } else {
                None
            },
        }),
    decreases memo.len(),
{
    if memo.len() == 0 {
        assert(memo.push(p).len() == 1);
        assert(memo.push(p)[0] == p);
        assert(memo.push(p).skip(1).len() == 0);
        assert(memo_find(memo.push(p).skip(1), key) is None);
    } else {
        assert(memo.push(p)[0] == memo[0]);
        assert(memo.push(p).skip(1) =~= memo.skip(1).push(p));
        lemma_memo_find_push(memo.skip(1), p, key);
        assert(memo_find(memo.push(p).skip(1), key) == memo_find(memo.skip(1).push(p), key));
    }
}

/// A key is absent from a memo table exactly when no entry carries it.
pub proof fn lemma_memo_find_none(memo: Seq<(ItemId, ItemId)>, key: ItemId)
    ensures
        (memo_find(memo, key) is None) <==> (forall|j: int|
            0 <= j < memo.len() ==> memo[j].0 != key),
    decreases memo.len(),
{
    if memo.len() > 0 {
        lemma_memo_find_none(memo.skip(1), key);
        if memo_find(memo, key) is None {
            assert(memo[0].0 != key);
            assert forall|j: int| 0 <= j < memo.len() implies memo[j].0 != key by {
                if j > 0 {
                    assert(memo.skip(1)[j - 1] == memo[j]);
                }
            }
        } else {
            if memo[0].0 != key {
                let j = choose|j: int|
                    !(0 <= j < memo.skip(1).len() ==> memo.skip(1)[j].0 != key);
                assert(memo[j + 1].0 == key);
            }
        }
    }
}

/// A found value comes from some entry of the table.
pub proof fn lemma_memo_find_some(memo: Seq<(ItemId, ItemId)>, key: ItemId, v: ItemId)
    requires
        memo_find(memo, key) == Some(v),
    ensures
        exists|j: int| 0 <= j < memo.len() && memo[j] == (key, v),
    decreases memo.len(),
{
    if memo.len() > 0 && memo[0].0 != key {
        lemma_memo_find_some(memo.skip(1), key, v);
        let j = choose|j: int| 0 <= j < memo.skip(1).len() && memo.skip(1)[j] == (key, v);
        assert(memo[j + 1] == (key, v));
    }
}

/// Looks a key up in a memoization table.
fn memo_get(memo: &Vec<(ItemId, ItemId)>, key: ItemId) -> (r: Option<ItemId>)
    ensures
        r == memo_find(memo@, key),
{
    let mut i: usize = 0;
    proof {
        assert(memo@.skip(0) =~= memo@);
    }
    while i < memo.len()
        invariant
            i <= memo@.len(),
            memo_find(memo@, key) == memo_find(memo@.skip(i as int), key),
        decreases memo@.len() - i,
    {
        proof {
            assert(memo@.skip(i as int)[0] == memo@[i as int]);
            assert(memo@.skip(i as int).skip(1) =~= memo@.skip(i + 1));
        }
        if memo[i].0 == key {
            return Some(memo[i].1);
        }
        i += 1;
    }
    None
}

/// Growing the arena by one item keeps every existing item well-formed.
pub proof fn lemma_items_wf_push(items: Seq<Item>, it: Item)
    requires
        items_wf(items),
        item_wf(items.push(it), items.len() as int),
    ensures
        items_wf(items.push(it)),
{
    let items2 = items.push(it);
    assert forall|i: int| 0 <= i < items2.len() implies item_wf(items2, i) by {
        if i < items.len() {
            assert(item_wf(items, i));
            assert(items2[i] == items[i]);
            assert(forall|x: int| 0 <= x < items.len() ==> items2[x] == items[x]);
            let cur = items[i];
            assert forall|j: int| 0 <= j < cells(cur).len() implies ref_wf(
                items2,
                cells(cur)[j],
                cell_kinds(cur)[j],
            ) by {
                assert(ref_wf(items, cells(cur)[j], cell_kinds(cur)[j]));
            }
        }
    }
}

/// A memo table stays well-formed when the arena grows.
pub proof fn lemma_memo_wf_push(
    items: Seq<Item>,
    it: Item,
    memo: Seq<(ItemId, ItemId)>,
    vec_form: bool,
)
    requires
        memo_wf(items, memo, vec_form),
    ensures
        memo_wf(items.push(it), memo, vec_form),
{
    assert(forall|x: int| 0 <= x < items.len() ==> items.push(it)[x] == items[x]);
}

/// The arena: owns every item of the graph, keyed by identifier, with the
/// memoization tables for synthesized list-forms and optional-forms.
pub struct ItemArena {
    pub items: Vec<Item>,
    pub vec_memo: Vec<(ItemId, ItemId)>,
    pub option_memo: Vec<(ItemId, ItemId)>,
}

impl ItemArena {
    /// The arena's internal invariant.
    pub open spec fn wf(&self) -> bool {
        &&& items_wf(self.items@)
        &&& memo_wf(self.items@, self.vec_memo@, true)
        &&& memo_wf(self.items@, self.option_memo@, false)
    }

    /// An empty arena.
    pub fn new() -> (r: ItemArena)
        ensures
            r.wf(),
            r.items@.len() == 0,
            r.vec_memo@.len() == 0,
            r.option_memo@.len() == 0,
    {
        ItemArena { items: Vec::new(), vec_memo: Vec::new(), option_memo: Vec::new() }
    }

    /// How many items the arena owns.
    pub fn len(&self) -> (r: usize)
        ensures
            r == self.items@.len(),
    {
        self.items.len()
    }

    /// Appends an item, which must be well-formed against the arena as it
    /// will stand, and hands back its new identifier. Identifiers are never
    /// reused: insertion is append-only.
    pub fn insert(&mut self, it: Item) -> (r: ItemId)
        requires
            old(self).wf(),
            item_wf(old(self).items@.push(it), old(self).items@.len() as int),
        ensures
            final(self).wf(),
            r == old(self).items@.len(),
            final(self).items@ == old(self).items@.push(it),
            final(self).vec_memo@ == old(self).vec_memo@,
            final(self).option_memo@ == old(self).option_memo@,
    {
        let id = self.items.len();
        proof {
            lemma_items_wf_push(self.items@, it);
            lemma_memo_wf_push(self.items@, it, self.vec_memo@, true);
            lemma_memo_wf_push(self.items@, it, self.option_memo@, false);
        }
        self.items.push(it);
        id
    }

    /// Typed lookup by identifier. An identifier the arena never issued
    /// fails with `UnknownId`, never with a silent default.
    pub fn get(&self, id: ItemId) -> (r: Result<&Item, SemanticError>)
        ensures
            id < self.items@.len() ==> (r matches Ok(it) && *it == self.items@[id as int]),
            id >= self.items@.len() ==> (r matches Err(e) && (e matches SemanticError::UnknownId {
                id: e_id,
            } && e_id == id)),
    {
        if id < self.items.len() {
            Ok(&self.items[id])
        } else {
            Err(SemanticError::UnknownId { id })
        }
    }

    /// The canonical list-form of the given primitive type. The first call
    /// synthesizes the derived item and caches it; every later call for the
    /// same primitive returns the cached identifier and changes nothing, so
    /// each primitive has exactly one list-form across the whole graph.
    pub fn get_vec_id(&mut self, prim: ItemId) -> (r: ItemId)
        requires
            old(self).wf(),
            prim < old(self).items@.len(),
            old(self).items@[prim as int] is Type,
        ensures
            final(self).wf(),
            r < final(self).items@.len(),
            memo_find(final(self).vec_memo@, prim) == Some(r),
            final(self).items@[r as int] matches Item::Type(t) && t.inner == TypeInner::VecOf(
                prim,
            ),
            match memo_find(old(self).vec_memo@, prim) {
                Some(v) => {
                    &&& r == v
                    &&& final(self).items@ == old(self).items@
                    &&& final(self).vec_memo@ == old(self).vec_memo@
                    &&& final(self).option_memo@ == old(self).option_memo@
                },
                None => {
                    &&& r == old(self).items@.len()
                    &&& final(self).items@ == old(self).items@.push(final(self).items@[r as int])
                    &&& final(self).vec_memo@ == old(self).vec_memo@.push((prim, r))
                    &&& final(self).option_memo@ == old(self).option_memo@
                },
            },
    {
        match memo_get(&self.vec_memo, prim) {
            Some(v) => {
                proof {
                    lemma_memo_find_some(self.vec_memo@, prim, v);
                }
                v
            },
            None => {
                let it = Item::Type(
                    TypeDef {
                        data: ItemData { name: String::new(), description: None, parent: None },
                        inner: TypeInner::VecOf(prim),
                    },
                );
                proof {
                    let items2 = self.items@.push(it);
                    assert(items2[self.items@.len() as int] == it);
                    assert(forall|x: int| 0 <= x < self.items@.len() ==> items2[x] == self.items@[x]);
                    assert(cells(it).len() == 0);
                    assert(item_wf(items2, self.items@.len() as int));
                }
                let id = self.insert(it);
                proof {
                    lemma_memo_find_none(self.vec_memo@, prim);
                    lemma_memo_find_push(self.vec_memo@, (prim, id), prim);
                }
                self.vec_memo.push((prim, id));
                proof {
                    assert(final(self).items@[id as int] == it);
                    assert forall|j: int, k: int|
                        0 <= j < k < self.vec_memo@.len() implies self.vec_memo@[j].0
                        != self.vec_memo@[k].0 by {
                        lemma_memo_find_none(old(self).vec_memo@, prim);
                    }
                }
                id
            },
        }
    }

    /// The canonical optional-form of the given primitive type; memoized the
    /// same way as the list-form.
    pub fn get_option_id(&mut self, prim: ItemId) -> (r: ItemId)
        requires
            old(self).wf(),
            prim < old(self).items@.len(),
            old(self).items@[prim as int] is Type,
        ensures
            final(self).wf(),
            r < final(self).items@.len(),
            memo_find(final(self).option_memo@, prim) == Some(r),
            final(self).items@[r as int] matches Item::Type(t) && t.inner == TypeInner::OptionOf(
                prim,
            ),
            match memo_find(old(self).option_memo@, prim) {
                Some(v) => {
                    &&& r == v
                    &&& final(self).items@ == old(self).items@
                    &&& final(self).vec_memo@ == old(self).vec_memo@
                    &&& final(self).option_memo@ == old(self).option_memo@
                },
                None => {
                    &&& r == old(self).items@.len()
                    &&& final(self).items@ == old(self).items@.push(final(self).items@[r as int])
                    &&& final(self).option_memo@ == old(self).option_memo@.push((prim, r))
                    &&& final(self).vec_memo@ == old(self).vec_memo@
                },
            },
    {
        match memo_get(&self.option_memo, prim) {
            Some(v) => {
                proof {
                    lemma_memo_find_some(self.option_memo@, prim, v);
                }
                v
            },
            None => {
                let it = Item::Type(
                    TypeDef {
                        data: ItemData { name: String::new(), description: None, parent: None },
                        inner: TypeInner::OptionOf(prim),
                    },
                );
                proof {
                    let items2 = self.items@.push(it);
                    assert(items2[self.items@.len() as int] == it);
                    assert(forall|x: int| 0 <= x < self.items@.len() ==> items2[x] == self.items@[x]);
                    assert(cells(it).len() == 0);
                    assert(item_wf(items2, self.items@.len() as int));
                }
                let id = self.insert(it);
                proof {
                    lemma_memo_find_none(self.option_memo@, prim);
                    lemma_memo_find_push(self.option_memo@, (prim, id), prim);
                }
                self.option_memo.push((prim, id));
                proof {
                    assert(final(self).items@[id as int] == it);
                    assert forall|j: int, k: int|
                        0 <= j < k < self.option_memo@.len() implies self.option_memo@[j].0
                        != self.option_memo@[k].0 by {
                        lemma_memo_find_none(old(self).option_memo@, prim);
                    }
                }
                id
            },
        }
    }
}

} // verus!
