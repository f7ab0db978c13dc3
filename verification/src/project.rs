//! Type projection: maps every type of a resolved graph onto the closed set
//! of concrete runtime value kinds, then flattens every component into a
//! descriptor for downstream code generators.

use vstd::prelude::*;

use crate::arena::{item_wf, lemma_memo_find_none, lemma_memo_find_some, memo_find};
use crate::casing::{spec_upper_camel, upper_camel};
use crate::err::SemanticError;
use crate::item::{Item, ItemId, ItemKind, ItemRef, TypeInner};
use crate::prim::{parse_primitive, spec_parse_primitive, ConcreteKind, PrimitiveKind};
use crate::scope::{lemma_scope_order_extend, scope_map, spec_item_path, spec_scope_order};
use crate::semantic::{clone_opt_string, Semantic};

verus! {

/// First-match lookup in the concrete-kind map.
pub open spec fn kmap_find(entries: Seq<(ItemId, ConcreteKind)>, key: ItemId) -> Option<
    ConcreteKind,
>
    decreases entries.len(),
{
    if entries.len() == 0 {
        None
    } else if entries[0].0 == key {
        Some(entries[0].1)
    } else {
        kmap_find(entries.skip(1), key)
    }
}

/// Appending to the kind map changes no earlier answer and answers the new
/// key when it was previously absent.
pub proof fn lemma_kmap_find_push(
    entries: Seq<(ItemId, ConcreteKind)>,
    p: (ItemId, ConcreteKind),
    key: ItemId,
)
    ensures
        kmap_find(entries.push(p), key) == (match kmap_find(entries, key) {
            Some(v) => Some(v),
            None => if p.0 == key {
                Some(p.1)
            } else {
                None
            },
        }),
    decreases entries.len(),
{
    if entries.len() == 0 {
        assert(entries.push(p).len() == 1);
        assert(entries.push(p)[0] == p);
        assert(entries.push(p).skip(1).len() == 0);
        assert(kmap_find(entries.push(p).skip(1), key) is None);
    } else {
        assert(entries.push(p)[0] == entries[0]);
        assert(entries.push(p).skip(1) =~= entries.skip(1).push(p));
        lemma_kmap_find_push(entries.skip(1), p, key);
    }
}

/// A found kind comes from some entry of the map.
pub proof fn lemma_kmap_find_some(
    entries: Seq<(ItemId, ConcreteKind)>,
    key: ItemId,
    v: ConcreteKind,
)
    requires
        kmap_find(entries, key) == Some(v),
    ensures
        exists|j: int| 0 <= j < entries.len() && entries[j] == (key, v),
    decreases entries.len(),
{
    if entries.len() > 0 && entries[0].0 != key {
        lemma_kmap_find_some(entries.skip(1), key, v);
        let j = choose|j: int| 0 <= j < entries.skip(1).len() && entries.skip(1)[j] == (key, v);
        assert(entries[j + 1] == (key, v));
    }
}

/// The kind an entry may carry, pinned by the type item it names: a
/// recognized primitive maps to its scalar kind, an enumeration to the
/// unsigned 32-bit kind (members are stored as ordinals), and a synthesized
/// container form of a primitive to the container kind over that primitive.
pub open spec fn kmap_entry_ok(items: Seq<Item>, k: ItemId, v: ConcreteKind) -> bool {
    k < items.len() && (items[k as int] matches Item::Type(t) && match t.inner {
        TypeInner::Primitive(n) => spec_parse_primitive(n@) matches Some(pk) && v
            == ConcreteKind::Scalar(pk),
        TypeInner::Enumeration(_) => v == ConcreteKind::Scalar(PrimitiveKind::U32),
        TypeInner::VecOf(p) => p < items.len() && (items[p as int] matches Item::Type(t2)
            && t2.inner matches TypeInner::Primitive(n2) && spec_parse_primitive(
            n2@,
        ) matches Some(pk2) && v == ConcreteKind::VecOf(pk2)),
        TypeInner::OptionOf(p) => p < items.len() && (items[p as int] matches Item::Type(t2)
            && t2.inner matches TypeInner::Primitive(n2) && spec_parse_primitive(
            n2@,
        ) matches Some(pk2) && v == ConcreteKind::OptionOf(pk2)),
    })
}

/// Every entry of the kind map is pinned by its type item.
pub open spec fn kmap_inv(items: Seq<Item>, entries: Seq<(ItemId, ConcreteKind)>) -> bool {
    forall|e: int|
        0 <= e < entries.len() ==> kmap_entry_ok(items, (#[trigger] entries[e]).0, entries[e].1)
}

/// The concrete-kind map: type identifier to runtime value kind, built by
/// the two classification passes and read by the flattening pass.
pub struct KindMap {
    pub entries: Vec<(ItemId, ConcreteKind)>,
}

impl KindMap {
    /// An empty map.
    pub fn new() -> (r: KindMap)
        ensures
            r.entries@.len() == 0,
    {
        KindMap { entries: Vec::new() }
    }

    /// The kind recorded for a type identifier, if any.
    pub fn get(&self, key: ItemId) -> (r: Option<ConcreteKind>)
        ensures
            r == kmap_find(self.entries@, key),
    {
        let mut i: usize = 0;
        proof {
            assert(self.entries@.skip(0) =~= self.entries@);
        }
        while i < self.entries.len()
            invariant
                i <= self.entries@.len(),
                kmap_find(self.entries@, key) == kmap_find(self.entries@.skip(i as int), key),
            decreases self.entries@.len() - i,
        {
            proof {
                assert(self.entries@.skip(i as int)[0] == self.entries@[i as int]);
                assert(self.entries@.skip(i as int).skip(1) =~= self.entries@.skip(i + 1));
            }
            if self.entries[i].0 == key {
                return Some(self.entries[i].1);
            }
            i += 1;
        }
        None
    }

    /// Records a kind for a type identifier. An identifier already recorded
    /// keeps its first kind: lookups are first-match.
    pub fn insert(&mut self, key: ItemId, v: ConcreteKind)
        ensures
            final(self).entries@ == old(self).entries@.push((key, v)),
    {
        self.entries.push((key, v));
    }
}

/// A flattened component: its stable fully qualified path, its concrete
/// runtime kind, its short name and description, and its attributes' short
/// names projected to upper camel case, all in declaration order.
pub struct ComponentDesc {
    pub path: String,
    pub kind: ConcreteKind,
    pub name: String,
    pub description: Option<String>,
    pub attributes: Vec<String>,
}

/// The descriptor `d` is the faithful flattening of the component `cid`.
pub open spec fn desc_matches(items: Seq<Item>, d: ComponentDesc, cid: ItemId) -> bool {
    &&& cid < items.len()
    &&& (items[cid as int] matches Item::Component(c) && {
        &&& d.path@ == spec_item_path(items, cid as int)
        &&& d.name@ == c.data.name@
        &&& (d.description is Some <==> c.data.description is Some)
        &&& (c.data.description matches Some(s) ==> (d.description matches Some(t2) && t2@ == s@))
        &&& (c.type_ matches ItemRef::Resolved(tid) && kmap_entry_ok(items, tid, d.kind))
        &&& d.attributes@.len() == c.attributes@.len()
        &&& (forall|x: int|
            0 <= x < c.attributes@.len() ==> ((#[trigger] c.attributes@[x]) matches
            ItemRef::Resolved(aid) && aid < items.len() && (items[aid as int] matches
            Item::Attribute(a) && d.attributes@[x]@ == spec_upper_camel(a.data.name@))))
    })
}

/// The component identifiers of one scope, in declaration order.
pub open spec fn scope_comps(items: Seq<Item>, sid: int) -> Seq<ItemId> {
    if 0 <= sid < items.len() && items[sid] is Scope {
        scope_map(items[sid]->Scope_0, ItemKind::Component).map(
            |x: int, e: (String, ItemId)| e.1,
        )
    } else {
        Seq::empty()
    }
}

/// All component identifiers of the scopes `order[a..]`, in traversal order.
pub open spec fn spec_comp_order(items: Seq<Item>, order: Seq<ItemId>, a: int) -> Seq<ItemId>
    decreases order.len() - a,
{
    if 0 <= a < order.len() {
        scope_comps(items, order[a] as int) + spec_comp_order(items, order, a + 1)
    } else {
        Seq::empty()
    }
}

/// A key already answered keeps its answer when the map grows at the end.
pub proof fn lemma_kmap_find_mono(
    a: Seq<(ItemId, ConcreteKind)>,
    b: Seq<(ItemId, ConcreteKind)>,
    key: ItemId,
)
    requires
        a.is_prefix_of(b),
        kmap_find(a, key) is Some,
    ensures
        kmap_find(b, key) == kmap_find(a, key),
    decreases a.len(),
{
    assert(a[0] == b[0]);
    if a[0].0 != key {
        assert(a.skip(1).is_prefix_of(b.skip(1)));
        lemma_kmap_find_mono(a.skip(1), b.skip(1), key);
    }
}

/// A key already memoized keeps its answer when the memo grows at the end.
pub proof fn lemma_memo_find_mono(a: Seq<(ItemId, ItemId)>, b: Seq<(ItemId, ItemId)>, key: ItemId)
    requires
        a.is_prefix_of(b),
        memo_find(a, key) is Some,
    ensures
        memo_find(b, key) == memo_find(a, key),
    decreases a.len(),
{
    assert(a[0] == b[0]);
    if a[0].0 != key {
        assert(a.skip(1).is_prefix_of(b.skip(1)));
        lemma_memo_find_mono(a.skip(1), b.skip(1), key);
    }
}

/// What the first classification pass records for one root-scope type: a
/// primitive type, its synthesized list-form and its optional-form are all
/// in the kind map, with the memo tables naming the synthesized forms.
pub open spec fn prim_claimed(
    items: Seq<Item>,
    vm: Seq<(ItemId, ItemId)>,
    om: Seq<(ItemId, ItemId)>,
    m: Seq<(ItemId, ConcreteKind)>,
    tid: ItemId,
) -> bool {
    (tid < items.len() && (items[tid as int] matches Item::Type(t)
        && t.inner is Primitive)) ==> {
        &&& kmap_find(m, tid) is Some
        &&& (memo_find(vm, tid) matches Some(vid) && kmap_find(m, vid) is Some)
        &&& (memo_find(om, tid) matches Some(oid) && kmap_find(m, oid) is Some)
    }
}

/// What the second classification pass records for one type: an enumeration
/// at any depth is in the kind map (pinned to the unsigned 32-bit kind by
/// [`kmap_inv`]).
pub open spec fn enum_claimed(items: Seq<Item>, m: Seq<(ItemId, ConcreteKind)>, tid: ItemId) -> bool {
    (tid < items.len() && (items[tid as int] matches Item::Type(t)
        && t.inner is Enumeration)) ==> kmap_find(m, tid) is Some
}

/// Every type declared directly in the root scope that is a primitive
/// carries a name the fixed vocabulary recognizes. This is exactly the
/// condition under which the first classification pass succeeds.
pub open spec fn root_primitives_parse(items: Seq<Item>, root: int) -> bool {
    forall|j: int|
        0 <= j < scope_map(items[root]->Scope_0, ItemKind::Type).len() ==> (items[(
        #[trigger] scope_map(items[root]->Scope_0, ItemKind::Type)[j]).1 as int] matches
        Item::Type(t) ==> (t.inner matches TypeInner::Primitive(n) ==> spec_parse_primitive(
            n@,
        ) is Some))
}

/// `name` is the unrecognized primitive name of some type declared directly
/// in the root scope.
pub open spec fn unrecognized_at_root(items: Seq<Item>, root: int, name: Seq<char>) -> bool {
    exists|j: int|
        0 <= j < scope_map(items[root]->Scope_0, ItemKind::Type).len() && ((items[(
        #[trigger] scope_map(items[root]->Scope_0, ItemKind::Type)[j]).1 as int] matches
        Item::Type(t) && t.inner matches TypeInner::Primitive(n) && n@ == name
            && spec_parse_primitive(n@) is None))
}

/// `tid` is a type identifier the two classification passes reach: a
/// primitive type declared directly in the root scope, the memoized
/// list-form or optional-form of such a primitive, or an enumeration listed
/// by some scope of the traversal order.
pub open spec fn classified_key(
    items: Seq<Item>,
    vm: Seq<(ItemId, ItemId)>,
    om: Seq<(ItemId, ItemId)>,
    root: int,
    tid: ItemId,
) -> bool {
    ||| (exists|j: int|
        0 <= j < scope_map(items[root]->Scope_0, ItemKind::Type).len() && (items[(
        #[trigger] scope_map(items[root]->Scope_0, ItemKind::Type)[j]).1 as int] matches
        Item::Type(t) && t.inner is Primitive) && (tid == scope_map(
            items[root]->Scope_0,
            ItemKind::Type,
        )[j].1 || memo_find(vm, scope_map(items[root]->Scope_0, ItemKind::Type)[j].1) == Some(tid)
            || memo_find(om, scope_map(items[root]->Scope_0, ItemKind::Type)[j].1) == Some(tid)))
    ||| (exists|a: int, b: int|
        0 <= a < spec_scope_order(items, root).len() && items[spec_scope_order(items, root)[a] as int] is Scope
            && 0 <= b < scope_map(
            items[spec_scope_order(items, root)[a] as int]->Scope_0,
            ItemKind::Type,
        ).len() && (#[trigger] scope_map(
            items[spec_scope_order(items, root)[a] as int]->Scope_0,
            ItemKind::Type,
        )[b]).1 == tid && (items[tid as int] matches Item::Type(t) && t.inner is Enumeration))
}

/// Every key of the kind map is either an item synthesized during this very
/// classification (at or beyond the old arena length) or a key the passes
/// reach from the graph as it stood.
pub open spec fn kmap_keys_claimed(
    items: Seq<Item>,
    vm: Seq<(ItemId, ItemId)>,
    om: Seq<(ItemId, ItemId)>,
    root: int,
    m: Seq<(ItemId, ConcreteKind)>,
) -> bool {
    forall|e: int|
        0 <= e < m.len() ==> (#[trigger] m[e]).0 >= items.len() || classified_key(
            items,
            vm,
            om,
            root,
            m[e].0,
        )
}

/// The first pass's guarantee over every type entry of the root scope.
pub open spec fn pass1_claims(
    items: Seq<Item>,
    root: int,
    vm: Seq<(ItemId, ItemId)>,
    om: Seq<(ItemId, ItemId)>,
    m: Seq<(ItemId, ConcreteKind)>,
) -> bool {
    forall|j: int|
        0 <= j < scope_map(items[root]->Scope_0, ItemKind::Type).len() ==> prim_claimed(
            items,
            vm,
            om,
            m,
            (#[trigger] scope_map(items[root]->Scope_0, ItemKind::Type)[j]).1,
        )
}

/// The second pass's guarantee over every type entry of every scope the
/// traversal order names before `bound`.
pub open spec fn pass2_claims_upto(
    items: Seq<Item>,
    order: Seq<ItemId>,
    bound: int,
    m: Seq<(ItemId, ConcreteKind)>,
) -> bool {
    forall|a: int, b: int|
        (0 <= a < bound && a < order.len() && items[order[a] as int] is Scope && 0 <= b < scope_map(
            items[order[a] as int]->Scope_0,
            ItemKind::Type,
        ).len()) ==> enum_claimed(
            items,
            m,
            (#[trigger] scope_map(items[order[a] as int]->Scope_0, ItemKind::Type)[b]).1,
        )
}

/// The second pass's guarantee over the whole traversal order.
pub open spec fn pass2_claims(items: Seq<Item>, root: int, m: Seq<(ItemId, ConcreteKind)>) -> bool {
    pass2_claims_upto(items, spec_scope_order(items, root), spec_scope_order(items, root).len() as int, m)
}

/// Appending items changes no scope's component list, so the flattening
/// order of the existing tree is unchanged.
pub proof fn lemma_comp_order_extend(a: Seq<Item>, b: Seq<Item>, order: Seq<ItemId>, x: int)
    requires
        a.len() <= b.len(),
        forall|i: int| 0 <= i < a.len() ==> b[i] == a[i],
        forall|k: int| 0 <= k < order.len() ==> (#[trigger] order[k]) < a.len(),
    ensures
        spec_comp_order(b, order, x) == spec_comp_order(a, order, x),
    decreases order.len() - x,
{
    if 0 <= x < order.len() {
        assert(b[order[x] as int] == a[order[x] as int]);
        assert(scope_comps(b, order[x] as int) == scope_comps(a, order[x] as int));
        lemma_comp_order_extend(a, b, order, x + 1);
    }
}

/// A component is projectable: all of its reference cells are resolved and
/// its value type is a key the two classification passes reach.
pub open spec fn component_projectable(
    items: Seq<Item>,
    vm: Seq<(ItemId, ItemId)>,
    om: Seq<(ItemId, ItemId)>,
    root: int,
    cid: ItemId,
) -> bool {
    items[cid as int] matches Item::Component(c) ==> {
        &&& (forall|x: int|
            0 <= x < c.attributes@.len() ==> (#[trigger] c.attributes@[x]) is Resolved)
        &&& (c.type_ matches ItemRef::Resolved(tid) && classified_key(items, vm, om, root, tid))
    }
}

/// Exactly the graphs on which projection succeeds: every root primitive
/// name parses, and every component the traversal reaches is projectable.
pub open spec fn projection_ready(
    items: Seq<Item>,
    vm: Seq<(ItemId, ItemId)>,
    om: Seq<(ItemId, ItemId)>,
    root: int,
) -> bool {
    &&& root_primitives_parse(items, root)
    &&& (forall|k: int|
        0 <= k < spec_comp_order(items, spec_scope_order(items, root), 0).len()
            ==> component_projectable(
            items,
            vm,
            om,
            root,
            #[trigger] spec_comp_order(items, spec_scope_order(items, root), 0)[k],
        ))
}

/// A key the passes reach from the old graph is in the kind map the passes
/// built over the extended graph.
pub proof fn lemma_classified_covered(
    items_old: Seq<Item>,
    items_new: Seq<Item>,
    vmo: Seq<(ItemId, ItemId)>,
    omo: Seq<(ItemId, ItemId)>,
    vmn: Seq<(ItemId, ItemId)>,
    omn: Seq<(ItemId, ItemId)>,
    root: int,
    m: Seq<(ItemId, ConcreteKind)>,
    tid: ItemId,
)
    requires
        crate::arena::items_wf(items_old),
        items_old.len() <= items_new.len(),
        items_old.len() <= usize::MAX,
        forall|x: int| 0 <= x < items_old.len() ==> items_new[x] == items_old[x],
        0 <= root < items_old.len(),
        items_old[root] is Scope,
        vmo.is_prefix_of(vmn),
        omo.is_prefix_of(omn),
        pass1_claims(items_new, root, vmn, omn, m),
        pass2_claims(items_new, root, m),
        classified_key(items_old, vmo, omo, root, tid),
        tid < items_old.len(),
    ensures
        kmap_find(m, tid) is Some,
{
    let rt_old = scope_map(items_old[root]->Scope_0, ItemKind::Type);
    let rt_new = scope_map(items_new[root]->Scope_0, ItemKind::Type);
    assert(items_new[root] == items_old[root]);
    assert(rt_new == rt_old);
    if exists|j: int|
        0 <= j < rt_old.len() && (items_old[(#[trigger] rt_old[j]).1 as int] matches Item::Type(t)
            && t.inner is Primitive) && (tid == rt_old[j].1 || memo_find(vmo, rt_old[j].1) == Some(
            tid,
        ) || memo_find(omo, rt_old[j].1) == Some(tid)) {
        let j = choose|j: int|
            0 <= j < rt_old.len() && (items_old[(#[trigger] rt_old[j]).1 as int] matches
            Item::Type(t) && t.inner is Primitive) && (tid == rt_old[j].1 || memo_find(
                vmo,
                rt_old[j].1,
            ) == Some(tid) || memo_find(omo, rt_old[j].1) == Some(tid));
        let e = rt_old[j].1;
        assert(item_wf(items_old, root));
        assert(crate::arena::entries_wf(items_old, rt_old, ItemKind::Type));
        assert(e < items_old.len());
        assert(items_new[e as int] == items_old[e as int]);
        assert(prim_claimed(items_new, vmn, omn, m, (rt_new[j]).1));
        if tid == e {
        } else if memo_find(vmo, e) == Some(tid) {
            lemma_memo_find_mono(vmo, vmn, e);
        } else {
            lemma_memo_find_mono(omo, omn, e);
        }
    } else {
        let (a, b) = choose|a: int, b: int|
            0 <= a < spec_scope_order(items_old, root).len() && items_old[spec_scope_order(
                items_old,
                root,
            )[a] as int] is Scope && 0 <= b < scope_map(
                items_old[spec_scope_order(items_old, root)[a] as int]->Scope_0,
                ItemKind::Type,
            ).len() && (#[trigger] scope_map(
                items_old[spec_scope_order(items_old, root)[a] as int]->Scope_0,
                ItemKind::Type,
            )[b]).1 == tid && (items_old[tid as int] matches Item::Type(t)
                && t.inner is Enumeration);
        lemma_scope_order_extend(items_old, items_new, root);
        crate::scope::lemma_scope_order_bounds(items_old, root);
        let order = spec_scope_order(items_new, root);
        let sid = order[a];
        assert(items_new[sid as int] == items_old[sid as int]);
        assert(items_new[tid as int] == items_old[tid as int]);
        assert(pass2_claims_upto(items_new, order, order.len() as int, m));
        assert(scope_map(items_new[order[a] as int]->Scope_0, ItemKind::Type)[b].1 == tid);
        assert(enum_claimed(
            items_new,
            m,
            scope_map(items_new[order[a] as int]->Scope_0, ItemKind::Type)[b].1,
        ));
    }
}

/// Builds the concrete-kind map of a graph. First pass: every primitive type
/// declared directly in the root scope maps to its scalar kind, and its
/// synthesized list-form and optional-form map to the container kinds; an
/// unrecognized primitive name is a fatal configuration error. Second pass:
/// every enumeration, at any nesting depth, maps to the unsigned 32-bit
/// kind, since members are stored as declaration-order ordinals.
#[verifier::loop_isolation(false)]
#[verifier::rlimit(100)]
pub fn build_type_map(sem: &mut Semantic) -> (r: Result<KindMap, SemanticError>)
    requires
        old(sem).wf(),
    ensures
        final(sem).wf(),
        final(sem).root == old(sem).root,
        old(sem).items.items@.len() <= final(sem).items.items@.len(),
        forall|x: int|
            0 <= x < old(sem).items.items@.len() ==> final(sem).items.items@[x] == old(
                sem,
            ).items.items@[x],
        r matches Ok(m) ==> {
            &&& kmap_inv(final(sem).items.items@, m.entries@)
            &&& pass1_claims(
                final(sem).items.items@,
                final(sem).root as int,
                final(sem).items.vec_memo@,
                final(sem).items.option_memo@,
                m.entries@,
            )
            &&& pass2_claims(final(sem).items.items@, final(sem).root as int, m.entries@)
            &&& kmap_keys_claimed(
                old(sem).items.items@,
                old(sem).items.vec_memo@,
                old(sem).items.option_memo@,
                old(sem).root as int,
                m.entries@,
            )
        },
        old(sem).items.vec_memo@.is_prefix_of(final(sem).items.vec_memo@),
        old(sem).items.option_memo@.is_prefix_of(final(sem).items.option_memo@),
        (r is Ok) <==> root_primitives_parse(old(sem).items.items@, old(sem).root as int),
        r matches Err(e) ==> (e matches SemanticError::UnrecognizedPrimitive { name }
            && unrecognized_at_root(old(sem).items.items@, old(sem).root as int, name@)),
{
    let ghost items0 = sem.items.items@;
    let ghost vmo = sem.items.vec_memo@;
    let ghost omo = sem.items.option_memo@;
    let root = sem.root;
    let mut type_ids: Vec<ItemId> = Vec::new();
    let ghost rt = scope_map(items0[root as int]->Scope_0, ItemKind::Type);
    match &sem.items.items[root] {
        Item::Scope(s) => {
            let mut b: usize = 0;
            while b < s.types.len()
                invariant
                    b <= s.types@.len(),
                    s.types@ == rt,
                    type_ids@.len() == b,
                    forall|x: int| 0 <= x < b ==> type_ids@[x] == rt[x].1,
                decreases s.types@.len() - b,
            {
                type_ids.push(s.types[b].1);
                b += 1;
            }
        },
        _ => {
            proof {
                assert(false);
            }
        },
    }
    let mut m = KindMap::new();
    let mut j: usize = 0;
    proof {
        assert(vmo =~= vmo.subrange(0, vmo.len() as int));
        assert(omo =~= omo.subrange(0, omo.len() as int));
    }
    while j < type_ids.len()
        invariant
            sem.wf(),
            sem.root == old(sem).root,
            root == sem.root,
            items0.len() <= sem.items.items@.len(),
            forall|x: int| 0 <= x < items0.len() ==> sem.items.items@[x] == items0[x],
            j <= type_ids@.len(),
            type_ids@.len() == rt.len(),
            forall|x: int| 0 <= x < rt.len() ==> type_ids@[x] == rt[x].1,
            rt == scope_map(items0[root as int]->Scope_0, ItemKind::Type),
            kmap_inv(sem.items.items@, m.entries@),
            forall|x: int|
                0 <= x < j ==> prim_claimed(
                    sem.items.items@,
                    sem.items.vec_memo@,
                    sem.items.option_memo@,
                    m.entries@,
                    (#[trigger] rt[x]).1,
                ),
            vmo.is_prefix_of(sem.items.vec_memo@),
            omo.is_prefix_of(sem.items.option_memo@),
            forall|k: int|
                vmo.len() <= k < sem.items.vec_memo@.len() ==> (
                #[trigger] sem.items.vec_memo@[k]).1 >= items0.len(),
            forall|k: int|
                omo.len() <= k < sem.items.option_memo@.len() ==> (
                #[trigger] sem.items.option_memo@[k]).1 >= items0.len(),
            kmap_keys_claimed(items0, vmo, omo, root as int, m.entries@),
            forall|x: int|
                0 <= x < j ==> (items0[(#[trigger] rt[x]).1 as int] matches Item::Type(t) ==> (
                t.inner matches TypeInner::Primitive(n) ==> spec_parse_primitive(n@) is Some)),
        decreases type_ids@.len() - j,
    {
        let tid = type_ids[j];
        proof {
            assert(old(sem).wf());
            assert(item_wf(items0, root as int));
            assert(sem.items.items@[root as int] == items0[root as int]);
            assert(crate::arena::entries_wf(items0, rt, ItemKind::Type));
            assert(rt[j as int].1 == tid);
            assert(tid < items0.len());
        }
        let pk_opt: Option<PrimitiveKind> = match &sem.items.items[tid] {
            Item::Type(t) => match &t.inner {
                TypeInner::Primitive(n) => match parse_primitive(n) {
                    Some(pk) => Some(pk),
                    None => {
                        proof {
                            assert(items0[tid as int] == sem.items.items@[tid as int]);
                            assert(scope_map(items0[root as int]->Scope_0, ItemKind::Type)[
                                j as int
                            ].1 == tid);
                            assert(spec_parse_primitive(n@) is None);
                            assert(!root_primitives_parse(items0, root as int));
                            assert(unrecognized_at_root(items0, root as int, n@));
                        }
                        return Err(SemanticError::UnrecognizedPrimitive { name: n.clone() });
                    },
                },
                _ => None,
            },
            _ => {
                proof {
                    assert(false);
                }
                None
            },
        };
        match pk_opt {
            Some(pk) => {
                let ghost m0 = m.entries@;
                let ghost vm0 = sem.items.vec_memo@;
                let ghost om0 = sem.items.option_memo@;
                let ghost itemsa = sem.items.items@;
                m.insert(tid, ConcreteKind::Scalar(pk));
                let vid = sem.items.get_vec_id(tid);
                m.insert(vid, ConcreteKind::VecOf(pk));
                let oid = sem.items.get_option_id(tid);
                m.insert(oid, ConcreteKind::OptionOf(pk));
                proof {
                    let itemsb = sem.items.items@;
                    let mb = m.entries@;
                    assert(forall|x: int| 0 <= x < itemsa.len() ==> itemsb[x] == itemsa[x]);
                    assert(mb == m0.push((tid, ConcreteKind::Scalar(pk))).push(
                        (vid, ConcreteKind::VecOf(pk)),
                    ).push((oid, ConcreteKind::OptionOf(pk))));
                    assert(itemsb[tid as int] == itemsa[tid as int]);
                    assert(kmap_entry_ok(itemsb, tid, ConcreteKind::Scalar(pk)));
                    assert(itemsb[vid as int] matches Item::Type(t) && t.inner == TypeInner::VecOf(
                        tid,
                    ));
                    assert(kmap_entry_ok(itemsb, vid, ConcreteKind::VecOf(pk)));
                    assert(kmap_entry_ok(itemsb, oid, ConcreteKind::OptionOf(pk)));
                    assert forall|e: int| 0 <= e < mb.len() implies kmap_entry_ok(
                        itemsb,
                        (#[trigger] mb[e]).0,
                        mb[e].1,
                    ) by {
                        if e < m0.len() {
                            assert(mb[e] == m0[e]);
                            assert(kmap_entry_ok(itemsa, m0[e].0, m0[e].1));
                        } else if e == m0.len() {
                            assert(mb[e] == (tid, ConcreteKind::Scalar(pk)));
                        } else if e == m0.len() + 1 {
                            assert(mb[e] == (vid, ConcreteKind::VecOf(pk)));
                        } else {
                            assert(mb[e] == (oid, ConcreteKind::OptionOf(pk)));
                        }
                    }
                    lemma_kmap_find_push(m0, (tid, ConcreteKind::Scalar(pk)), tid);
                    lemma_kmap_find_push(
                        m0.push((tid, ConcreteKind::Scalar(pk))),
                        (vid, ConcreteKind::VecOf(pk)),
                        vid,
                    );
                    lemma_kmap_find_push(
                        m0.push((tid, ConcreteKind::Scalar(pk))).push(
                            (vid, ConcreteKind::VecOf(pk)),
                        ),
                        (oid, ConcreteKind::OptionOf(pk)),
                        oid,
                    );
                    assert(m0.is_prefix_of(mb));
                    if kmap_find(m0, tid) is Some {
                        lemma_kmap_find_mono(m0, mb, tid);
                    } else {
                        lemma_kmap_find_push(
                            m0.push((tid, ConcreteKind::Scalar(pk))),
                            (vid, ConcreteKind::VecOf(pk)),
                            tid,
                        );
                        lemma_kmap_find_push(
                            m0.push((tid, ConcreteKind::Scalar(pk))).push(
                                (vid, ConcreteKind::VecOf(pk)),
                            ),
                            (oid, ConcreteKind::OptionOf(pk)),
                            tid,
                        );
                    }
                    assert(kmap_find(mb, tid) is Some);
                    if kmap_find(m0.push((tid, ConcreteKind::Scalar(pk))), vid) is Some {
                        lemma_kmap_find_mono(
                            m0.push((tid, ConcreteKind::Scalar(pk))),
                            mb,
                            vid,
                        );
                    } else {
                        lemma_kmap_find_push(
                            m0.push((tid, ConcreteKind::Scalar(pk))).push(
                                (vid, ConcreteKind::VecOf(pk)),
                            ),
                            (oid, ConcreteKind::OptionOf(pk)),
                            vid,
                        );
                    }
                    assert(kmap_find(mb, vid) is Some);
                    assert(kmap_find(mb, oid) is Some);
                    assert(memo_find(sem.items.vec_memo@, tid) == Some(vid));
                    assert(memo_find(sem.items.option_memo@, tid) == Some(oid));
                    assert(prim_claimed(
                        itemsb,
                        sem.items.vec_memo@,
                        sem.items.option_memo@,
                        mb,
                        tid,
                    ));
                    assert forall|x: int| 0 <= x < j implies prim_claimed(
                        itemsb,
                        sem.items.vec_memo@,
                        sem.items.option_memo@,
                        mb,
                        (#[trigger] rt[x]).1,
                    ) by {
                        let tx = rt[x].1;
                        assert(prim_claimed(itemsa, vm0, om0, m0, tx));
                        if tx < itemsa.len() && (itemsa[tx as int] matches Item::Type(t)
                            && t.inner is Primitive) {
                            lemma_kmap_find_mono(m0, mb, tx);
                            let vx = memo_find(vm0, tx)->Some_0;
                            let ox = memo_find(om0, tx)->Some_0;
                            assert(vm0.is_prefix_of(sem.items.vec_memo@));
                            assert(om0.is_prefix_of(sem.items.option_memo@));
                            lemma_memo_find_mono(vm0, sem.items.vec_memo@, tx);
                            lemma_memo_find_mono(om0, sem.items.option_memo@, tx);
                            lemma_kmap_find_mono(m0, mb, vx);
                            lemma_kmap_find_mono(m0, mb, ox);
                        }
                    }
                    let vmb = sem.items.vec_memo@;
                    let omb = sem.items.option_memo@;
                    assert(vm0.is_prefix_of(vmb)) by {
                        assert(vm0 =~= vmb.subrange(0, vm0.len() as int));
                    }
                    assert(vmo.is_prefix_of(vmb)) by {
                        assert(vmo =~= vmb.subrange(0, vmo.len() as int));
                    }
                    assert(om0.is_prefix_of(omb)) by {
                        assert(om0 =~= omb.subrange(0, om0.len() as int));
                    }
                    assert(omo.is_prefix_of(omb)) by {
                        assert(omo =~= omb.subrange(0, omo.len() as int));
                    }
                    assert forall|k: int|
                        vmo.len() <= k < vmb.len() implies (#[trigger] vmb[k]).1
                        >= items0.len() by {
                        if k < vm0.len() {
                            assert(vmb[k] == vm0[k]);
                        }
                    }
                    assert forall|k: int|
                        omo.len() <= k < omb.len() implies (#[trigger] omb[k]).1
                        >= items0.len() by {
                        if k < om0.len() {
                            assert(omb[k] == om0[k]);
                        }
                    }
                    assert(scope_map(items0[root as int]->Scope_0, ItemKind::Type)[j as int].1
                        == tid);
                    assert(items0[tid as int] == itemsa[tid as int]);
                    assert(classified_key(items0, vmo, omo, root as int, tid));
                    if memo_find(vmo, tid) is Some {
                        lemma_memo_find_mono(vmo, vm0, tid);
                        assert(memo_find(vmo, tid) == Some(vid));
                        assert(classified_key(items0, vmo, omo, root as int, vid));
                    } else {
                        match memo_find(vm0, tid) {
                            Some(v) => {
                                lemma_memo_find_some(vm0, tid, v);
                                let idx = choose|idx: int|
                                    0 <= idx < vm0.len() && vm0[idx] == (tid, v);
                                lemma_memo_find_none(vmo, tid);
                                if idx < vmo.len() {
                                    assert(vmo[idx] == vm0[idx]);
                                    assert(false);
                                }
                                assert(vid >= items0.len());
                            },
                            None => {
                                assert(vid >= items0.len());
                            },
                        }
                    }
                    if memo_find(omo, tid) is Some {
                        lemma_memo_find_mono(omo, om0, tid);
                        assert(memo_find(omo, tid) == Some(oid));
                        assert(classified_key(items0, vmo, omo, root as int, oid));
                    } else {
                        match memo_find(om0, tid) {
                            Some(v) => {
                                lemma_memo_find_some(om0, tid, v);
                                let idx = choose|idx: int|
                                    0 <= idx < om0.len() && om0[idx] == (tid, v);
                                lemma_memo_find_none(omo, tid);
                                if idx < omo.len() {
                                    assert(omo[idx] == om0[idx]);
                                    assert(false);
                                }
                                assert(oid >= items0.len());
                            },
                            None => {
                                assert(oid >= items0.len());
                            },
                        }
                    }
                    assert forall|e: int|
                        0 <= e < mb.len() implies (#[trigger] mb[e]).0 >= items0.len()
                        || classified_key(items0, vmo, omo, root as int, mb[e].0) by {
                        if e < m0.len() {
                            assert(mb[e] == m0[e]);
                        } else if e == m0.len() {
                            assert(mb[e].0 == tid);
                        } else if e == m0.len() + 1 {
                            assert(mb[e].0 == vid);
                        } else {
                            assert(mb[e].0 == oid);
                        }
                    }
                }
            },
            None => {
                proof {
                    assert forall|x: int| 0 <= x <= j implies prim_claimed(
                        sem.items.items@,
                        sem.items.vec_memo@,
                        sem.items.option_memo@,
                        m.entries@,
                        (#[trigger] rt[x]).1,
                    ) by {
                        if x < j {
                        } else {
                            assert(!(sem.items.items@[tid as int]->Type_0.inner is Primitive));
                        }
                    }
                }
            },
        }
        j += 1;
    }
    // Second pass: every enumeration at any depth maps to the unsigned
    // 32-bit kind.
    let order = sem.items.scope_order(root);
    let ghost items1 = sem.items.items@;
    let n_items = sem.items.len();
    proof {
        assert(items1.len() == n_items);
        crate::scope::lemma_scope_order_bounds(items1, root as int);
        assert(old(sem).wf());
        lemma_scope_order_extend(items0, items1, root as int);
        crate::scope::lemma_scope_order_bounds(items0, root as int);
        assert(order@ == spec_scope_order(items0, root as int));
    }
    let mut a: usize = 0;
    while a < order.len()
        invariant
            sem.wf(),
            sem.root == old(sem).root,
            root == sem.root,
            sem.items.items@ == items1,
            order@ == spec_scope_order(items1, root as int),
            a <= order@.len(),
            kmap_inv(items1, m.entries@),
            forall|x: int|
                0 <= x < rt.len() ==> prim_claimed(
                    items1,
                    sem.items.vec_memo@,
                    sem.items.option_memo@,
                    m.entries@,
                    (#[trigger] rt[x]).1,
                ),
            pass2_claims_upto(items1, order@, a as int, m.entries@),
            vmo.is_prefix_of(sem.items.vec_memo@),
            omo.is_prefix_of(sem.items.option_memo@),
            kmap_keys_claimed(items0, vmo, omo, root as int, m.entries@),
        decreases order@.len() - a,
    {
        let sid = order[a];
        match &sem.items.items[sid] {
            Item::Scope(s) => {
                let mut b: usize = 0;
                while b < s.types.len()
                    invariant
                        sem.wf(),
                        sem.items.items@ == items1,
                        sid < items1.len(),
                        items1[sid as int] == Item::Scope(*s),
                        b <= s.types@.len(),
                        kmap_inv(items1, m.entries@),
                        forall|x: int|
                            0 <= x < rt.len() ==> prim_claimed(
                                items1,
                                sem.items.vec_memo@,
                                sem.items.option_memo@,
                                m.entries@,
                                (#[trigger] rt[x]).1,
                            ),
                        pass2_claims_upto(items1, order@, a as int, m.entries@),
                        vmo.is_prefix_of(sem.items.vec_memo@),
                        omo.is_prefix_of(sem.items.option_memo@),
                        kmap_keys_claimed(items0, vmo, omo, root as int, m.entries@),
                        forall|b2: int|
                            0 <= b2 < b ==> enum_claimed(
                                items1,
                                m.entries@,
                                (#[trigger] s.types@[b2]).1,
                            ),
                    decreases s.types@.len() - b,
                {
                    let tid = s.types[b].1;
                    proof {
                        assert(item_wf(items1, sid as int));
                        assert(crate::arena::entries_wf(items1, s.types@, ItemKind::Type));
                    }
                    let is_enum = match &sem.items.items[tid] {
                        Item::Type(t) => matches!(&t.inner, TypeInner::Enumeration(_)),
                        _ => {
                            proof {
                                assert(false);
                            }
                            false
                        },
                    };
                    if is_enum {
                        let ghost m0 = m.entries@;
                        match m.get(tid) {
                            Some(_) => {},
                            None => {
                                m.insert(tid, ConcreteKind::Scalar(PrimitiveKind::U32));
                                proof {
                                    lemma_kmap_find_push(
                                        m0,
                                        (tid, ConcreteKind::Scalar(PrimitiveKind::U32)),
                                        tid,
                                    );
                                    assert(m0.is_prefix_of(m.entries@));
                                    assert forall|e: int|
                                        0 <= e < m.entries@.len() implies kmap_entry_ok(
                                        items1,
                                        (#[trigger] m.entries@[e]).0,
                                        m.entries@[e].1,
                                    ) by {
                                        if e < m0.len() {
                                            assert(m.entries@[e] == m0[e]);
                                        } else {
                                            assert(m.entries@[e] == (
                                                tid,
                                                ConcreteKind::Scalar(PrimitiveKind::U32),
                                            ));
                                        }
                                    }
                                    assert forall|x: int| 0 <= x < rt.len() implies prim_claimed(
                                        items1,
                                        sem.items.vec_memo@,
                                        sem.items.option_memo@,
                                        m.entries@,
                                        (#[trigger] rt[x]).1,
                                    ) by {
                                        let tx = rt[x].1;
                                        assert(prim_claimed(
                                            items1,
                                            sem.items.vec_memo@,
                                            sem.items.option_memo@,
                                            m0,
                                            tx,
                                        ));
                                        if tx < items1.len() && (
                                        items1[tx as int] matches Item::Type(t)
                                            && t.inner is Primitive) {
                                            lemma_kmap_find_mono(m0, m.entries@, tx);
                                            let vx = memo_find(sem.items.vec_memo@, tx)->Some_0;
                                            let ox = memo_find(sem.items.option_memo@, tx)->Some_0;
                                            lemma_kmap_find_mono(m0, m.entries@, vx);
                                            lemma_kmap_find_mono(m0, m.entries@, ox);
                                        }
                                    }
                                    assert forall|a2: int, b2: int|
                                        (0 <= a2 < a && items1[order@[a2] as int] is Scope && 0
                                            <= b2 < scope_map(
                                            items1[order@[a2] as int]->Scope_0,
                                            ItemKind::Type,
                                        ).len()) implies enum_claimed(
                                        items1,
                                        m.entries@,
                                        (#[trigger] scope_map(
                                            items1[order@[a2] as int]->Scope_0,
                                            ItemKind::Type,
                                        )[b2]).1,
                                    ) by {
                                        let tx = scope_map(
                                            items1[order@[a2] as int]->Scope_0,
                                            ItemKind::Type,
                                        )[b2].1;
                                        assert(enum_claimed(items1, m0, tx));
                                        if tx < items1.len() && (
                                        items1[tx as int] matches Item::Type(t)
                                            && t.inner is Enumeration) && kmap_find(
                                            m0,
                                            tx,
                                        ) is Some {
                                            lemma_kmap_find_mono(m0, m.entries@, tx);
                                        }
                                    }
                                    assert(pass2_claims_upto(items1, order@, a as int, m.entries@));
                                    assert forall|b2: int|
                                        0 <= b2 < b implies enum_claimed(
                                        items1,
                                        m.entries@,
                                        (#[trigger] s.types@[b2]).1,
                                    ) by {
                                        let tx = s.types@[b2].1;
                                        if tx < items1.len() && (
                                        items1[tx as int] matches Item::Type(t)
                                            && t.inner is Enumeration) && kmap_find(
                                            m0,
                                            tx,
                                        ) is Some {
                                            lemma_kmap_find_mono(m0, m.entries@, tx);
                                        }
                                    }
                                    assert(item_wf(items0, sid as int));
                                    assert(items0[sid as int] == items1[sid as int]);
                                    assert(crate::arena::entries_wf(
                                        items0,
                                        s.types@,
                                        ItemKind::Type,
                                    ));
                                    assert(tid < items0.len());
                                    assert(items0[tid as int] == items1[tid as int]);
                                    assert(order@[a as int] == sid);
                                    assert(scope_map(
                                        items0[order@[a as int] as int]->Scope_0,
                                        ItemKind::Type,
                                    )[b as int].1 == tid);
                                    assert(classified_key(
                                        items0,
                                        vmo,
                                        omo,
                                        root as int,
                                        tid,
                                    ));
                                    assert forall|e: int|
                                        0 <= e < m.entries@.len() implies (
                                    #[trigger] m.entries@[e]).0 >= items0.len()
                                        || classified_key(
                                        items0,
                                        vmo,
                                        omo,
                                        root as int,
                                        m.entries@[e].0,
                                    ) by {
                                        if e < m0.len() {
                                            assert(m.entries@[e] == m0[e]);
                                        } else {
                                            assert(m.entries@[e].0 == tid);
                                        }
                                    }
                                }
                            },
                        }
                    }
                    b += 1;
                }
                proof {
                    assert forall|a2: int, b2: int|
                        (0 <= a2 < a + 1 && a2 < order@.len() && items1[order@[a2] as int] is Scope
                            && 0 <= b2 < scope_map(
                            items1[order@[a2] as int]->Scope_0,
                            ItemKind::Type,
                        ).len()) implies enum_claimed(
                        items1,
                        m.entries@,
                        (#[trigger] scope_map(
                            items1[order@[a2] as int]->Scope_0,
                            ItemKind::Type,
                        )[b2]).1,
                    ) by {
                        if a2 == a {
                            assert(order@[a2] == sid);
                            assert(items1[sid as int] == Item::Scope(*s));
                            assert(scope_map(items1[sid as int]->Scope_0, ItemKind::Type)
                                == s.types@);
                            assert(enum_claimed(items1, m.entries@, s.types@[b2].1));
                        }
                    }
                    assert(pass2_claims_upto(items1, order@, a + 1, m.entries@));
                }
            },
            _ => {
                proof {
                    assert forall|a2: int, b2: int|
                        (0 <= a2 < a + 1 && a2 < order@.len() && items1[order@[a2] as int] is Scope
                            && 0 <= b2 < scope_map(
                            items1[order@[a2] as int]->Scope_0,
                            ItemKind::Type,
                        ).len()) implies enum_claimed(
                        items1,
                        m.entries@,
                        (#[trigger] scope_map(
                            items1[order@[a2] as int]->Scope_0,
                            ItemKind::Type,
                        )[b2]).1,
                    ) by {
                        if a2 == a {
                            assert(order@[a2] == sid);
                            assert(!(items1[sid as int] is Scope));
                        }
                    }
                    assert(pass2_claims_upto(items1, order@, a + 1, m.entries@));
                }
            },
        }
        a += 1;
    }
    proof {
        assert(sem.items.items@[root as int] == items0[root as int]);
        assert(pass1_claims(
            sem.items.items@,
            root as int,
            sem.items.vec_memo@,
            sem.items.option_memo@,
            m.entries@,
        ));
        assert(order@.len() as int == spec_scope_order(items1, root as int).len() as int);
        assert(pass2_claims(sem.items.items@, root as int, m.entries@));
        assert(root_primitives_parse(items0, root as int));
    }
    Ok(m)
}

/// Flattens one resolved component into its descriptor. A cell still
/// unresolved, or a value type the classification passes never reached, is
/// a fatal internal-consistency fault, never a silent default.
#[verifier::loop_isolation(false)]
#[verifier::rlimit(100)]
fn component_desc(sem: &Semantic, m: &KindMap, cid: ItemId) -> (r: Result<
    ComponentDesc,
    SemanticError,
>)
    requires
        sem.wf(),
        cid < sem.items.items@.len(),
        sem.items.items@[cid as int] is Component,
        kmap_inv(sem.items.items@, m.entries@),
    ensures
        r matches Ok(d) ==> desc_matches(sem.items.items@, d, cid),
        r matches Err(e) ==> e is UnclassifiedType,
        (r is Ok) <==> (sem.items.items@[cid as int] matches Item::Component(c) && (forall|x: int|
            0 <= x < c.attributes@.len() ==> (#[trigger] c.attributes@[x]) is Resolved) && (
        c.type_ matches ItemRef::Resolved(tid) && kmap_find(m.entries@, tid) is Some)),
{
    let ghost items = sem.items.items@;
    proof {
        assert(item_wf(items, cid as int));
    }
    match &sem.items.items[cid] {
        Item::Component(c) => {
            let tid = match c.type_.as_resolved() {
                Some(tid) => tid,
                None => {
                    return Err(SemanticError::UnclassifiedType { id: cid });
                },
            };
            let kind = match m.get(tid) {
                Some(k) => k,
                None => {
                    return Err(SemanticError::UnclassifiedType { id: tid });
                },
            };
            proof {
                lemma_kmap_find_some(m.entries@, tid, kind);
                assert(kmap_entry_ok(items, tid, kind));
            }
            let path = match sem.items.fully_qualified_display_path(cid) {
                Ok(p) => p,
                Err(_) => {
                    proof {
                        assert(false);
                    }
                    return Err(SemanticError::UnclassifiedType { id: cid });
                },
            };
            let mut attributes: Vec<String> = Vec::new();
            let mut x: usize = 0;
            while x < c.attributes.len()
                invariant
                    x <= c.attributes@.len(),
                    attributes@.len() == x,
                    forall|y: int|
                        0 <= y < x ==> ((#[trigger] c.attributes@[y]) matches ItemRef::Resolved(
                            aid,
                        ) && aid < items.len() && (items[aid as int] matches Item::Attribute(at)
                            && attributes@[y]@ == spec_upper_camel(at.data.name@))),
                decreases c.attributes@.len() - x,
            {
                proof {
                    assert(crate::item::cells(items[cid as int])[x + 1] == c.attributes@[x as int]);
                    assert(crate::item::cell_kinds(items[cid as int])[x + 1]
                        == ItemKind::Attribute);
                }
                let aid = match c.attributes[x].as_resolved() {
                    Some(aid) => aid,
                    None => {
                        proof {
                            assert(!((c.attributes@[x as int]) is Resolved));
                        }
                        return Err(SemanticError::UnclassifiedType { id: cid });
                    },
                };
                proof {
                    assert(crate::arena::ref_wf(
                        items,
                        c.attributes@[x as int],
                        ItemKind::Attribute,
                    ));
                }
                match &sem.items.items[aid] {
                    Item::Attribute(at) => {
                        attributes.push(upper_camel(&at.data.name));
                    },
                    _ => {
                        proof {
                            assert(false);
                        }
                    },
                }
                x += 1;
            }
            Ok(
                ComponentDesc {
                    path,
                    kind,
                    name: c.data.name.clone(),
                    description: clone_opt_string(&c.data.description),
                    attributes,
                },
            )
        },
        _ => {
            proof {
                assert(false);
            }
            Err(SemanticError::UnclassifiedType { id: cid })
        },
    }
}

/// Flattens every component of the resolved graph into a descriptor, in the
/// deterministic scope-traversal order, declaration order within each scope.
/// Builds the concrete-kind map first, synthesizing the list-form and
/// optional-form of every root primitive on the way. Succeeds exactly when
/// the graph is projection-ready: every root primitive name is recognized
/// and every component the traversal reaches is resolved with a classified
/// value type.
#[verifier::loop_isolation(false)]
#[verifier::rlimit(100)]
pub fn all_defined_components(semantic: &mut Semantic) -> (r: Result<
    Vec<ComponentDesc>,
    SemanticError,
>)
    requires
        old(semantic).wf(),
    ensures
        final(semantic).wf(),
        final(semantic).root == old(semantic).root,
        forall|x: int|
            0 <= x < old(semantic).items.items@.len() ==> final(semantic).items.items@[x] == old(
                semantic,
            ).items.items@[x],
        r matches Ok(ds) ==> {
            let items = final(semantic).items.items@;
            let order = spec_scope_order(items, final(semantic).root as int);
            &&& ds@.len() == spec_comp_order(items, order, 0).len()
            &&& (forall|k: int|
                0 <= k < ds@.len() ==> desc_matches(
                    items,
                    #[trigger] ds@[k],
                    spec_comp_order(items, order, 0)[k],
                ))
        },
        r matches Err(e) ==> (e is UnrecognizedPrimitive || e is UnclassifiedType),
        (r is Ok) <==> projection_ready(
            old(semantic).items.items@,
            old(semantic).items.vec_memo@,
            old(semantic).items.option_memo@,
            old(semantic).root as int,
        ),
{
    let ghost items_o = semantic.items.items@;
    let ghost vmo_a = semantic.items.vec_memo@;
    let ghost omo_a = semantic.items.option_memo@;
    let m = match build_type_map(semantic) {
        Ok(m) => m,
        Err(e) => {
            proof {
                assert(!projection_ready(items_o, vmo_a, omo_a, old(semantic).root as int));
            }
            return Err(e);
        },
    };
    let root = semantic.root;
    let order = semantic.items.scope_order(root);
    let ghost items = semantic.items.items@;
    let n_items = semantic.items.len();
    proof {
        assert(items.len() == n_items);
        crate::scope::lemma_scope_order_bounds(items, root as int);
        assert(old(semantic).wf());
        lemma_scope_order_extend(items_o, items, root as int);
        crate::scope::lemma_scope_order_bounds(items_o, root as int);
        assert(order@ == spec_scope_order(items_o, root as int));
        lemma_comp_order_extend(items_o, items, order@, 0);
        assert(spec_comp_order(items, order@, 0) == spec_comp_order(
            items_o,
            spec_scope_order(items_o, root as int),
            0,
        ));
    }
    let mut descs: Vec<ComponentDesc> = Vec::new();
    let ghost mut done: Seq<ItemId> = Seq::empty();
    let mut a: usize = 0;
    proof {
        assert(done + spec_comp_order(items, order@, 0) =~= spec_comp_order(items, order@, 0));
    }
    while a < order.len()
        invariant
            semantic.wf(),
            semantic.items.items@ == items,
            semantic.root == old(semantic).root,
            root == semantic.root,
            kmap_inv(items, m.entries@),
            order@ == spec_scope_order(items, root as int),
            a <= order@.len(),
            descs@.len() == done.len(),
            forall|k: int|
                0 <= k < done.len() ==> desc_matches(items, #[trigger] descs@[k], done[k]),
            forall|k: int|
                0 <= k < done.len() ==> component_projectable(
                    items_o,
                    vmo_a,
                    omo_a,
                    root as int,
                    #[trigger] done[k],
                ),
            done + spec_comp_order(items, order@, a as int) == spec_comp_order(items, order@, 0),
        decreases order@.len() - a,
    {
        let sid = order[a];
        match &semantic.items.items[sid] {
            Item::Scope(s) => {
                proof {
                    assert(item_wf(items, sid as int));
                    assert(spec_scope_order(items_o, root as int)[a as int] == sid);
                    assert(sid < items_o.len() && items_o[sid as int] is Scope);
                    assert(items_o[sid as int] == items[sid as int]);
                    assert(item_wf(items_o, sid as int));
                    assert(crate::arena::entries_wf(
                        items_o,
                        s.components@,
                        ItemKind::Component,
                    ));
                    assert(scope_comps(items, sid as int) == s.components@.map(
                        |x: int, e: (String, ItemId)| e.1,
                    ));
                    assert(spec_comp_order(items, order@, a as int) == scope_comps(
                        items,
                        sid as int,
                    ) + spec_comp_order(items, order@, a + 1));
                }
                let mut b: usize = 0;
                while b < s.components.len()
                    invariant
                        semantic.wf(),
                        semantic.items.items@ == items,
                        sid < items.len(),
                        items[sid as int] == Item::Scope(*s),
                        kmap_inv(items, m.entries@),
                        b <= s.components@.len(),
                        descs@.len() == done.len(),
                        forall|k: int|
                            0 <= k < done.len() ==> desc_matches(
                                items,
                                #[trigger] descs@[k],
                                done[k],
                            ),
                        forall|k: int|
                            0 <= k < done.len() ==> component_projectable(
                                items_o,
                                vmo_a,
                                omo_a,
                                root as int,
                                #[trigger] done[k],
                            ),
                        done + scope_comps(items, sid as int).skip(b as int) + spec_comp_order(
                            items,
                            order@,
                            a + 1,
                        ) == spec_comp_order(items, order@, 0),
                    decreases s.components@.len() - b,
                {
                    let cid = s.components[b].1;
                    proof {
                        assert(crate::arena::entries_wf(
                            items,
                            s.components@,
                            ItemKind::Component,
                        ));
                        assert(crate::arena::entries_wf(
                            items_o,
                            s.components@,
                            ItemKind::Component,
                        ));
                        assert(s.components@[b as int].1 == cid);
                        assert(cid < items_o.len());
                        assert(items_o[cid as int] == items[cid as int]);
                        let sc = scope_comps(items, sid as int);
                        assert(sc[b as int] == cid);
                        assert(sc.skip(b as int)[0] == sc[b as int]);
                        assert(sc.skip(b as int) =~= seq![cid] + sc.skip(b + 1));
                        assert(spec_comp_order(items, order@, 0)[done.len() as int] == cid);
                        assert(item_wf(items_o, cid as int));
                        assert(crate::item::cells(items_o[cid as int])[0]
                            == items_o[cid as int]->Component_0.type_);
                        assert(crate::arena::ref_wf(
                            items_o,
                            crate::item::cells(items_o[cid as int])[0],
                            crate::item::cell_kinds(items_o[cid as int])[0],
                        ));
                    }
                    let d = match component_desc(semantic, &m, cid) {
                        Ok(d) => d,
                        Err(e) => {
                            proof {
                                let rdy = projection_ready(
                                    items_o,
                                    vmo_a,
                                    omo_a,
                                    root as int,
                                );
                                if rdy {
                                    assert(component_projectable(
                                        items_o,
                                        vmo_a,
                                        omo_a,
                                        root as int,
                                        spec_comp_order(
                                            items_o,
                                            spec_scope_order(items_o, root as int),
                                            0,
                                        )[done.len() as int],
                                    ));
                                    let co = items_o[cid as int]->Component_0;
                                    let tid = co.type_->Resolved_0;
                                    lemma_classified_covered(
                                        items_o,
                                        items,
                                        vmo_a,
                                        omo_a,
                                        semantic.items.vec_memo@,
                                        semantic.items.option_memo@,
                                        root as int,
                                        m.entries@,
                                        tid,
                                    );
                                    assert(false);
                                }
                                assert(!rdy);
                            }
                            return Err(e);
                        },
                    };
                    let ghost done0 = done;
                    descs.push(d);
                    proof {
                        done = done.push(cid);
                        assert(done =~= done0 + seq![cid]);
                        let sc = scope_comps(items, sid as int);
                        assert((done0 + seq![cid]) + (sc.skip(b + 1) + spec_comp_order(
                            items,
                            order@,
                            a + 1,
                        )) =~= (done0 + (seq![cid] + sc.skip(b + 1))) + spec_comp_order(
                            items,
                            order@,
                            a + 1,
                        ));
                        assert(done + sc.skip(b + 1) + spec_comp_order(items, order@, a + 1)
                            =~= spec_comp_order(items, order@, 0));
                        // the produced component is projectable on the graph
                        // as it stood before classification
                        let co = items_o[cid as int]->Component_0;
                        assert(co.type_ matches ItemRef::Resolved(tid2));
                        let tid = co.type_->Resolved_0;
                        assert(kmap_find(m.entries@, tid) is Some);
                        let v = kmap_find(m.entries@, tid)->Some_0;
                        lemma_kmap_find_some(m.entries@, tid, v);
                        let eidx = choose|eidx: int|
                            0 <= eidx < m.entries@.len() && m.entries@[eidx] == (tid, v);
                        assert((#[trigger] m.entries@[eidx]).0 == tid);
                        assert(classified_key(items_o, vmo_a, omo_a, root as int, tid));
                        assert(component_projectable(
                            items_o,
                            vmo_a,
                            omo_a,
                            root as int,
                            cid,
                        ));
                    }
                    b += 1;
                }
                proof {
                    let sc = scope_comps(items, sid as int);
                    assert(sc.skip(sc.len() as int).len() == 0);
                    assert(done + sc.skip(sc.len() as int) =~= done);
                    assert(done + spec_comp_order(items, order@, a + 1) =~= spec_comp_order(
                        items,
                        order@,
                        0,
                    ));
                }
            },
            _ => {
                proof {
                    assert(false);
                }
            },
        }
        a += 1;
    }
    proof {
        assert(spec_comp_order(items, order@, order@.len() as int).len() == 0);
        assert(done + spec_comp_order(items, order@, order@.len() as int) =~= done);
        assert(done =~= spec_comp_order(items, order@, 0));
        assert(root_primitives_parse(items_o, root as int));
        assert forall|k: int|
            0 <= k < spec_comp_order(
                items_o,
                spec_scope_order(items_o, root as int),
                0,
            ).len() implies component_projectable(
            items_o,
            vmo_a,
            omo_a,
            root as int,
            #[trigger] spec_comp_order(items_o, spec_scope_order(items_o, root as int), 0)[k],
        ) by {
            assert(spec_comp_order(items_o, spec_scope_order(items_o, root as int), 0)[k]
                == done[k]);
        }
        assert(projection_ready(items_o, vmo_a, omo_a, root as int));
    }
    Ok(descs)
}

} // verus!
