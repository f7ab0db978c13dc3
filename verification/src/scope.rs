//! The scope tree: fully qualified display paths, lexical path lookup along
//! the chain of enclosing scopes, and the deterministic depth-first
//! traversal order that every projection pass walks.

use vstd::prelude::*;
use vstd::string::StringExecFns;

use crate::arena::{entries_wf, item_wf, items_wf, ItemArena};
use crate::err::SemanticError;
use crate::item::{assoc_find, assoc_get, data_of, kind_of, Item, ItemId, ItemKind, ItemPath,
    path_view, Scope};

verus! {

/// A found association comes from some entry of the map.
pub proof fn lemma_assoc_find_some(entries: Seq<(String, ItemId)>, name: Seq<char>, id: ItemId)
    requires
        assoc_find(entries, name) == Some(id),
    ensures
        exists|j: int| 0 <= j < entries.len() && entries[j].0@ == name && entries[j].1 == id,
    decreases entries.len(),
{
    if entries.len() > 0 && entries[0].0@ != name {
        lemma_assoc_find_some(entries.skip(1), name, id);
        let j = choose|j: int|
            0 <= j < entries.skip(1).len() && entries.skip(1)[j].0@ == name && entries.skip(1)[j].1
                == id;
        assert(entries[j + 1].0@ == name && entries[j + 1].1 == id);
    }
}

/// One scope's short-name map for a given item kind.
pub open spec fn scope_map(s: Scope, k: ItemKind) -> Seq<(String, ItemId)> {
    match k {
        ItemKind::Component => s.components@,
        ItemKind::Concept => s.concepts@,
        ItemKind::Message => s.messages@,
        ItemKind::Type => s.types@,
        ItemKind::Attribute => s.attributes@,
        ItemKind::Scope => s.scopes@,
    }
}

/// Resolves a path inside one scope alone: the leading segments navigate
/// child scopes by name, the final segment is looked up in the map of the
/// expected kind.
pub open spec fn lookup_in_scope(
    items: Seq<Item>,
    sid: int,
    segs: Seq<Seq<char>>,
    k: ItemKind,
) -> Option<ItemId>
    decreases segs.len(),
{
    if 0 <= sid < items.len() {
        match items[sid] {
            Item::Scope(s) => {
                if segs.len() == 0 {
                    None
                } else if segs.len() == 1 {
                    assoc_find(scope_map(s, k), segs[0])
                } else {
                    match assoc_find(s.scopes@, segs[0]) {
                        Some(cid) => lookup_in_scope(items, cid as int, segs.skip(1), k),
                        None => None,
                    }
                }
            },
            _ => None,
        }
    } else {
        None
    }
}

/// Resolves a path against a scope and each of its ancestors in turn,
/// taking the first scope at which the path matches: the nearest enclosing
/// scope wins, mirroring lexical shadowing.
pub open spec fn lookup_from(
    items: Seq<Item>,
    sid: int,
    segs: Seq<Seq<char>>,
    k: ItemKind,
) -> Option<ItemId>
    decreases (if sid >= 0 {
        sid + 1
    } else {
        0int
    }),
{
    if 0 <= sid < items.len() {
        match lookup_in_scope(items, sid, segs, k) {
            Some(id) => Some(id),
            None => match data_of(items[sid]).parent {
                Some(p) => if p < sid {
                    lookup_from(items, p as int, segs, k)
                } else {
                    None
                },
                None => None,
            },
        }
    } else {
        None
    }
}

/// In a well-formed arena, whatever a lookup finds is an in-bounds item of
/// the expected kind.
pub proof fn lemma_lookup_in_scope_kind(
    items: Seq<Item>,
    sid: int,
    segs: Seq<Seq<char>>,
    k: ItemKind,
    id: ItemId,
)
    requires
        items_wf(items),
        lookup_in_scope(items, sid, segs, k) == Some(id),
    ensures
        id < items.len() && kind_of(items[id as int]) == k,
    decreases segs.len(),
{
    let s = items[sid]->Scope_0;
    assert(item_wf(items, sid));
    if segs.len() == 1 {
        lemma_assoc_find_some(scope_map(s, k), segs[0], id);
        assert(entries_wf(items, scope_map(s, k), k));
    } else {
        match assoc_find(s.scopes@, segs[0]) {
            Some(cid) => {
                lemma_lookup_in_scope_kind(items, cid as int, segs.skip(1), k, id);
            },
            None => {},
        }
    }
}

/// As [`lemma_lookup_in_scope_kind`], along the whole ancestor chain.
pub proof fn lemma_lookup_from_kind(
    items: Seq<Item>,
    sid: int,
    segs: Seq<Seq<char>>,
    k: ItemKind,
    id: ItemId,
)
    requires
        items_wf(items),
        lookup_from(items, sid, segs, k) == Some(id),
    ensures
        id < items.len() && kind_of(items[id as int]) == k,
    decreases (if sid >= 0 {
        sid + 1
    } else {
        0int
    }),
{
    match lookup_in_scope(items, sid, segs, k) {
        Some(x) => {
            lemma_lookup_in_scope_kind(items, sid, segs, k, id);
        },
        None => {
            lemma_lookup_from_kind(items, data_of(items[sid]).parent->Some_0 as int, segs, k, id);
        },
    }
}

/// The dot-terminated prefix contributed by a chain of enclosing scopes:
/// empty for the root scope (whose name is excluded from every path), and
/// `prefix(parent) + name + "."` for any other scope.
pub open spec fn scope_prefix(items: Seq<Item>, op: Option<ItemId>) -> Seq<char>
    decreases (match op {
        Some(p) => p as int + 1,
        None => 0int,
    }),
{
    match op {
        None => Seq::empty(),
        Some(p) => {
            if p < items.len() {
                let d = data_of(items[p as int]);
                match d.parent {
                    None => Seq::empty(),
                    Some(q) => if q < p {
                        scope_prefix(items, Some(q)) + d.name@ + seq!['.']
                    } else {
                        Seq::empty()
                    },
                }
            } else {
                Seq::empty()
            }
        },
    }
}

/// The fully qualified display path of an item: the dot-joined names of its
/// enclosing scopes from the root (excluded) outward, then its own short
/// name.
pub open spec fn spec_item_path(items: Seq<Item>, id: int) -> Seq<char> {
    scope_prefix(items, data_of(items[id]).parent) + data_of(items[id]).name@
}

impl ItemArena {
    /// The prefix contributed by the scope chain starting at `op`.
    fn path_prefix(&self, op: Option<ItemId>) -> (r: String)
        requires
            self.wf(),
            match op {
                Some(p) => p < self.items@.len(),
                None => true,
            },
        ensures
            r@ == scope_prefix(self.items@, op),
        decreases (match op {
            Some(p) => p as int + 1,
            None => 0int,
        }),
    {
        match op {
            None => String::new(),
            Some(p) => {
                proof {
                    assert(item_wf(self.items@, p as int));
                }
                let d = self.items[p].data();
                let par = d.parent;
                match par {
                    None => String::new(),
                    Some(q) => {
                        let mut s = self.path_prefix(Some(q));
                        s.append(self.items[p].data().name.as_str());
                        s.append(".");
                        proof {
                            reveal_strlit(".");
                            assert(s@ =~= scope_prefix(self.items@, op));
                        }
                        s
                    },
                }
            },
        }
    }

    /// The fully qualified display path of the item with the given
    /// identifier: the scope short-names from the root to the item's owning
    /// scope, dot-joined, then the item's own short name. The root scope's
    /// name is excluded. This path is the stable identifier every consumer
    /// of the resolved graph sees.
    pub fn fully_qualified_display_path(&self, id: ItemId) -> (r: Result<String, SemanticError>)
        requires
            self.wf(),
        ensures
            id < self.items@.len() ==> (r matches Ok(s) && s@ == spec_item_path(
                self.items@,
                id as int,
            )),
            id >= self.items@.len() ==> (r matches Err(e) && (
            e matches SemanticError::UnknownId { id: e_id } && e_id == id)),
    {
        if id >= self.items.len() {
            return Err(SemanticError::UnknownId { id });
        }
        proof {
            assert(item_wf(self.items@, id as int));
        }
        let par = self.items[id].data().parent;
        let mut s = self.path_prefix(par);
        s.append(self.items[id].data().name.as_str());
        Ok(s)
    }

    /// Resolves the tail of `path` starting at segment `from` inside the
    /// scope `sid` alone.
    fn find_in_scope(&self, sid: ItemId, path: &ItemPath, from: usize, k: ItemKind) -> (r: Option<
        ItemId,
    >)
        requires
            self.wf(),
            sid < self.items@.len(),
            from <= path.segments@.len(),
        ensures
            r == lookup_in_scope(self.items@, sid as int, path_view(*path).skip(from as int), k),
        decreases path.segments@.len() - from,
    {
        let ghost segs = path_view(*path).skip(from as int);
        let remaining = path.segments.len() - from;
        match &self.items[sid] {
            Item::Scope(s) => {
                if remaining == 0 {
                    None
                } else if remaining == 1 {
                    proof {
                        assert(segs[0] == path.segments@[from as int]@);
                    }
                    assoc_get(kind_map(s, k), &path.segments[from])
                } else {
                    proof {
                        assert(segs[0] == path.segments@[from as int]@);
                    }
                    match assoc_get(&s.scopes, &path.segments[from]) {
                        Some(cid) => {
                            proof {
                                assert(item_wf(self.items@, sid as int));
                                lemma_assoc_find_some(s.scopes@, segs[0], cid);
                                assert(segs.skip(1) =~= path_view(*path).skip(from + 1));
                            }
                            self.find_in_scope(cid, path, from + 1, k)
                        },
                        None => None,
                    }
                }
            },
            _ => None,
        }
    }

    /// Resolves a raw path against the scope `start` and each enclosing
    /// ancestor in turn; the nearest enclosing scope at which the whole
    /// path matches wins.
    pub fn lookup_path(&self, start: ItemId, path: &ItemPath, k: ItemKind) -> (r: Option<ItemId>)
        requires
            self.wf(),
            start < self.items@.len(),
        ensures
            r == lookup_from(self.items@, start as int, path_view(*path), k),
            r matches Some(id) ==> id < self.items@.len() && kind_of(self.items@[id as int]) == k,
    {
        let mut cur = start;
        loop
            invariant
                self.wf(),
                cur < self.items@.len(),
                lookup_from(self.items@, start as int, path_view(*path), k) == lookup_from(
                    self.items@,
                    cur as int,
                    path_view(*path),
                    k,
                ),
            decreases cur,
        {
            proof {
                assert(path_view(*path).skip(0) =~= path_view(*path));
            }
            match self.find_in_scope(cur, path, 0, k) {
                Some(id) => {
                    proof {
                        lemma_lookup_in_scope_kind(
                            self.items@,
                            cur as int,
                            path_view(*path),
                            k,
                            id,
                        );
                    }
                    return Some(id);
                },
                None => {},
            }
            proof {
                assert(item_wf(self.items@, cur as int));
            }
            match self.items[cur].data().parent {
                Some(p) => {
                    cur = p;
                },
                None => {
                    return None;
                },
            }
        }
    }
}

/// The depth-first traversal order of the scope tree rooted at `sid`: the
/// scope itself first, then each child subtree in declaration order. This
/// deterministic order — never a hash order — is the order every projection
/// pass walks.
pub open spec fn spec_scope_order(items: Seq<Item>, sid: int) -> Seq<ItemId>
    decreases items.len() - sid, 1int, 0int,
{
    if 0 <= sid < items.len() && items[sid] is Scope {
        seq![sid as ItemId] + spec_children_order(items, sid, items[sid]->Scope_0.scopes@, 0)
    } else {
        Seq::empty()
    }
}

/// The concatenated traversal orders of the child subtrees named by
/// `entries[j..]`, in declaration order.
pub open spec fn spec_children_order(
    items: Seq<Item>,
    sid: int,
    entries: Seq<(String, ItemId)>,
    j: int,
) -> Seq<ItemId>
    decreases items.len() - sid, 0int, entries.len() - j,
{
    if 0 <= j < entries.len() {
        let sub = if sid < entries[j].1 < items.len() {
            spec_scope_order(items, entries[j].1 as int)
        } else {
            Seq::empty()
        };
        sub + spec_children_order(items, sid, entries, j + 1)
    } else {
        Seq::empty()
    }
}

/// Every identifier the traversal order names is an in-bounds scope.
pub proof fn lemma_scope_order_bounds(items: Seq<Item>, sid: int)
    requires
        items.len() <= usize::MAX,
    ensures
        forall|k: int|
            0 <= k < spec_scope_order(items, sid).len() ==> (#[trigger] spec_scope_order(
                items,
                sid,
            )[k]) < items.len() && items[spec_scope_order(items, sid)[k] as int] is Scope,
    decreases items.len() - sid, 1int, 0int,
{
    if 0 <= sid < items.len() && items[sid] is Scope {
        lemma_children_order_bounds(items, sid, items[sid]->Scope_0.scopes@, 0);
        let co = spec_children_order(items, sid, items[sid]->Scope_0.scopes@, 0);
        assert(spec_scope_order(items, sid) == seq![sid as ItemId] + co);
        assert forall|k: int|
            0 <= k < spec_scope_order(items, sid).len() implies (#[trigger] spec_scope_order(
            items,
            sid,
        )[k]) < items.len() && items[spec_scope_order(items, sid)[k] as int] is Scope by {
            if k == 0 {
                assert((seq![sid as ItemId] + co)[0] == seq![sid as ItemId][0]);
                assert(spec_scope_order(items, sid)[0] == sid as ItemId);
            } else {
                assert((seq![sid as ItemId] + co)[k] == co[k - 1]);
                assert(co[k - 1] < items.len() && items[co[k - 1] as int] is Scope);
            }
        }
    }
}

/// Every identifier a child traversal names is an in-bounds scope.
pub proof fn lemma_children_order_bounds(
    items: Seq<Item>,
    sid: int,
    entries: Seq<(String, ItemId)>,
    j: int,
)
    requires
        items.len() <= usize::MAX,
    ensures
        forall|k: int|
            0 <= k < spec_children_order(items, sid, entries, j).len() ==> (
            #[trigger] spec_children_order(items, sid, entries, j)[k]) < items.len() && items[
                spec_children_order(items, sid, entries, j)[k] as int
            ] is Scope,
    decreases items.len() - sid, 0int, entries.len() - j,
{
    if 0 <= j < entries.len() {
        let sub = if sid < entries[j].1 < items.len() {
            spec_scope_order(items, entries[j].1 as int)
        } else {
            Seq::empty()
        };
        if sid < entries[j].1 < items.len() {
            lemma_scope_order_bounds(items, entries[j].1 as int);
        }
        lemma_children_order_bounds(items, sid, entries, j + 1);
        let rest = spec_children_order(items, sid, entries, j + 1);
        assert forall|k: int|
            0 <= k < spec_children_order(items, sid, entries, j).len() implies (
        #[trigger] spec_children_order(items, sid, entries, j)[k]) < items.len() && items[
            spec_children_order(items, sid, entries, j)[k] as int
        ] is Scope by {
            if k < sub.len() {
                assert(spec_children_order(items, sid, entries, j)[k] == sub[k]);
            } else {
                assert(spec_children_order(items, sid, entries, j)[k] == rest[k - sub.len()]);
            }
        }
    }
}

/// Appending items to a well-formed arena leaves the traversal order of the
/// existing scope tree unchanged: the order reads only existing scopes.
pub proof fn lemma_scope_order_extend(a: Seq<Item>, b: Seq<Item>, sid: int)
    requires
        items_wf(a),
        a.len() <= b.len(),
        forall|x: int| 0 <= x < a.len() ==> b[x] == a[x],
        sid < a.len(),
    ensures
        spec_scope_order(b, sid) == spec_scope_order(a, sid),
    decreases a.len() - sid, 1int, 0int,
{
    if 0 <= sid < a.len() && a[sid] is Scope {
        assert(b[sid] == a[sid]);
        assert(item_wf(a, sid));
        let entries = a[sid]->Scope_0.scopes@;
        assert(entries_wf(a, entries, ItemKind::Scope));
        assert(forall|x: int| 0 <= x < entries.len() ==> (#[trigger] entries[x]).1 < a.len());
        lemma_children_order_extend(a, b, sid, entries, 0);
    }
}

/// As [`lemma_scope_order_extend`], for the child subtrees of one scope.
pub proof fn lemma_children_order_extend(
    a: Seq<Item>,
    b: Seq<Item>,
    sid: int,
    entries: Seq<(String, ItemId)>,
    j: int,
)
    requires
        items_wf(a),
        a.len() <= b.len(),
        forall|x: int| 0 <= x < a.len() ==> b[x] == a[x],
        0 <= sid < a.len(),
        forall|x: int| 0 <= x < entries.len() ==> (#[trigger] entries[x]).1 < a.len(),
    ensures
        spec_children_order(b, sid, entries, j) == spec_children_order(a, sid, entries, j),
    decreases a.len() - sid, 0int, entries.len() - j,
{
    if 0 <= j < entries.len() {
        let cid = entries[j].1;
        if sid < cid < a.len() {
            lemma_scope_order_extend(a, b, cid as int);
        }
        lemma_children_order_extend(a, b, sid, entries, j + 1);
    }
}

impl ItemArena {
    /// Collects the scope identifiers of the subtree rooted at `sid` in
    /// depth-first declaration order: a scope before its children, children
    /// in the order they were declared.
    pub fn scope_order(&self, sid: ItemId) -> (r: Vec<ItemId>)
        requires
            self.wf(),
            sid < self.items@.len(),
            self.items@[sid as int] is Scope,
        ensures
            r@ == spec_scope_order(self.items@, sid as int),
        decreases self.items@.len() - sid,
    {
        let mut out: Vec<ItemId> = Vec::new();
        out.push(sid);
        match &self.items[sid] {
            Item::Scope(s) => {
                let mut j: usize = 0;
                while j < s.scopes.len()
                    invariant
                        self.wf(),
                        sid < self.items@.len(),
                        self.items@[sid as int] == Item::Scope(*s),
                        j <= s.scopes@.len(),
                        out@ + spec_children_order(self.items@, sid as int, s.scopes@, j as int)
                            == spec_scope_order(self.items@, sid as int),
                    decreases s.scopes@.len() - j,
                {
                    let cid = s.scopes[j].1;
                    proof {
                        assert(item_wf(self.items@, sid as int));
                    }
                    let mut sub = self.scope_order(cid);
                    let ghost out0 = out@;
                    let ghost sub0 = sub@;
                    out.append(&mut sub);
                    proof {
                        assert(out@ =~= out0 + sub0);
                        assert((out0 + sub0) + spec_children_order(
                            self.items@,
                            sid as int,
                            s.scopes@,
                            j + 1,
                        ) =~= out0 + (sub0 + spec_children_order(
                            self.items@,
                            sid as int,
                            s.scopes@,
                            j + 1,
                        )));
                    }
                    j += 1;
                }
                proof {
                    assert(spec_children_order(
                        self.items@,
                        sid as int,
                        s.scopes@,
                        s.scopes@.len() as int,
                    ) =~= Seq::<ItemId>::empty());
                    assert(out@ + Seq::<ItemId>::empty() =~= out@);
                }
                out
            },
            _ => {
                proof {
                    assert(false);
                }
                out
            },
        }
    }
}

/// The borrow of one scope's short-name map for a given item kind.
pub fn kind_map<'a>(s: &'a Scope, k: ItemKind) -> (r: &'a Vec<(String, ItemId)>)
    ensures
        r@ == scope_map(*s, k),
{
    match k {
        ItemKind::Component => &s.components,
        ItemKind::Concept => &s.concepts,
        ItemKind::Message => &s.messages,
        ItemKind::Type => &s.types,
        ItemKind::Attribute => &s.attributes,
        ItemKind::Scope => &s.scopes,
    }
}

} // verus!
