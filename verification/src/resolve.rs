//! The resolution pass: every reference cell reachable from the root is
//! driven from its raw path to the identifier the path denotes under the
//! nearest-enclosing-scope rule, iterating passes to a fixed point.

use vstd::prelude::*;

use crate::arena::{item_wf, items_wf, memo_wf, ref_wf};
use crate::err::SemanticError;
use crate::item::{
    cell_kinds, cells, data_of, kind_of, lemma_same_skeleton_basics, same_skeleton, skeleton_eq,
    spec_join_path, path_view, Item, ItemId, ItemKind, ItemRef,
};
use crate::scope::{lemma_lookup_from_kind, lookup_from, lookup_in_scope, spec_item_path};

verus! {

/// The scope a cell of item `i` is resolved against: the item's own scope.
/// Items without an owning scope hold no cells.
pub open spec fn spec_owner(items: Seq<Item>, i: int) -> int {
    match data_of(items[i]).parent {
        Some(p) => p as int,
        None => -1,
    }
}

/// What one resolution attempt leaves in a cell: a resolved cell is never
/// touched again; an unresolved cell becomes resolved exactly when its path
/// matches along the scope chain, and otherwise keeps its raw path.
pub open spec fn resolved_cell(items: Seq<Item>, o: int, c: ItemRef, k: ItemKind) -> ItemRef {
    match c {
        ItemRef::Resolved(_) => c,
        ItemRef::Unresolved(p) => match lookup_from(items, o, path_view(p), k) {
            Some(id) => ItemRef::Resolved(id),
            None => c,
        },
    }
}

/// No reference cell anywhere in the graph remains unresolved.
pub open spec fn fully_resolved(items: Seq<Item>) -> bool {
    forall|i: int, j: int|
        0 <= i < items.len() && 0 <= j < cells(#[trigger] items[i]).len() ==> (#[trigger] cells(
            items[i],
        )[j]) is Resolved
}

/// Every unresolved cell's path matches some item of the expected kind along
/// the referencing item's scope chain.
pub open spec fn all_lookups_succeed(items: Seq<Item>) -> bool {
    forall|i: int, j: int|
        0 <= i < items.len() && 0 <= j < cells(#[trigger] items[i]).len() ==> ((#[trigger] cells(
            items[i],
        )[j]) matches ItemRef::Unresolved(p) ==> lookup_from(
            items,
            spec_owner(items, i),
            path_view(p),
            cell_kinds(items[i])[j],
        ) is Some)
}

/// The items after a resolution pass, cell by cell: each cell of each item
/// carries the outcome of one resolution attempt against the pass-entry
/// graph.
pub open spec fn resolution_outcome(items0: Seq<Item>, items1: Seq<Item>) -> bool {
    forall|i: int, j: int|
        0 <= i < items0.len() && 0 <= j < cells(#[trigger] items0[i]).len() ==> #[trigger] cells(
            items1[i],
        )[j] == resolved_cell(
            items0,
            spec_owner(items0, i),
            cells(items0[i])[j],
            cell_kinds(items0[i])[j],
        )
}

/// How many of these cells are unresolved.
pub open spec fn refs_unresolved(cs: Seq<ItemRef>) -> nat
    decreases cs.len(),
{
    if cs.len() == 0 {
        0
    } else {
        (if cs[0] is Unresolved {
            1nat
        } else {
            0nat
        }) + refs_unresolved(cs.skip(1))
    }
}

/// How many cells of this item are unresolved.
pub open spec fn item_unresolved(it: Item) -> nat {
    refs_unresolved(cells(it))
}

/// How many cells of the whole graph are unresolved.
pub open spec fn total_unresolved(items: Seq<Item>) -> nat
    decreases items.len(),
{
    if items.len() == 0 {
        0
    } else {
        item_unresolved(items[0]) + total_unresolved(items.skip(1))
    }
}

/// Replacing one item changes the graph count by that item's difference.
pub proof fn lemma_total_update(items: Seq<Item>, i: int, v: Item)
    requires
        0 <= i < items.len(),
    ensures
        total_unresolved(items.update(i, v)) + item_unresolved(items[i]) == total_unresolved(items)
            + item_unresolved(v),
    decreases items.len(),
{
    if i == 0 {
        assert(items.update(0, v)[0] == v);
        assert(items.update(0, v).skip(1) =~= items.skip(1));
    } else {
        assert(items.update(i, v)[0] == items[0]);
        assert(items.update(i, v).skip(1) =~= items.skip(1).update(i - 1, v));
        lemma_total_update(items.skip(1), i - 1, v);
    }
}

/// Cells that only ever flip from unresolved to resolved never raise the
/// count, and one flip lowers it strictly.
pub proof fn lemma_refs_pointwise(cs1: Seq<ItemRef>, cs2: Seq<ItemRef>)
    requires
        cs1.len() == cs2.len(),
        forall|j: int| 0 <= j < cs1.len() && (#[trigger] cs2[j]) is Unresolved ==> cs1[j] is Unresolved,
    ensures
        refs_unresolved(cs2) <= refs_unresolved(cs1),
        (exists|j: int| 0 <= j < cs1.len() && (#[trigger] cs1[j]) is Unresolved && cs2[j] is Resolved)
            ==> refs_unresolved(cs2) < refs_unresolved(cs1),
    decreases cs1.len(),
{
    if cs1.len() > 0 {
        assert(forall|j: int|
            0 <= j < cs1.skip(1).len() && (#[trigger] cs2.skip(1)[j]) is Unresolved ==> cs1.skip(
                1,
            )[j] is Unresolved);
        lemma_refs_pointwise(cs1.skip(1), cs2.skip(1));
        if exists|j: int|
            0 <= j < cs1.len() && (#[trigger] cs1[j]) is Unresolved && cs2[j] is Resolved {
            let j = choose|j: int|
                0 <= j < cs1.len() && (#[trigger] cs1[j]) is Unresolved && cs2[j] is Resolved;
            if j == 0 {
                assert(refs_unresolved(cs2) < refs_unresolved(cs1));
            } else {
                assert(cs1.skip(1)[j - 1] == cs1[j]);
                assert(cs2.skip(1)[j - 1] == cs2[j]);
                assert(refs_unresolved(cs2.skip(1)) < refs_unresolved(cs1.skip(1)));
            }
        }
    }
}

/// Lookup reads only scope items and item kinds, which a resolution pass
/// never changes: lookup results are stable across passes.
pub proof fn lemma_lookup_in_scope_frame(
    a: Seq<Item>,
    b: Seq<Item>,
    sid: int,
    segs: Seq<Seq<char>>,
    k: ItemKind,
)
    requires
        skeleton_eq(a, b),
    ensures
        lookup_in_scope(b, sid, segs, k) == lookup_in_scope(a, sid, segs, k),
    decreases segs.len(),
{
    if 0 <= sid < a.len() {
        assert(same_skeleton(a[sid], b[sid]));
        lemma_same_skeleton_basics(a[sid], b[sid]);
        match a[sid] {
            Item::Scope(s) => {
                assert(b[sid] == a[sid]);
                if segs.len() > 1 {
                    match crate::item::assoc_find(s.scopes@, segs[0]) {
                        Some(cid) => {
                            lemma_lookup_in_scope_frame(a, b, cid as int, segs.skip(1), k);
                        },
                        None => {},
                    }
                }
            },
            _ => {
                assert(!(b[sid] is Scope));
            },
        }
    }
}

/// As [`lemma_lookup_in_scope_frame`], along the whole ancestor chain.
pub proof fn lemma_lookup_from_frame(
    a: Seq<Item>,
    b: Seq<Item>,
    sid: int,
    segs: Seq<Seq<char>>,
    k: ItemKind,
)
    requires
        skeleton_eq(a, b),
    ensures
        lookup_from(b, sid, segs, k) == lookup_from(a, sid, segs, k),
    decreases (if sid >= 0 {
        sid + 1
    } else {
        0int
    }),
{
    if 0 <= sid < a.len() {
        lemma_lookup_in_scope_frame(a, b, sid, segs, k);
        lemma_same_skeleton_basics(a[sid], b[sid]);
        match lookup_in_scope(a, sid, segs, k) {
            Some(_) => {},
            None => {
                match data_of(a[sid]).parent {
                    Some(p) => {
                        if p < sid {
                            lemma_lookup_from_frame(a, b, p as int, segs, k);
                        }
                    },
                    None => {},
                }
            },
        }
    }
}

/// Rewriting one item's cells — and nothing else — keeps every item
/// well-formed, provided the new cells are themselves well-formed.
pub proof fn lemma_wf_cell_update(items0: Seq<Item>, items1: Seq<Item>, i: int)
    requires
        items_wf(items0),
        0 <= i < items0.len(),
        items1.len() == items0.len(),
        forall|x: int| 0 <= x < items0.len() && x != i ==> items1[x] == items0[x],
        same_skeleton(items0[i], items1[i]),
        forall|j: int|
            0 <= j < cells(items1[i]).len() ==> ref_wf(
                items0,
                #[trigger] cells(items1[i])[j],
                cell_kinds(items1[i])[j],
            ),
    ensures
        items_wf(items1),
{
    lemma_same_skeleton_basics(items0[i], items1[i]);
    assert(forall|x: int|
        0 <= x < items0.len() ==> kind_of(#[trigger] items1[x]) == kind_of(items0[x]) && data_of(
            items1[x],
        ) == data_of(items0[x]));
    assert forall|x: int| 0 <= x < items1.len() implies item_wf(items1, x) by {
        assert(item_wf(items0, x));
        let it1 = items1[x];
        let it0 = items0[x];
        assert forall|j: int| 0 <= j < cells(it1).len() implies ref_wf(
            items1,
            cells(it1)[j],
            cell_kinds(it1)[j],
        ) by {
            if x == i {
                assert(ref_wf(items0, cells(it1)[j], cell_kinds(it1)[j]));
            } else {
                assert(ref_wf(items0, cells(it0)[j], cell_kinds(it0)[j]));
            }
        }
        if x != i {
            match it1 {
                Item::Scope(s) => {
                    assert(crate::arena::entries_wf(items1, s.components@, ItemKind::Component));
                    assert(crate::arena::entries_wf(items1, s.concepts@, ItemKind::Concept));
                    assert(crate::arena::entries_wf(items1, s.messages@, ItemKind::Message));
                    assert(crate::arena::entries_wf(items1, s.types@, ItemKind::Type));
                    assert(crate::arena::entries_wf(items1, s.attributes@, ItemKind::Attribute));
                    assert(crate::arena::entries_wf(items1, s.scopes@, ItemKind::Scope));
                },
                _ => {},
            }
        } else {
            if it1 is Scope {
                assert(it1 == it0);
                let s = it1->Scope_0;
                assert(crate::arena::entries_wf(items1, s.components@, ItemKind::Component));
                assert(crate::arena::entries_wf(items1, s.concepts@, ItemKind::Concept));
                assert(crate::arena::entries_wf(items1, s.messages@, ItemKind::Message));
                assert(crate::arena::entries_wf(items1, s.types@, ItemKind::Type));
                assert(crate::arena::entries_wf(items1, s.attributes@, ItemKind::Attribute));
                assert(crate::arena::entries_wf(items1, s.scopes@, ItemKind::Scope));
            }
            if it1 is Type {
                assert(it1 == it0);
            }
        }
    }
}

/// A memoization table is untouched by a cell rewrite: its targets are type
/// items, whose skeleton is their whole value.
pub proof fn lemma_memo_wf_cell_update(
    items0: Seq<Item>,
    items1: Seq<Item>,
    i: int,
    memo: Seq<(ItemId, ItemId)>,
    vec_form: bool,
)
    requires
        memo_wf(items0, memo, vec_form),
        0 <= i < items0.len(),
        items1.len() == items0.len(),
        forall|x: int| 0 <= x < items0.len() && x != i ==> items1[x] == items0[x],
        same_skeleton(items0[i], items1[i]),
    ensures
        memo_wf(items1, memo, vec_form),
{
    assert forall|j: int|
        0 <= j < memo.len() implies memo[j].0 < items1.len() && memo[j].1 < items1.len() && (
    items1[memo[j].1 as int] matches Item::Type(t) && t.inner == (if vec_form {
        crate::item::TypeInner::VecOf(memo[j].0)
    } else {
        crate::item::TypeInner::OptionOf(memo[j].0)
    })) by {
        if memo[j].1 == i {
            assert(same_skeleton(items0[i], items1[i]));
            assert(items1[i] == items0[i]);
        }
    }
}

/// What one resolution attempt would hand the cell `j` of item `i`: nothing
/// for a resolved cell, and the lookup outcome for an unresolved one.
pub open spec fn spec_plan(items: Seq<Item>, i: int, j: int) -> Option<ItemId> {
    match cells(items[i])[j] {
        ItemRef::Resolved(_) => None,
        ItemRef::Unresolved(p) => lookup_from(
            items,
            spec_owner(items, i),
            path_view(p),
            cell_kinds(items[i])[j],
        ),
    }
}

/// The cell `j` of item `i` is unresolved and its path matches nothing along
/// the scope chain.
pub open spec fn cell_fails(items: Seq<Item>, i: int, j: int) -> bool {
    cells(items[i])[j] is Unresolved && spec_plan(items, i, j) is None
}

/// `e` is the `UnknownPath` error for the cell `j` of item `i`.
pub open spec fn err_for(items: Seq<Item>, e: SemanticError, i: int, j: int) -> bool {
    &&& cells(items[i])[j] is Unresolved
    &&& (e matches SemanticError::UnknownPath { path, origin } && path@ == spec_join_path(
        path_view(cells(items[i])[j]->Unresolved_0),
    ) && origin@ == spec_item_path(items, i))
}

/// Planning bookkeeping for one item, with explicit witnesses: the settled
/// part of the plan matches the resolution attempt cell by cell; `wit` is a
/// resolvable cell when `any` is set; `fail_wits[k]` is the failing cell the
/// error `errs[k]` reports.
pub open spec fn plan_inv(
    items: Seq<Item>,
    i: int,
    plan: Seq<Option<ItemId>>,
    errs: Seq<SemanticError>,
    any: bool,
    wit: int,
    fail_wits: Seq<int>,
) -> bool {
    &&& (forall|x: int| 0 <= x < plan.len() ==> plan[x] == spec_plan(items, i, x))
    &&& (any ==> 0 <= wit < plan.len() && plan[wit] is Some)
    &&& (!any ==> forall|x: int| 0 <= x < plan.len() ==> !((#[trigger] plan[x]) is Some))
    &&& fail_wits.len() == errs.len()
    &&& fail_wits == failing_cells(items, i, plan.len() as int)
    &&& (forall|k: int|
        #![all_triggers]
        0 <= k < errs.len() ==> 0 <= fail_wits[k] < plan.len() && cell_fails(
            items,
            i,
            fail_wits[k],
        ) && err_for(items, errs[k], i, fail_wits[k]))
    &&& (errs.len() == 0 ==> forall|x: int| 0 <= x < plan.len() ==> !cell_fails(items, i, x))
}

/// What planning one item guarantees: a full per-cell resolution attempt,
/// a faithful progress flag, and one `UnknownPath` error per reported
/// failing cell.
pub open spec fn plan_ensures(
    items: Seq<Item>,
    i: int,
    plan: Seq<Option<ItemId>>,
    errs: Seq<SemanticError>,
    any: bool,
) -> bool {
    &&& plan.len() == cells(items[i]).len()
    &&& (forall|x: int| 0 <= x < plan.len() ==> plan[x] == spec_plan(items, i, x))
    &&& (any ==> exists|x: int| 0 <= x < plan.len() && (#[trigger] plan[x]) is Some)
    &&& (!any ==> forall|x: int| 0 <= x < plan.len() ==> !((#[trigger] plan[x]) is Some))
    &&& (forall|k: int| #![all_triggers] 0 <= k < errs.len() ==> err_reported(items, i, errs[k]))
    &&& (errs.len() == 0 ==> forall|x: int| 0 <= x < plan.len() ==> !cell_fails(items, i, x))
    &&& (forall|j: int|
        #![all_triggers]
        0 <= j < plan.len() && cell_fails(items, i, j) ==> fail_reported(items, i, j, errs))
}

/// The error `e` reports some failing cell of item `i`.
pub open spec fn err_reported(items: Seq<Item>, i: int, e: SemanticError) -> bool {
    exists|x: int|
        0 <= x < cells(items[i]).len() && (#[trigger] cell_fails(items, i, x)) && err_for(
            items,
            e,
            i,
            x,
        )
}

/// Some reported error is the `UnknownPath` error for the cell `j` of item
/// `i`.
pub open spec fn fail_reported(items: Seq<Item>, i: int, j: int, errs: Seq<SemanticError>) -> bool {
    exists|k: int| 0 <= k < errs.len() && err_for(items, #[trigger] errs[k], i, j)
}

/// The failing cells of item `i` among the first `upto` slots, in order.
pub open spec fn failing_cells(items: Seq<Item>, i: int, upto: int) -> Seq<int>
    decreases upto,
{
    if upto <= 0 {
        Seq::empty()
    } else {
        failing_cells(items, i, upto - 1) + (if cell_fails(items, i, upto - 1) {
            seq![upto - 1]
        } else {
            Seq::empty()
        })
    }
}

/// One more slot extends the failing list by that slot exactly when it
/// fails.
pub proof fn lemma_failing_cells_step(items: Seq<Item>, i: int, n: int)
    requires
        n >= 0,
    ensures
        failing_cells(items, i, n + 1) == failing_cells(items, i, n) + (if cell_fails(
            items,
            i,
            n,
        ) {
            seq![n]
        } else {
            Seq::empty()
        }),
{
}

/// Every failing cell below the bound appears in the failing list.
pub proof fn lemma_failing_cells_covers(items: Seq<Item>, i: int, upto: int, j: int)
    requires
        0 <= j < upto,
        cell_fails(items, i, j),
    ensures
        exists|k: int|
            0 <= k < failing_cells(items, i, upto).len() && failing_cells(items, i, upto)[k] == j,
    decreases upto,
{
    let fc = failing_cells(items, i, upto);
    let prev = failing_cells(items, i, upto - 1);
    if j == upto - 1 {
        assert(fc[prev.len() as int] == j);
    } else {
        lemma_failing_cells_covers(items, i, upto - 1, j);
        let k = choose|k: int| 0 <= k < prev.len() && prev[k] == j;
        assert(fc[k] == j);
    }
}

/// The error `e` reports some failing cell of some item.
pub open spec fn pass_err_reported(items: Seq<Item>, e: SemanticError) -> bool {
    exists|i: int| 0 <= i < items.len() && #[trigger] err_reported(items, i, e)
}

/// A scope-chain prefix depends only on names and parents, which every
/// resolution step preserves.
pub proof fn lemma_prefix_frame(a: Seq<Item>, b: Seq<Item>, op: Option<ItemId>)
    requires
        skeleton_eq(a, b),
    ensures
        crate::scope::scope_prefix(b, op) == crate::scope::scope_prefix(a, op),
    decreases (match op {
        Some(p) => p as int + 1,
        None => 0int,
    }),
{
    match op {
        None => {},
        Some(p) => {
            if p < a.len() {
                lemma_same_skeleton_basics(a[p as int], b[p as int]);
                match data_of(a[p as int]).parent {
                    None => {},
                    Some(q) => {
                        if q < p {
                            lemma_prefix_frame(a, b, Some(q));
                        }
                    },
                }
            }
        },
    }
}

/// A fully qualified path depends only on names and parents.
pub proof fn lemma_path_frame(a: Seq<Item>, b: Seq<Item>, i: int)
    requires
        skeleton_eq(a, b),
        0 <= i < a.len(),
    ensures
        spec_item_path(b, i) == spec_item_path(a, i),
{
    lemma_same_skeleton_basics(a[i], b[i]);
    lemma_prefix_frame(a, b, data_of(a[i]).parent);
}

/// Resolution outcomes compose: a second pass over an already-attempted
/// graph decides every cell exactly as the first attempt did.
pub proof fn lemma_outcome_trans(a: Seq<Item>, b: Seq<Item>, c: Seq<Item>)
    requires
        skeleton_eq(a, b),
        skeleton_eq(b, c),
        resolution_outcome(a, b),
        resolution_outcome(b, c),
    ensures
        resolution_outcome(a, c),
{
    assert forall|i: int, j: int|
        0 <= i < a.len() && 0 <= j < cells(#[trigger] a[i]).len() implies #[trigger] cells(
        c[i],
    )[j] == resolved_cell(a, spec_owner(a, i), cells(a[i])[j], cell_kinds(a[i])[j]) by {
        lemma_same_skeleton_basics(a[i], b[i]);
        let ca = cells(a[i])[j];
        let cb = cells(b[i])[j];
        assert(cb == resolved_cell(a, spec_owner(a, i), ca, cell_kinds(a[i])[j]));
        assert(cells(c[i])[j] == resolved_cell(b, spec_owner(b, i), cb, cell_kinds(b[i])[j]));
        match cb {
            ItemRef::Resolved(_) => {},
            ItemRef::Unresolved(p) => {
                lemma_lookup_from_frame(a, b, spec_owner(a, i), path_view(p), cell_kinds(a[i])[j]);
            },
        }
    }
}

/// An error that reports a failing cell keeps reporting it after the pass:
/// a failing cell is left exactly as it was.
pub proof fn lemma_err_reported_stable(a: Seq<Item>, b: Seq<Item>, e: SemanticError)
    requires
        skeleton_eq(a, b),
        resolution_outcome(a, b),
        pass_err_reported(a, e),
    ensures
        pass_err_reported(b, e),
{
    let i = choose|i: int| 0 <= i < a.len() && #[trigger] err_reported(a, i, e);
    let x = choose|x: int|
        0 <= x < cells(a[i]).len() && (#[trigger] cell_fails(a, i, x)) && err_for(a, e, i, x);
    lemma_same_skeleton_basics(a[i], b[i]);
    let p = cells(a[i])[x]->Unresolved_0;
    lemma_lookup_from_frame(a, b, spec_owner(a, i), path_view(p), cell_kinds(a[i])[x]);
    assert(cells(b[i])[x] == resolved_cell(a, spec_owner(a, i), cells(a[i])[x], cell_kinds(a[i])[x]));
    assert(cells(b[i])[x] == cells(a[i])[x]);
    lemma_path_frame(a, b, i);
    assert(cell_fails(b, i, x));
    assert(err_for(b, e, i, x));
    assert(err_reported(b, i, e));
}

/// An error reported against the working graph mid-pass is equally an error
/// against the pass-entry graph, as long as the item itself is untouched.
pub proof fn lemma_err_reported_frame(a: Seq<Item>, b: Seq<Item>, i: int, e: SemanticError)
    requires
        skeleton_eq(a, b),
        0 <= i < a.len(),
        b[i] == a[i],
        err_reported(a, i, e),
    ensures
        err_reported(b, i, e),
{
    let x = choose|x: int|
        0 <= x < cells(a[i]).len() && (#[trigger] cell_fails(a, i, x)) && err_for(a, e, i, x);
    lemma_same_skeleton_basics(a[i], b[i]);
    let p = cells(a[i])[x]->Unresolved_0;
    lemma_lookup_from_frame(a, b, spec_owner(a, i), path_view(p), cell_kinds(a[i])[x]);
    lemma_path_frame(a, b, i);
    assert(cell_fails(b, i, x));
    assert(err_for(b, e, i, x));
}

/// A finished plan with witnesses meets the planning contract.
pub proof fn lemma_plan_inv_done(
    items: Seq<Item>,
    i: int,
    plan: Seq<Option<ItemId>>,
    errs: Seq<SemanticError>,
    any: bool,
    wit: int,
    fail_wits: Seq<int>,
)
    requires
        plan_inv(items, i, plan, errs, any, wit, fail_wits),
        plan.len() == cells(items[i]).len(),
    ensures
        plan_ensures(items, i, plan, errs, any),
{
    if any {
        assert(0 <= wit < plan.len() && plan[wit] is Some);
    }
    assert forall|k: int| #![all_triggers] 0 <= k < errs.len() implies err_reported(
        items,
        i,
        errs[k],
    ) by {
        let x = fail_wits[k];
        assert(0 <= x < plan.len());
        assert(cell_fails(items, i, x));
        assert(err_for(items, errs[k], i, x));
    }
    assert forall|j: int|
        #![all_triggers]
        0 <= j < plan.len() && cell_fails(items, i, j) implies fail_reported(
        items,
        i,
        j,
        errs,
    ) by {
        lemma_failing_cells_covers(items, i, plan.len() as int, j);
        let k = choose|k: int|
            0 <= k < failing_cells(items, i, plan.len() as int).len() && failing_cells(
                items,
                i,
                plan.len() as int,
            )[k] == j;
        assert(fail_wits[k] == j);
        assert(err_for(items, errs[k], i, j));
    }
}

impl crate::semantic::Semantic {
    /// One resolution attempt for every cell of item `i`, without mutating
    /// anything: per cell, the identifier to resolve it to, if its path
    /// matches; one `UnknownPath` error per cell whose path does not; and
    /// whether any cell can be resolved.
    fn plan_item(&self, i: usize) -> (r: (Vec<Option<ItemId>>, Vec<SemanticError>, bool))
        requires
            self.wf(),
            i < self.items.items@.len(),
        ensures
            plan_ensures(self.items.items@, i as int, r.0@, r.1@, r.2),
    {
        let ghost it = self.items.items@[i as int];
        match self.items.items[i].kind() {
            ItemKind::Component => self.plan_component(i),
            ItemKind::Concept => self.plan_concept(i),
            ItemKind::Message => self.plan_message(i),
            _ => {
                proof {
                    assert(cells(it).len() == 0);
                    assert(plan_ensures(
                        self.items.items@,
                        i as int,
                        Seq::<Option<ItemId>>::empty(),
                        Seq::<SemanticError>::empty(),
                        false,
                    ));
                }
                (Vec::new(), Vec::new(), false)
            },
        }
    }

    /// One resolution attempt for every cell of the component `i`.
    #[verifier::rlimit(100)]
    fn plan_component(&self, i: usize) -> (r: (Vec<Option<ItemId>>, Vec<SemanticError>, bool))
        requires
            self.wf(),
            i < self.items.items@.len(),
            self.items.items@[i as int] is Component,
        ensures
            plan_ensures(self.items.items@, i as int, r.0@, r.1@, r.2),
    {
        let ghost items = self.items.items@;
        let ghost it = items[i as int];
        proof {
            assert(item_wf(items, i as int));
        }
        let mut plan: Vec<Option<ItemId>> = Vec::new();
        let mut errs: Vec<SemanticError> = Vec::new();
        let mut any: bool = false;
        let ghost mut wit: int = 0;
        let ghost mut fail_wits: Seq<int> = Seq::empty();
        match &self.items.items[i] {
            Item::Component(c) => {
                let owner = match c.data.parent {
                    Some(p) => p,
                    None => {
                        proof {
                            assert(false);
                        }
                        0
                    },
                };
                proof {
                    assert(cells(it)[0] == c.type_);
                    assert(cell_kinds(it)[0] == ItemKind::Type);
                }
                match &c.type_ {
                    ItemRef::Unresolved(p) => {
                        match self.items.lookup_path(owner, p, ItemKind::Type) {
                            Some(id) => {
                                plan.push(Some(id));
                                any = true;
                                proof {
                                    wit = 0;
                                }
                            },
                            None => {
                                plan.push(None);
                                errs.push(self.unknown_path_error(i, p));
                                proof {
                                    fail_wits = fail_wits.push(0);
                                }
                            },
                        }
                    },
                    ItemRef::Resolved(_) => {
                        plan.push(None);
                    },
                }
                proof {
                    lemma_failing_cells_step(items, i as int, 0);
                    assert(fail_wits =~= failing_cells(items, i as int, 1));
                }
                let mut j: usize = 0;
                while j < c.attributes.len()
                    invariant
                        self.wf(),
                        i < items.len(),
                        items == self.items.items@,
                        it == items[i as int],
                        it == Item::Component(*c),
                        owner < items.len(),
                        owner as int == spec_owner(items, i as int),
                        j <= c.attributes@.len(),
                        plan@.len() == j + 1,
                        plan_inv(items, i as int, plan@, errs@, any, wit, fail_wits),
                    decreases c.attributes@.len() - j,
                {
                    proof {
                        assert(cells(it)[j + 1] == c.attributes@[j as int]);
                        assert(cell_kinds(it)[j + 1] == ItemKind::Attribute);
                    }
                    let ghost errs0 = errs@;
                    match &c.attributes[j] {
                        ItemRef::Unresolved(p) => {
                            match self.items.lookup_path(owner, p, ItemKind::Attribute) {
                                Some(id) => {
                                    plan.push(Some(id));
                                    any = true;
                                    proof {
                                        wit = j + 1;
                                    }
                                },
                                None => {
                                    plan.push(None);
                                    errs.push(self.unknown_path_error(i, p));
                                    proof {
                                        fail_wits = fail_wits.push(j + 1);
                                        assert(forall|k: int|
                                            0 <= k < errs0.len() ==> errs@[k] == errs0[k]);
                                    }
                                },
                            }
                        },
                        ItemRef::Resolved(_) => {
                            plan.push(None);
                        },
                    }
                    proof {
                        lemma_failing_cells_step(items, i as int, j + 1);
                        assert(fail_wits =~= failing_cells(items, i as int, j + 2));
                    }
                    j += 1;
                }
                proof {
                    assert(plan@.len() == cells(it).len());
                }
            },
            _ => {
                proof {
                    assert(false);
                }
            },
        }
        proof {
            lemma_plan_inv_done(items, i as int, plan@, errs@, any, wit, fail_wits);
        }
        (plan, errs, any)
    }

    /// One resolution attempt for every cell of the concept `i`.
    #[verifier::rlimit(100)]
    fn plan_concept(&self, i: usize) -> (r: (Vec<Option<ItemId>>, Vec<SemanticError>, bool))
        requires
            self.wf(),
            i < self.items.items@.len(),
            self.items.items@[i as int] is Concept,
        ensures
            plan_ensures(self.items.items@, i as int, r.0@, r.1@, r.2),
    {
        let ghost items = self.items.items@;
        let ghost it = items[i as int];
        proof {
            assert(item_wf(items, i as int));
        }
        let mut plan: Vec<Option<ItemId>> = Vec::new();
        let mut errs: Vec<SemanticError> = Vec::new();
        let mut any: bool = false;
        let ghost mut wit: int = 0;
        let ghost mut fail_wits: Seq<int> = Seq::empty();
        match &self.items.items[i] {
            Item::Concept(c) => {
                let owner = match c.data.parent {
                    Some(p) => p,
                    None => {
                        proof {
                            assert(false);
                        }
                        0
                    },
                };
                let mut j: usize = 0;
                while j < c.extends.len()
                    invariant
                        self.wf(),
                        i < items.len(),
                        items == self.items.items@,
                        it == items[i as int],
                        it == Item::Concept(*c),
                        owner < items.len(),
                        owner as int == spec_owner(items, i as int),
                        j <= c.extends@.len(),
                        plan@.len() == j,
                        plan_inv(items, i as int, plan@, errs@, any, wit, fail_wits),
                    decreases c.extends@.len() - j,
                {
                    proof {
                        assert(cells(it)[j as int] == c.extends@[j as int]);
                        assert(cell_kinds(it)[j as int] == ItemKind::Concept);
                    }
                    let ghost errs0 = errs@;
                    match &c.extends[j] {
                        ItemRef::Unresolved(p) => {
                            match self.items.lookup_path(owner, p, ItemKind::Concept) {
                                Some(id) => {
                                    plan.push(Some(id));
                                    any = true;
                                    proof {
                                        wit = j as int;
                                    }
                                },
                                None => {
                                    plan.push(None);
                                    errs.push(self.unknown_path_error(i, p));
                                    proof {
                                        fail_wits = fail_wits.push(j as int);
                                        assert(forall|k: int|
                                            0 <= k < errs0.len() ==> errs@[k] == errs0[k]);
                                    }
                                },
                            }
                        },
                        ItemRef::Resolved(_) => {
                            plan.push(None);
                        },
                    }
                    proof {
                        lemma_failing_cells_step(items, i as int, j as int);
                        assert(fail_wits =~= failing_cells(items, i as int, j + 1));
                    }
                    j += 1;
                }
                let ghost ext_len = c.extends@.len() as int;
                let mut j: usize = 0;
                while j < c.defaults.len()
                    invariant
                        self.wf(),
                        i < items.len(),
                        items == self.items.items@,
                        it == items[i as int],
                        it == Item::Concept(*c),
                        owner < items.len(),
                        owner as int == spec_owner(items, i as int),
                        ext_len == c.extends@.len() as int,
                        j <= c.defaults@.len(),
                        plan@.len() == ext_len + j,
                        plan_inv(items, i as int, plan@, errs@, any, wit, fail_wits),
                    decreases c.defaults@.len() - j,
                {
                    proof {
                        assert(cells(it)[ext_len + j] == c.defaults@[j as int].0);
                        assert(cell_kinds(it)[ext_len + j] == ItemKind::Component);
                    }
                    let ghost errs0 = errs@;
                    match &c.defaults[j].0 {
                        ItemRef::Unresolved(p) => {
                            match self.items.lookup_path(owner, p, ItemKind::Component) {
                                Some(id) => {
                                    plan.push(Some(id));
                                    any = true;
                                    proof {
                                        wit = ext_len + j;
                                    }
                                },
                                None => {
                                    plan.push(None);
                                    errs.push(self.unknown_path_error(i, p));
                                    proof {
                                        fail_wits = fail_wits.push(ext_len + j);
                                        assert(forall|k: int|
                                            0 <= k < errs0.len() ==> errs@[k] == errs0[k]);
                                    }
                                },
                            }
                        },
                        ItemRef::Resolved(_) => {
                            plan.push(None);
                        },
                    }
                    proof {
                        lemma_failing_cells_step(items, i as int, ext_len + j);
                        assert(fail_wits =~= failing_cells(items, i as int, ext_len + j + 1));
                    }
                    j += 1;
                }
                proof {
                    assert(plan@.len() == cells(it).len());
                }
            },
            _ => {
                proof {
                    assert(false);
                }
            },
        }
        proof {
            lemma_plan_inv_done(items, i as int, plan@, errs@, any, wit, fail_wits);
        }
        (plan, errs, any)
    }

    /// One resolution attempt for every cell of the message `i`.
    #[verifier::rlimit(100)]
    fn plan_message(&self, i: usize) -> (r: (Vec<Option<ItemId>>, Vec<SemanticError>, bool))
        requires
            self.wf(),
            i < self.items.items@.len(),
            self.items.items@[i as int] is Message,
        ensures
            plan_ensures(self.items.items@, i as int, r.0@, r.1@, r.2),
    {
        let ghost items = self.items.items@;
        let ghost it = items[i as int];
        proof {
            assert(item_wf(items, i as int));
        }
        let mut plan: Vec<Option<ItemId>> = Vec::new();
        let mut errs: Vec<SemanticError> = Vec::new();
        let mut any: bool = false;
        let ghost mut wit: int = 0;
        let ghost mut fail_wits: Seq<int> = Seq::empty();
        match &self.items.items[i] {
            Item::Message(m) => {
                let owner = match m.data.parent {
                    Some(p) => p,
                    None => {
                        proof {
                            assert(false);
                        }
                        0
                    },
                };
                let mut j: usize = 0;
                while j < m.fields.len()
                    invariant
                        self.wf(),
                        i < items.len(),
                        items == self.items.items@,
                        it == items[i as int],
                        it == Item::Message(*m),
                        owner < items.len(),
                        owner as int == spec_owner(items, i as int),
                        j <= m.fields@.len(),
                        plan@.len() == j,
                        plan_inv(items, i as int, plan@, errs@, any, wit, fail_wits),
                    decreases m.fields@.len() - j,
                {
                    proof {
                        assert(cells(it)[j as int] == m.fields@[j as int].1);
                        assert(cell_kinds(it)[j as int] == ItemKind::Type);
                    }
                    let ghost errs0 = errs@;
                    match &m.fields[j].1 {
                        ItemRef::Unresolved(p) => {
                            match self.items.lookup_path(owner, p, ItemKind::Type) {
                                Some(id) => {
                                    plan.push(Some(id));
                                    any = true;
                                    proof {
                                        wit = j as int;
                                        assert(plan@[j as int] == spec_plan(
                                            items,
                                            i as int,
                                            j as int,
                                        ));
                                    }
                                },
                                None => {
                                    plan.push(None);
                                    errs.push(self.unknown_path_error(i, p));
                                    proof {
                                        fail_wits = fail_wits.push(j as int);
                                        assert(forall|k: int|
                                            0 <= k < errs0.len() ==> errs@[k] == errs0[k]);
                                        assert(cell_fails(items, i as int, j as int));
                                        assert(err_for(
                                            items,
                                            errs@[errs@.len() - 1],
                                            i as int,
                                            j as int,
                                        ));
                                    }
                                },
                            }
                        },
                        ItemRef::Resolved(_) => {
                            plan.push(None);
                            proof {
                                assert(spec_plan(items, i as int, j as int) is None);
                            }
                        },
                    }
                    proof {
                        lemma_failing_cells_step(items, i as int, j as int);
                        assert(fail_wits =~= failing_cells(items, i as int, j + 1));
                    }
                    j += 1;
                }
                proof {
                    assert(plan@.len() == cells(it).len());
                }
            },
            _ => {
                proof {
                    assert(false);
                }
            },
        }
        proof {
            lemma_plan_inv_done(items, i as int, plan@, errs@, any, wit, fail_wits);
        }
        (plan, errs, any)
    }

    /// The `UnknownPath` error for a cell of item `i` holding the raw path
    /// `p`.
    fn unknown_path_error(&self, i: usize, p: &crate::item::ItemPath) -> (r: SemanticError)
        requires
            self.wf(),
            i < self.items.items@.len(),
        ensures
            r matches SemanticError::UnknownPath { path, origin } && path@ == spec_join_path(
                path_view(*p),
            ) && origin@ == spec_item_path(self.items.items@, i as int),
    {
        let origin = match self.items.fully_qualified_display_path(i) {
            Ok(s) => s,
            Err(_) => {
                proof {
                    assert(false);
                }
                String::new()
            },
        };
        SemanticError::UnknownPath { path: p.display(), origin }
    }

    /// Transitions the cell `j` of item `i` from unresolved to the resolved
    /// identifier `id`, which must be an in-bounds item of the cell's
    /// expected kind. Nothing else in the graph changes.
    fn set_cell(&mut self, i: usize, j: usize, id: ItemId)
        requires
            old(self).wf(),
            i < old(self).items.items@.len(),
            j < cells(old(self).items.items@[i as int]).len(),
            id < old(self).items.items@.len(),
            kind_of(old(self).items.items@[id as int]) == cell_kinds(
                old(self).items.items@[i as int],
            )[j as int],
        ensures
            final(self).wf(),
            final(self).root == old(self).root,
            final(self).items.vec_memo@ == old(self).items.vec_memo@,
            final(self).items.option_memo@ == old(self).items.option_memo@,
            final(self).items.items@.len() == old(self).items.items@.len(),
            forall|x: int|
                0 <= x < old(self).items.items@.len() && x != i ==> final(self).items.items@[x]
                    == old(self).items.items@[x],
            same_skeleton(old(self).items.items@[i as int], final(self).items.items@[i as int]),
            cells(final(self).items.items@[i as int]) == cells(
                old(self).items.items@[i as int],
            ).update(j as int, ItemRef::Resolved(id)),
    {
        let ghost items0 = self.items.items@;
        let ghost it0 = items0[i as int];
        let slot = &mut self.items.items[i];
        match slot {
            Item::Component(c) => {
                if j == 0 {
                    c.type_ = ItemRef::Resolved(id);
                } else {
                    c.attributes[j - 1] = ItemRef::Resolved(id);
                }
                proof {
                    let it1 = self.items.items@[i as int];
                    assert(cells(it1) =~= cells(it0).update(j as int, ItemRef::Resolved(id)));
                }
            },
            Item::Concept(c) => {
                if j < c.extends.len() {
                    c.extends[j] = ItemRef::Resolved(id);
                } else {
                    c.defaults[j - c.extends.len()].0 = ItemRef::Resolved(id);
                }
                proof {
                    let it1 = self.items.items@[i as int];
                    assert forall|x: int| 0 <= x < cells(it1).len() implies cells(it1)[x] == cells(
                        it0,
                    ).update(j as int, ItemRef::Resolved(id))[x] by {}
                    assert(cells(it1) =~= cells(it0).update(j as int, ItemRef::Resolved(id)));
                    assert forall|x: int|
                        0 <= x < it0->Concept_0.defaults@.len() implies it0->Concept_0.defaults@[x].1
                        == it1->Concept_0.defaults@[x].1 by {}
                }
            },
            Item::Message(m) => {
                m.fields[j].1 = ItemRef::Resolved(id);
                proof {
                    let it1 = self.items.items@[i as int];
                    assert forall|x: int| 0 <= x < cells(it1).len() implies cells(it1)[x] == cells(
                        it0,
                    ).update(j as int, ItemRef::Resolved(id))[x] by {}
                    assert(cells(it1) =~= cells(it0).update(j as int, ItemRef::Resolved(id)));
                    assert forall|x: int|
                        0 <= x < it0->Message_0.fields@.len() implies it0->Message_0.fields@[x].0
                        == it1->Message_0.fields@[x].0 by {}
                }
            },
            _ => {
                proof {
                    assert(cells(it0).len() == 0);
                    assert(false);
                }
            },
        }
        proof {
            let items1 = self.items.items@;
            let it1 = items1[i as int];
            assert(same_skeleton(it0, it1));
            assert(item_wf(items0, i as int));
            assert forall|x: int| 0 <= x < cells(it1).len() implies ref_wf(
                items0,
                cells(it1)[x],
                cell_kinds(it1)[x],
            ) by {
                lemma_same_skeleton_basics(it0, it1);
                if x == j {
                    assert(cells(it1)[x] == ItemRef::Resolved(id));
                } else {
                    assert(cells(it1)[x] == cells(it0)[x]);
                    assert(ref_wf(items0, cells(it0)[x], cell_kinds(it0)[x]));
                }
            }
            lemma_wf_cell_update(items0, items1, i as int);
            lemma_memo_wf_cell_update(items0, items1, i as int, self.items.vec_memo@, true);
            lemma_memo_wf_cell_update(items0, items1, i as int, self.items.option_memo@, false);
        }
    }

    /// Applies one item's plan: every cell the plan resolves is transitioned,
    /// every other cell is left alone.
    #[verifier::loop_isolation(false)]
    #[verifier::rlimit(100)]
    fn apply_plan(&mut self, i: usize, plan: &Vec<Option<ItemId>>)
        requires
            old(self).wf(),
            i < old(self).items.items@.len(),
            plan@.len() == cells(old(self).items.items@[i as int]).len(),
            forall|j: int|
                0 <= j < plan@.len() ==> plan@[j] == spec_plan(old(self).items.items@, i as int, j),
        ensures
            final(self).wf(),
            final(self).root == old(self).root,
            final(self).items.vec_memo@ == old(self).items.vec_memo@,
            final(self).items.option_memo@ == old(self).items.option_memo@,
            final(self).items.items@.len() == old(self).items.items@.len(),
            forall|x: int|
                0 <= x < old(self).items.items@.len() && x != i ==> final(self).items.items@[x]
                    == old(self).items.items@[x],
            same_skeleton(old(self).items.items@[i as int], final(self).items.items@[i as int]),
            forall|j: int|
                0 <= j < plan@.len() ==> #[trigger] cells(final(self).items.items@[i as int])[j]
                    == resolved_cell(
                    old(self).items.items@,
                    spec_owner(old(self).items.items@, i as int),
                    cells(old(self).items.items@[i as int])[j],
                    cell_kinds(old(self).items.items@[i as int])[j],
                ),
            total_unresolved(final(self).items.items@) <= total_unresolved(old(self).items.items@),
            (exists|j: int| 0 <= j < plan@.len() && (#[trigger] plan@[j]) is Some)
                ==> total_unresolved(final(self).items.items@) < total_unresolved(
                old(self).items.items@,
            ),
            (forall|j: int| 0 <= j < plan@.len() ==> !((#[trigger] plan@[j]) is Some))
                ==> final(self).items.items@ == old(self).items.items@,
    {
        let ghost items0 = self.items.items@;
        let ghost mut applied: bool = false;
        let ghost mut applied_wit: int = 0;
        let mut j: usize = 0;
        while j < plan.len()
            invariant
                self.wf(),
                self.root == old(self).root,
                self.items.vec_memo@ == old(self).items.vec_memo@,
                self.items.option_memo@ == old(self).items.option_memo@,
                self.items.items@.len() == items0.len(),
                j <= plan@.len(),
                forall|x: int| 0 <= x < items0.len() && x != i ==> self.items.items@[x] == items0[x],
                same_skeleton(items0[i as int], self.items.items@[i as int]),
                forall|x: int|
                    j <= x < plan@.len() ==> #[trigger] cells(self.items.items@[i as int])[x]
                        == cells(items0[i as int])[x],
                forall|x: int|
                    0 <= x < j ==> #[trigger] cells(self.items.items@[i as int])[x] == (
                    match plan@[x] {
                        Some(id) => ItemRef::Resolved(id),
                        None => cells(items0[i as int])[x],
                    }),
                applied ==> total_unresolved(self.items.items@) < total_unresolved(items0),
                applied ==> 0 <= applied_wit < j && plan@[applied_wit] is Some,
                !applied ==> self.items.items@ == items0 && (forall|x: int|
                    0 <= x < j ==> !((#[trigger] plan@[x]) is Some)),
            decreases plan@.len() - j,
        {
            match plan[j] {
                Some(id) => {
                    let ghost pre = self.items.items@;
                    proof {
                        let c0 = cells(items0[i as int])[j as int];
                        assert(plan@[j as int] == spec_plan(items0, i as int, j as int));
                        assert(c0 is Unresolved);
                        lemma_lookup_from_kind(
                            items0,
                            spec_owner(items0, i as int),
                            path_view(c0->Unresolved_0),
                            cell_kinds(items0[i as int])[j as int],
                            id,
                        );
                        lemma_same_skeleton_basics(items0[i as int], pre[i as int]);
                        if id != i {
                            assert(pre[id as int] == items0[id as int]);
                        } else {
                            lemma_same_skeleton_basics(items0[id as int], pre[id as int]);
                        }
                        assert(kind_of(pre[id as int]) == cell_kinds(pre[i as int])[j as int]);
                    }
                    self.set_cell(i, j, id);
                    proof {
                        applied = true;
                        applied_wit = j as int;
                        let after = self.items.items@;
                        assert(after == pre.update(i as int, after[i as int]));
                        lemma_total_update(pre, i as int, after[i as int]);
                        lemma_refs_pointwise(cells(pre[i as int]), cells(after[i as int]));
                        assert(cells(pre[i as int])[j as int] == cells(items0[i as int])[j as int]);
                        assert(cells(pre[i as int])[j as int] is Unresolved);
                        assert(cells(after[i as int])[j as int] is Resolved);
                        assert(refs_unresolved(cells(after[i as int])) < refs_unresolved(
                            cells(pre[i as int]),
                        ));
                        assert(pre.update(i as int, pre[i as int]) =~= pre);
                        lemma_total_update(pre, i as int, pre[i as int]);
                    }
                },
                None => {},
            }
            j += 1;
        }
        proof {
            assert forall|x: int|
                0 <= x < plan@.len() implies #[trigger] cells(self.items.items@[i as int])[x]
                == resolved_cell(
                items0,
                spec_owner(items0, i as int),
                cells(items0[i as int])[x],
                cell_kinds(items0[i as int])[x],
            ) by {
                assert(plan@[x] == spec_plan(items0, i as int, x));
            }
            if exists|x: int| 0 <= x < plan@.len() && (#[trigger] plan@[x]) is Some {
                let x = choose|x: int| 0 <= x < plan@.len() && (#[trigger] plan@[x]) is Some;
                assert(applied);
            }
        }
    }

    /// One full resolution pass: attempts every reference cell of every item
    /// once, reporting whether any cell was newly resolved and one
    /// `UnknownPath` error per cell whose path still matches nothing.
    #[verifier::loop_isolation(false)]
    #[verifier::rlimit(100)]
    fn resolve_pass(&mut self) -> (r: (bool, Vec<SemanticError>))
        requires
            old(self).wf(),
        ensures
            final(self).wf(),
            final(self).root == old(self).root,
            final(self).items.vec_memo@ == old(self).items.vec_memo@,
            final(self).items.option_memo@ == old(self).items.option_memo@,
            final(self).items.items@.len() == old(self).items.items@.len(),
            skeleton_eq(old(self).items.items@, final(self).items.items@),
            resolution_outcome(old(self).items.items@, final(self).items.items@),
            r.0 ==> total_unresolved(final(self).items.items@) < total_unresolved(
                old(self).items.items@,
            ),
            !r.0 ==> final(self).items.items@ == old(self).items.items@,
            fully_resolved(old(self).items.items@) ==> !r.0,
            (r.1@.len() == 0) <==> fully_resolved(final(self).items.items@),
            forall|k: int|
                #![all_triggers]
                0 <= k < r.1@.len() ==> pass_err_reported(final(self).items.items@, r.1@[k]),
            forall|i2: int, j2: int|
                #![all_triggers]
                (0 <= i2 < final(self).items.items@.len() && 0 <= j2 < cells(
                    final(self).items.items@[i2],
                ).len() && cell_fails(final(self).items.items@, i2, j2)) ==> fail_reported(
                    final(self).items.items@,
                    i2,
                    j2,
                    r.1@,
                ),
    {
        let ghost entry = self.items.items@;
        let mut errs: Vec<SemanticError> = Vec::new();
        let mut progress: bool = false;
        let n = self.items.len();
        let mut i: usize = 0;
        while i < n
            invariant
                self.wf(),
                self.root == old(self).root,
                self.items.vec_memo@ == old(self).items.vec_memo@,
                self.items.option_memo@ == old(self).items.option_memo@,
                n == entry.len(),
                self.items.items@.len() == entry.len(),
                i <= n,
                skeleton_eq(entry, self.items.items@),
                forall|x: int| i <= x < entry.len() ==> self.items.items@[x] == entry[x],
                forall|i2: int, j2: int|
                    0 <= i2 < i && 0 <= j2 < cells(#[trigger] entry[i2]).len() ==> #[trigger] cells(
                        self.items.items@[i2],
                    )[j2] == resolved_cell(
                        entry,
                        spec_owner(entry, i2),
                        cells(entry[i2])[j2],
                        cell_kinds(entry[i2])[j2],
                    ),
                total_unresolved(self.items.items@) <= total_unresolved(entry),
                progress ==> total_unresolved(self.items.items@) < total_unresolved(entry),
                !progress ==> self.items.items@ == entry,
                progress ==> !fully_resolved(entry),
                forall|k: int|
                    #![all_triggers]
                    0 <= k < errs@.len() ==> pass_err_reported(entry, errs@[k]),
                forall|i2: int, j2: int|
                    #![all_triggers]
                    (0 <= i2 < i && 0 <= j2 < cells(entry[i2]).len() && cell_fails(
                        entry,
                        i2,
                        j2,
                    )) ==> fail_reported(entry, i2, j2, errs@),
                errs@.len() == 0 ==> (forall|i2: int, j2: int|
                    0 <= i2 < i && 0 <= j2 < cells(entry[i2]).len() ==> !(#[trigger] cell_fails(
                        entry,
                        i2,
                        j2,
                    ))),
            decreases n - i,
        {
            let ghost pre = self.items.items@;
            let (plan, mut errs_i, any_i) = self.plan_item(i);
            proof {
                assert(pre[i as int] == entry[i as int]);
                lemma_same_skeleton_basics(entry[i as int], pre[i as int]);
                assert forall|j2: int| 0 <= j2 < plan@.len() implies plan@[j2] == spec_plan(
                    entry,
                    i as int,
                    j2,
                ) by {
                    assert(plan@[j2] == spec_plan(pre, i as int, j2));
                    match cells(entry[i as int])[j2] {
                        ItemRef::Unresolved(p) => {
                            lemma_lookup_from_frame(
                                entry,
                                pre,
                                spec_owner(entry, i as int),
                                path_view(p),
                                cell_kinds(entry[i as int])[j2],
                            );
                        },
                        ItemRef::Resolved(_) => {},
                    }
                }
                assert forall|k: int|
                    0 <= k < errs_i@.len() implies #[trigger] pass_err_reported(
                    entry,
                    errs_i@[k],
                ) by {
                    assert(err_reported(pre, i as int, errs_i@[k]));
                    lemma_err_reported_frame(pre, entry, i as int, errs_i@[k]);
                }
            }
            let ghost errs_before = errs@;
            let ghost errs_i0 = errs_i@;
            self.apply_plan(i, &plan);
            errs.append(&mut errs_i);
            if any_i {
                progress = true;
            }
            proof {
                let cur = self.items.items@;
                assert forall|j2: int|
                    #![all_triggers]
                    (0 <= j2 < cells(entry[i as int]).len() && cell_fails(
                        entry,
                        i as int,
                        j2,
                    )) implies fail_reported(entry, i as int, j2, errs@) by {
                    match cells(entry[i as int])[j2] {
                        ItemRef::Unresolved(p) => {
                            lemma_lookup_from_frame(
                                entry,
                                pre,
                                spec_owner(entry, i as int),
                                path_view(p),
                                cell_kinds(entry[i as int])[j2],
                            );
                        },
                        ItemRef::Resolved(_) => {},
                    }
                    assert(cell_fails(pre, i as int, j2));
                    assert(fail_reported(pre, i as int, j2, errs_i0));
                    let k = choose|k: int|
                        0 <= k < errs_i0.len() && err_for(pre, #[trigger] errs_i0[k], i as int, j2);
                    lemma_path_frame(entry, pre, i as int);
                    assert(errs@[errs_before.len() + k] == errs_i0[k]);
                    assert(err_for(entry, errs@[errs_before.len() + k], i as int, j2));
                }
                assert forall|i2: int, j2: int|
                    #![all_triggers]
                    (0 <= i2 < i && 0 <= j2 < cells(entry[i2]).len() && cell_fails(
                        entry,
                        i2,
                        j2,
                    )) implies fail_reported(entry, i2, j2, errs@) by {
                    assert(fail_reported(entry, i2, j2, errs_before));
                    let k = choose|k: int|
                        0 <= k < errs_before.len() && err_for(
                            entry,
                            #[trigger] errs_before[k],
                            i2,
                            j2,
                        );
                    assert(errs@[k] == errs_before[k]);
                }
                assert forall|j2: int|
                    0 <= j2 < cells(entry[i as int]).len() implies #[trigger] cells(
                    cur[i as int],
                )[j2] == resolved_cell(
                    entry,
                    spec_owner(entry, i as int),
                    cells(entry[i as int])[j2],
                    cell_kinds(entry[i as int])[j2],
                ) by {
                    match cells(entry[i as int])[j2] {
                        ItemRef::Unresolved(p) => {
                            lemma_lookup_from_frame(
                                entry,
                                pre,
                                spec_owner(entry, i as int),
                                path_view(p),
                                cell_kinds(entry[i as int])[j2],
                            );
                        },
                        ItemRef::Resolved(_) => {},
                    }
                }
                if any_i {
                    let x = choose|x: int| 0 <= x < plan@.len() && (#[trigger] plan@[x]) is Some;
                    assert(spec_plan(entry, i as int, x) is Some);
                    assert(cells(entry[i as int])[x] is Unresolved);
                    assert(!fully_resolved(entry));
                }
                if errs@.len() == 0 {
                    assert(errs_i@.len() == 0 && errs_before.len() == 0);
                    assert forall|j2: int|
                        0 <= j2 < cells(entry[i as int]).len() implies !cell_fails(
                        entry,
                        i as int,
                        j2,
                    ) by {
                        assert(!cell_fails(pre, i as int, j2));
                        match cells(entry[i as int])[j2] {
                            ItemRef::Unresolved(p) => {
                                lemma_lookup_from_frame(
                                    entry,
                                    pre,
                                    spec_owner(entry, i as int),
                                    path_view(p),
                                    cell_kinds(entry[i as int])[j2],
                                );
                            },
                            ItemRef::Resolved(_) => {},
                        }
                    }
                }
            }
            i += 1;
        }
        proof {
            let cur = self.items.items@;
            if errs@.len() == 0 {
                assert forall|i2: int, j2: int|
                    0 <= i2 < cur.len() && 0 <= j2 < cells(#[trigger] cur[i2]).len() implies (
                #[trigger] cells(cur[i2])[j2]) is Resolved by {
                    lemma_same_skeleton_basics(entry[i2], cur[i2]);
                    assert(!cell_fails(entry, i2, j2));
                    assert(cells(cur[i2])[j2] == resolved_cell(
                        entry,
                        spec_owner(entry, i2),
                        cells(entry[i2])[j2],
                        cell_kinds(entry[i2])[j2],
                    ));
                }
            } else {
                assert(pass_err_reported(entry, errs@[0]));
                let i2 = choose|i2: int|
                    0 <= i2 < entry.len() && #[trigger] err_reported(entry, i2, errs@[0]);
                let x = choose|x: int|
                    0 <= x < cells(entry[i2]).len() && (#[trigger] cell_fails(entry, i2, x))
                        && err_for(entry, errs@[0], i2, x);
                assert(cells(cur[i2])[x] == resolved_cell(
                    entry,
                    spec_owner(entry, i2),
                    cells(entry[i2])[x],
                    cell_kinds(entry[i2])[x],
                ));
                assert(cells(cur[i2])[x] is Unresolved);
                assert(!fully_resolved(cur));
            }
            assert forall|k: int| 0 <= k < errs@.len() implies #[trigger] pass_err_reported(
                cur,
                errs@[k],
            ) by {
                lemma_err_reported_stable(entry, cur, errs@[k]);
            }
            assert forall|i2: int, j2: int|
                #![all_triggers]
                (0 <= i2 < cur.len() && 0 <= j2 < cells(cur[i2]).len() && cell_fails(
                    cur,
                    i2,
                    j2,
                )) implies fail_reported(cur, i2, j2, errs@) by {
                lemma_same_skeleton_basics(entry[i2], cur[i2]);
                assert(cells(cur[i2])[j2] == resolved_cell(
                    entry,
                    spec_owner(entry, i2),
                    cells(entry[i2])[j2],
                    cell_kinds(entry[i2])[j2],
                ));
                assert(cells(entry[i2])[j2] is Unresolved);
                assert(cells(entry[i2])[j2] == cells(cur[i2])[j2]);
                assert(cell_fails(entry, i2, j2));
                assert(fail_reported(entry, i2, j2, errs@));
                let k = choose|k: int|
                    0 <= k < errs@.len() && err_for(entry, #[trigger] errs@[k], i2, j2);
                lemma_path_frame(entry, cur, i2);
                assert(err_for(cur, errs@[k], i2, j2));
            }
        }
        (progress, errs)
    }

    /// Drives every reference cell reachable from the root to its resolved
    /// identifier under the nearest-enclosing-scope rule, iterating passes
    /// until a full pass makes no new resolutions or no cell is pending.
    /// Succeeds exactly when every raw path matches an item of the expected
    /// kind along its scope chain; otherwise fails with one `UnknownPath`
    /// error per cell left unresolved at the fixed point. Resolving an
    /// already fully resolved graph changes nothing and succeeds.
    #[verifier::loop_isolation(false)]
    #[verifier::rlimit(100)]
    pub fn resolve(&mut self) -> (r: Result<(), Vec<SemanticError>>)
        requires
            old(self).wf(),
        ensures
            final(self).wf(),
            final(self).root == old(self).root,
            final(self).items.vec_memo@ == old(self).items.vec_memo@,
            final(self).items.option_memo@ == old(self).items.option_memo@,
            skeleton_eq(old(self).items.items@, final(self).items.items@),
            resolution_outcome(old(self).items.items@, final(self).items.items@),
            (r is Ok) <==> all_lookups_succeed(old(self).items.items@),
            r is Ok ==> fully_resolved(final(self).items.items@),
            fully_resolved(old(self).items.items@)
                ==> (r is Ok && final(self).items.items@ == old(self).items.items@),
            r matches Err(es) ==> es@.len() > 0 && (forall|k: int|
                #![all_triggers]
                0 <= k < es@.len() ==> pass_err_reported(final(self).items.items@, es@[k])),
            r matches Err(es) ==> (forall|i2: int, j2: int|
                #![all_triggers]
                (0 <= i2 < final(self).items.items@.len() && 0 <= j2 < cells(
                    final(self).items.items@[i2],
                ).len() && cell_fails(final(self).items.items@, i2, j2)) ==> fail_reported(
                    final(self).items.items@,
                    i2,
                    j2,
                    es@,
                )),
    {
        let ghost entry = self.items.items@;
        let r0 = self.resolve_pass();
        let mut progress = r0.0;
        let mut errs = r0.1;
        loop
            invariant
                self.wf(),
                self.root == old(self).root,
                self.items.vec_memo@ == old(self).items.vec_memo@,
                self.items.option_memo@ == old(self).items.option_memo@,
                skeleton_eq(entry, self.items.items@),
                resolution_outcome(entry, self.items.items@),
                (errs@.len() == 0) <==> fully_resolved(self.items.items@),
                forall|k: int|
                    #![all_triggers]
                    0 <= k < errs@.len() ==> pass_err_reported(self.items.items@, errs@[k]),
                forall|i2: int, j2: int|
                    #![all_triggers]
                    (0 <= i2 < self.items.items@.len() && 0 <= j2 < cells(
                        self.items.items@[i2],
                    ).len() && cell_fails(self.items.items@, i2, j2)) ==> fail_reported(
                        self.items.items@,
                        i2,
                        j2,
                        errs@,
                    ),
                fully_resolved(entry) ==> self.items.items@ == entry,
            decreases total_unresolved(self.items.items@), (if progress {
                1int
            } else {
                0int
            }),
        {
            if errs.len() == 0 {
                proof {
                    let cur = self.items.items@;
                    assert forall|i: int, j: int|
                        0 <= i < entry.len() && 0 <= j < cells(#[trigger] entry[i]).len() implies ((
                    #[trigger] cells(entry[i])[j]) matches ItemRef::Unresolved(p) ==> lookup_from(
                        entry,
                        spec_owner(entry, i),
                        path_view(p),
                        cell_kinds(entry[i])[j],
                    ) is Some) by {
                        if cells(entry[i])[j] is Unresolved {
                            assert(cells(cur[i])[j] == resolved_cell(
                                entry,
                                spec_owner(entry, i),
                                cells(entry[i])[j],
                                cell_kinds(entry[i])[j],
                            ));
                            assert(cells(cur[i])[j] is Resolved);
                        }
                    }
                }
                return Ok(());
            }
            if !progress {
                proof {
                    let cur = self.items.items@;
                    assert(pass_err_reported(cur, errs@[0]));
                    let i = choose|i: int|
                        0 <= i < cur.len() && #[trigger] err_reported(cur, i, errs@[0]);
                    let x = choose|x: int|
                        0 <= x < cells(cur[i]).len() && (#[trigger] cell_fails(cur, i, x))
                            && err_for(cur, errs@[0], i, x);
                    assert(cells(cur[i])[x] == resolved_cell(
                        entry,
                        spec_owner(entry, i),
                        cells(entry[i])[x],
                        cell_kinds(entry[i])[x],
                    ));
                    assert(cells(entry[i])[x] is Unresolved);
                    assert(cells(entry[i])[x] == cells(cur[i])[x]);
                    let p = cells(entry[i])[x]->Unresolved_0;
                    lemma_same_skeleton_basics(entry[i], cur[i]);
                    lemma_lookup_from_frame(
                        entry,
                        cur,
                        spec_owner(entry, i),
                        path_view(p),
                        cell_kinds(entry[i])[x],
                    );
                    assert(lookup_from(
                        entry,
                        spec_owner(entry, i),
                        path_view(p),
                        cell_kinds(entry[i])[x],
                    ) is None);
                    assert(!all_lookups_succeed(entry));
                }
                return Err(errs);
            }
            let ghost mid = self.items.items@;
            let r2 = self.resolve_pass();
            progress = r2.0;
            errs = r2.1;
            proof {
                assert forall|x: int|
                    0 <= x < entry.len() implies same_skeleton(
                    entry[x],
                    #[trigger] self.items.items@[x],
                ) by {
                    assert(same_skeleton(entry[x], mid[x]));
                    assert(same_skeleton(mid[x], self.items.items@[x]));
                    lemma_same_skeleton_basics(entry[x], mid[x]);
                    lemma_same_skeleton_basics(mid[x], self.items.items@[x]);
                }
                lemma_outcome_trans(entry, mid, self.items.items@);
            }
        }
    }
}

} // verus!
