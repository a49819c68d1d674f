//! Facts about the checker and the evaluator, proved from their definitions.
use vstd::prelude::*;

use crate::eval::{
    cell, eval_expr, locate, owned_by, place_of, release, release_all, set_value,
    EvalState, SpecCell, SpecStore, SpecValue,
};
use crate::types::{
    borrowed, check_expr, check_stmt, check_stmts, compatible, drop, holds_ref, insert, is_copy, lookup, moove, moved,
    replace_at, resolve, set_at, type_lval, walk, assign, CheckState, SpecEnv, SpecError, SpecPlace, SpecSlot, SpecType,
};
use crate::utils::{
    index_of, is_first, lemma_index_of, lemma_index_of_found, lemma_index_of_same_keys, Lifetime,
    unique_keys, SpecExpr, SpecLval, SpecStmt,
};

verus! {

/// A variable just bound resolves, with no dereference, to exactly the type and lifetime it
/// was bound with.
pub proof fn lemma_insert_then_resolve(env: SpecEnv, x: Seq<char>, t: SpecType, l: Lifetime)
    ensures
        type_lval(insert(env, x, SpecSlot { tipe: t, lifetime: l }), SpecLval { ident: x, derefs: 0 })
            == Ok::<SpecSlot, SpecError>(SpecSlot { tipe: t, lifetime: l }),
{
    let slot = SpecSlot { tipe: t, lifetime: l };
    let env2 = insert(env, x, slot);
    let i = index_of(env, x);
    if i >= 0 {
        assert(is_first(env2, x, i));
        lemma_index_of(env2, x, i);
    } else {
        assert forall|j: int| 0 <= j < env.len() implies env[j].0 != x by {
            if env[j].0 == x {
                lemma_index_of_found(env, x, j);
            }
        }
        assert(is_first(env2, x, env.len() as int));
        lemma_index_of(env2, x, env.len() as int);
    }
}

/// Clearing the value at `loc` leaves every path either unchanged or broken.
proof fn lemma_locate_after_clear(store: SpecStore, loc: Seq<char>, id: Seq<char>, k: nat)
    requires
        cell(store, loc) is Some,
    ensures
        ({
            let cleared = set_value(store, loc, None);
            locate(cleared, id, k) is None || locate(cleared, id, k) == locate(store, id, k)
        }),
    decreases k,
{
    let cleared = set_value(store, loc, None);
    let i = index_of(store, loc);
    assert forall|j: int| 0 <= j < store.len() implies store[j].0 == cleared[j].0 by {}
    if k > 0 {
        lemma_locate_after_clear(store, loc, id, (k - 1) as nat);
        if let Some(m) = locate(cleared, id, (k - 1) as nat) {
            lemma_index_of_same_keys(store, cleared, m);
            let jm = index_of(store, m);
            if m != loc && jm >= 0 {
                assert(jm != i);
                assert(cleared[jm] == store[jm]);
            }
        }
    }
}

/// A value moved out by a read cannot be read again: the second read faults.
pub proof fn lemma_read_after_move_faults(
    st: EvalState,
    lv: SpecLval,
    copyable: bool,
    l1: Lifetime,
    l2: Lifetime,
)
    requires
        eval_expr(st, SpecExpr::Lval(lv, false), l1) is Some,
    ensures
        eval_expr(eval_expr(st, SpecExpr::Lval(lv, false), l1)->Some_0.0, SpecExpr::Lval(lv, copyable), l2)
            is None,
{
    let loc = place_of(st.store, lv)->Some_0;
    let cleared = set_value(st.store, loc, None);
    let st1 = eval_expr(st, SpecExpr::Lval(lv, false), l1)->Some_0.0;
    assert(st1.store == cleared);
    lemma_locate_after_clear(st.store, loc, lv.ident, lv.derefs);
    assert forall|j: int| 0 <= j < st.store.len() implies st.store[j].0 == cleared[j].0 by {}
    lemma_index_of_same_keys(st.store, cleared, loc);
}

/// What sits `n` boxes deep in `t`.
pub open spec fn sub_at(t: SpecType, n: nat) -> SpecType
    decreases n,
{
    if n == 0 {
        t
    } else {
        match t {
            SpecType::Box(inner) => sub_at(*inner, (n - 1) as nat),
            _ => t,
        }
    }
}

/// A walk over boxes whose innermost value was moved out stops with `MovedOut`.
proof fn lemma_walk_moved_fails(env: SpecEnv, p: SpecPlace, t: SpecType, lv: SpecLval, n: nat, fuel: nat)
    requires
        n >= 1,
        moved(t, n, lv) is Ok,
        p.slot.tipe == moved(t, n, lv)->Ok_0,
        p.boxes + n <= usize::MAX,
    ensures
        walk(env, p, lv, n, fuel, false) == Err::<SpecPlace, SpecError>(SpecError::MovedOut(lv)),
    decreases n,
{
    let inner = *t->Box_0;
    if n > 1 {
        let next = SpecPlace {
            ident: p.ident,
            boxes: p.boxes + 1,
            slot: SpecSlot { tipe: moved(inner, (n - 1) as nat, lv)->Ok_0, lifetime: p.slot.lifetime },
            mutable: p.mutable,
        };
        lemma_walk_moved_fails(env, next, inner, lv, (n - 1) as nat, fuel);
    }
}

/// Once an lvalue has been moved out of, reading it again reports `MovedOut`.
pub proof fn lemma_read_after_move_is_moved_out(st: CheckState, lv: SpecLval, c1: bool, c2: bool)
    requires
        lv.derefs <= usize::MAX,
        check_expr(st, SpecExpr::Lval(lv, c1)).2 matches Ok(t) && !is_copy(t),
    ensures
        check_expr(check_expr(st, SpecExpr::Lval(lv, c1)).0, SpecExpr::Lval(lv, c2)).2
            == Err::<SpecType, SpecError>(SpecError::MovedOut(lv)),
{
    let env = st.env;
    let env1 = moove(env, lv)->Ok_0;
    let i = index_of(env, lv.ident);
    let t1 = moved(env[i].1.tipe, lv.derefs, lv)->Ok_0;
    assert(check_expr(st, SpecExpr::Lval(lv, c1)).0.env == env1);
    assert forall|j: int| 0 <= j < env.len() implies env[j].0 == env1[j].0 by {}
    lemma_index_of_same_keys(env, env1, lv.ident);
    let p0 = SpecPlace {
        ident: lv.ident,
        boxes: 0,
        slot: SpecSlot { tipe: t1, lifetime: env[i].1.lifetime },
        mutable: true,
    };
    assert(lookup(env1, lv.ident) == Some(p0.slot));
    if lv.derefs >= 1 {
        lemma_walk_moved_fails(env1, p0, env[i].1.tipe, lv, lv.derefs, env1.len());
    }
}

/// `compatible` ignores a mark of a move on its right.
proof fn lemma_compatible_undefined_right(x: SpecType, y: SpecType)
    ensures
        compatible(x, SpecType::Undefined(Box::new(y))) == compatible(x, y),
    decreases x,
{
    if let SpecType::Undefined(a) = x {
        lemma_compatible_undefined_right(*a, y);
    }
}

/// Every type is compatible with itself.
pub proof fn lemma_compatible_reflexive(t: SpecType)
    ensures
        compatible(t, t),
    decreases t,
{
    match t {
        SpecType::Box(a) => lemma_compatible_reflexive(*a),
        SpecType::Undefined(a) => {
            lemma_compatible_reflexive(*a);
            lemma_compatible_undefined_right(*a, *a);
        },
        _ => {},
    }
}

/// Reading through the boxes of a movable path finds what sits there.
proof fn lemma_walk_boxes(env: SpecEnv, p: SpecPlace, t: SpecType, lv: SpecLval, n: nat, fuel: nat)
    requires
        moved(t, n, lv) is Ok,
        walk(env, p, lv, n, fuel, false) is Ok,
        p.slot.tipe == t,
        p.boxes + n <= usize::MAX,
    ensures
        walk(env, p, lv, n, fuel, false) == Ok::<SpecPlace, SpecError>(SpecPlace {
            ident: p.ident,
            boxes: p.boxes + n,
            slot: SpecSlot { tipe: sub_at(t, n), lifetime: p.slot.lifetime },
            mutable: p.mutable,
        }),
    decreases n,
{
    if n > 0 {
        let inner = *t->Box_0;
        let next = SpecPlace {
            ident: p.ident,
            boxes: p.boxes + 1,
            slot: SpecSlot { tipe: inner, lifetime: p.slot.lifetime },
            mutable: p.mutable,
        };
        lemma_walk_boxes(env, next, inner, lv, (n - 1) as nat, fuel);
    }
}

/// Looking for a place to write along a path that was moved out of finds the marked value.
proof fn lemma_walk_moved_dest(env: SpecEnv, p: SpecPlace, t: SpecType, lv: SpecLval, n: nat, fuel: nat)
    requires
        moved(t, n, lv) is Ok,
        p.slot.tipe == moved(t, n, lv)->Ok_0,
        p.boxes + n <= usize::MAX,
    ensures
        walk(env, p, lv, n, fuel, true) == Ok::<SpecPlace, SpecError>(SpecPlace {
            ident: p.ident,
            boxes: p.boxes + n,
            slot: SpecSlot {
                tipe: SpecType::Undefined(Box::new(sub_at(t, n))),
                lifetime: p.slot.lifetime,
            },
            mutable: p.mutable,
        }),
    decreases n,
{
    if n > 0 {
        let inner = *t->Box_0;
        let next = SpecPlace {
            ident: p.ident,
            boxes: p.boxes + 1,
            slot: SpecSlot { tipe: moved(inner, (n - 1) as nat, lv)->Ok_0, lifetime: p.slot.lifetime },
            mutable: p.mutable,
        };
        lemma_walk_moved_dest(env, next, inner, lv, (n - 1) as nat, fuel);
    }
}

/// Putting back what was moved out restores the type.
proof fn lemma_replace_moved(t: SpecType, n: nat, lv: SpecLval)
    requires
        moved(t, n, lv) is Ok,
    ensures
        replace_at(moved(t, n, lv)->Ok_0, n, sub_at(t, n)) == t,
    decreases n,
{
    if n > 0 {
        lemma_replace_moved(*t->Box_0, (n - 1) as nat, lv);
    }
}

/// Marking a move creates no reference.
proof fn lemma_moved_holds_no_new_ref(t: SpecType, n: nat, lv: SpecLval, id: Seq<char>, m: bool)
    requires
        moved(t, n, lv) is Ok,
        holds_ref(moved(t, n, lv)->Ok_0, id, m),
    ensures
        holds_ref(t, id, m),
    decreases n,
{
    if n > 0 {
        lemma_moved_holds_no_new_ref(*t->Box_0, (n - 1) as nat, lv, id, m);
    }
}

/// Moving a defined value out of an lvalue that nothing borrows and then assigning back what
/// was there restores the environment: the outer boxes were kept, and the write fills the hole.
pub proof fn lemma_move_then_write_back(env: SpecEnv, lv: SpecLval)
    requires
        lv.derefs <= usize::MAX,
        type_lval(env, lv) is Ok,
        moove(env, lv) is Ok,
        !borrowed(env, lv.ident, true),
        !borrowed(env, lv.ident, false),
    ensures
        assign(moove(env, lv)->Ok_0, lv, type_lval(env, lv)->Ok_0.tipe) == Ok::<SpecEnv, SpecError>(env),
{
    let i = index_of(env, lv.ident);
    let t = env[i].1.tipe;
    let n = lv.derefs;
    let t1 = moved(t, n, lv)->Ok_0;
    let env1 = moove(env, lv)->Ok_0;
    assert forall|j: int| 0 <= j < env.len() implies env[j].0 == env1[j].0 by {}
    lemma_index_of_same_keys(env, env1, lv.ident);
    let p0 = SpecPlace {
        ident: lv.ident,
        boxes: 0,
        slot: SpecSlot { tipe: t, lifetime: env[i].1.lifetime },
        mutable: true,
    };
    lemma_walk_boxes(env, p0, t, lv, n, env.len());
    let sub = sub_at(t, n);
    assert(type_lval(env, lv) == Ok::<SpecSlot, SpecError>(SpecSlot { tipe: sub, lifetime: env[i].1.lifetime }));
    let q0 = SpecPlace { slot: SpecSlot { tipe: t1, lifetime: env[i].1.lifetime }, ..p0 };
    lemma_walk_moved_dest(env1, q0, t, lv, n, env1.len());
    assert forall|m: bool, j: int| 0 <= j < env1.len() && #[trigger] holds_ref(env1[j].1.tipe, lv.ident, m)
        implies holds_ref(env[j].1.tipe, lv.ident, m) by {
        if j == i {
            lemma_moved_holds_no_new_ref(t, n, lv, lv.ident, m);
        }
    }
    assert(!borrowed(env1, lv.ident, true));
    assert(!borrowed(env1, lv.ident, false));
    lemma_compatible_reflexive(sub);
    lemma_replace_moved(t, n, lv);
    assert(set_at(env1, lv.ident, n, sub) =~= env);
}

/// An assignment to a variable that a live reference targets directly is refused.
pub proof fn lemma_assign_refused_while_borrowed(env: SpecEnv, lv: SpecLval, t: SpecType, m: bool)
    requires
        borrowed(env, lv.ident, m),
    ensures
        assign(env, lv, t) == Err::<SpecEnv, SpecError>(SpecError::AssignAfterBorrow(lv)),
{
}

/// An assignment to a variable that no reference targets directly goes through wherever the
/// path reaches through mutable references only, does not land on an immutable reference,
/// and the types agree; aliasing that reaches
/// the target through another variable does not stop it.
pub proof fn lemma_assign_through_mutable_path(env: SpecEnv, lv: SpecLval, t: SpecType)
    requires
        !borrowed(env, lv.ident, true),
        !borrowed(env, lv.ident, false),
        resolve(env, lv, env.len(), true) is Ok,
        resolve(env, lv, env.len(), true)->Ok_0.mutable,
        compatible(resolve(env, lv, env.len(), true)->Ok_0.slot.tipe, t),
        !(resolve(env, lv, env.len(), true)->Ok_0.slot.tipe matches SpecType::Ref(_, false)),
    ensures
        ({
            let p = resolve(env, lv, env.len(), true)->Ok_0;
            assign(env, lv, t) == Ok::<SpecEnv, SpecError>(set_at(env, p.ident, p.boxes, t))
        }),
{
}

/// Closing a scope removes exactly the variables of its lifetime: what stays keeps its
/// order, and every variable of another lifetime stays.
pub proof fn lemma_drop_env(env: SpecEnv, l: Lifetime)
    ensures
        forall|i: int| 0 <= i < drop(env, l).len() ==> (#[trigger] drop(env, l)[i]).1.lifetime != l,
        forall|i: int| 0 <= i < env.len() && (#[trigger] env[i]).1.lifetime != l ==> drop(env, l).contains(env[i]),
{
    let keep = |e: (Seq<char>, SpecSlot)| e.1.lifetime != l;
    assert forall|i: int| 0 <= i < drop(env, l).len() implies (#[trigger] drop(env, l)[i]).1.lifetime != l by {
        env.lemma_filter_pred(keep, i);
    }
    assert forall|i: int| 0 <= i < env.len() && (#[trigger] env[i]).1.lifetime != l implies drop(env, l).contains(env[i]) by {
        env.lemma_filter_contains(keep, i);
    }
}

/// Every entry of `r` is an entry of `s`.
pub open spec fn within(r: SpecStore, s: SpecStore) -> bool {
    forall|i: int| 0 <= i < r.len() ==> s.contains(#[trigger] r[i])
}

/// No entry of `s` is at location `k`.
pub open spec fn absent(s: SpecStore, k: Seq<char>) -> bool {
    forall|i: int| 0 <= i < s.len() ==> (#[trigger] s[i]).0 != k
}

proof fn lemma_release(s: SpecStore, k: Seq<char>)
    requires
        unique_keys(s),
    ensures
        unique_keys(release(s, k)),
        within(release(s, k), s),
        absent(release(s, k), k),
    decreases s.len(),
{
    let i = index_of(s, k);
    if i < 0 {
        assert forall|j: int| 0 <= j < s.len() implies (#[trigger] s[j]).0 != k by {
            if s[j].0 == k {
                lemma_index_of_found(s, k, j);
            }
        }
        assert forall|j: int| 0 <= j < s.len() implies s.contains(#[trigger] s[j]) by {
            assert(s[j] == s[j]);
        }
    } else {
        assert(is_first(s, k, i)) by {
            assert(exists|m: int| is_first(s, k, m));
        }
        let rest = s.remove(i);
        assert forall|j: int| 0 <= j < rest.len() implies s.contains(#[trigger] rest[j]) by {
            if j < i {
                assert(rest[j] == s[j]);
            } else {
                assert(rest[j] == s[j + 1]);
            }
        }
        assert forall|a: int, b: int| 0 <= a < b < rest.len() implies rest[a].0 != rest[b].0 by {
            let a2 = if a < i { a } else { a + 1 };
            let b2 = if b < i { b } else { b + 1 };
            assert(rest[a] == s[a2]);
            assert(rest[b] == s[b2]);
        }
        assert forall|j: int| 0 <= j < rest.len() implies (#[trigger] rest[j]).0 != k by {
            let j2 = if j < i { j } else { j + 1 };
            assert(rest[j] == s[j2]);
            assert(j2 != i);
        }
        match s[i].1.value {
            Some(SpecValue::Ref(child, true)) => {
                lemma_release(rest, child);
                let r = release(rest, child);
                assert forall|j: int| 0 <= j < r.len() implies s.contains(#[trigger] r[j]) by {
                    assert(rest.contains(r[j]));
                    let m = choose|m: int| 0 <= m < rest.len() && rest[m] == r[j];
                    assert(s.contains(rest[m]));
                }
                assert forall|j: int| 0 <= j < r.len() implies (#[trigger] r[j]).0 != k by {
                    assert(rest.contains(r[j]));
                    let m = choose|m: int| 0 <= m < rest.len() && rest[m] == r[j];
                    assert(rest[m].0 != k);
                }
            },
            _ => {},
        }
    }
}

proof fn lemma_release_all(s: SpecStore, values: Seq<Option<SpecValue>>, n: nat)
    requires
        unique_keys(s),
        n <= values.len(),
    ensures
        unique_keys(release_all(s, values, n)),
        within(release_all(s, values, n), s),
        forall|j: int|
            0 <= j < n && (#[trigger] values[j] matches Some(SpecValue::Ref(k, true)))
                ==> absent(release_all(s, values, n), values[j]->Some_0->Ref_0),
    decreases n,
{
    if n > 0 {
        lemma_release_all(s, values, (n - 1) as nat);
        let prev = release_all(s, values, (n - 1) as nat);
        let r = release_all(s, values, n);
        if let Some(SpecValue::Ref(k, true)) = values[n - 1] {
            lemma_release(prev, k);
            assert forall|j: int| 0 <= j < r.len() implies s.contains(#[trigger] r[j]) by {
                assert(prev.contains(r[j]));
                let m = choose|m: int| 0 <= m < prev.len() && prev[m] == r[j];
                assert(s.contains(prev[m]));
            }
            assert forall|j: int|
                0 <= j < n && (#[trigger] values[j] matches Some(SpecValue::Ref(k, true)))
                    implies absent(r, values[j]->Some_0->Ref_0) by {
                if j < n - 1 {
                    assert forall|a: int| 0 <= a < r.len() implies (#[trigger] r[a]).0 != values[j]->Some_0->Ref_0 by {
                        assert(prev.contains(r[a]));
                        let m = choose|m: int| 0 <= m < prev.len() && prev[m] == r[a];
                        assert(prev[m].0 != values[j]->Some_0->Ref_0);
                    }
                }
            }
        } else {
            assert(r == prev);
        }
    }
}

/// Some slot of `s` holds an owning reference to the location `k`.
pub open spec fn owned_target(s: SpecStore, k: Seq<char>) -> bool {
    exists|j: int| 0 <= j < s.len() && s[j].1.value == Some(SpecValue::Ref(k, true))
}

proof fn lemma_release_keeps(s: SpecStore, k: Seq<char>, e: (Seq<char>, SpecCell))
    requires
        s.contains(e),
        e.0 != k,
        !owned_target(s, e.0),
    ensures
        release(s, k).contains(e),
    decreases s.len(),
{
    let i = index_of(s, k);
    if i >= 0 {
        assert(is_first(s, k, i)) by {
            assert(exists|m: int| is_first(s, k, m));
        }
        let rest = s.remove(i);
        let j = choose|j: int| 0 <= j < s.len() && s[j] == e;
        assert(j != i);
        if j < i {
            assert(rest[j] == e);
        } else {
            assert(rest[j - 1] == e);
        }
        if let Some(SpecValue::Ref(child, true)) = s[i].1.value {
            assert(child != e.0);
            assert forall|m: int| 0 <= m < rest.len() implies rest[m].1.value != Some(
                SpecValue::Ref(e.0, true),
            ) by {
                if m < i {
                    assert(rest[m] == s[m]);
                } else {
                    assert(rest[m] == s[m + 1]);
                }
            }
            lemma_release_keeps(rest, child, e);
        }
    }
}

proof fn lemma_release_all_keeps(
    s: SpecStore,
    values: Seq<Option<SpecValue>>,
    n: nat,
    e: (Seq<char>, SpecCell),
)
    requires
        unique_keys(s),
        n <= values.len(),
        s.contains(e),
        !owned_target(s, e.0),
        forall|j: int|
            0 <= j < n && (#[trigger] values[j] matches Some(SpecValue::Ref(k, true)))
                ==> values[j]->Some_0->Ref_0 != e.0,
    ensures
        release_all(s, values, n).contains(e),
    decreases n,
{
    if n > 0 {
        lemma_release_all_keeps(s, values, (n - 1) as nat, e);
        lemma_release_all(s, values, (n - 1) as nat);
        let prev = release_all(s, values, (n - 1) as nat);
        if let Some(SpecValue::Ref(k, true)) = values[n - 1] {
            assert forall|m: int| 0 <= m < prev.len() implies prev[m].1.value != Some(
                SpecValue::Ref(e.0, true),
            ) by {
                assert(s.contains(prev[m]));
            }
            lemma_release_keeps(prev, k, e);
        }
    }
}

/// Closing a scope at run time leaves no location of its lifetime, and adds nothing: every
/// slot that stays was in the store before. A slot of another lifetime stays unless an
/// owning reference targets it (it then goes only with its owner).
pub proof fn lemma_close_scope_store(store: SpecStore, l: Lifetime)
    requires
        unique_keys(store),
    ensures
        ({
            let owned = owned_by(store, l);
            let after = release_all(store, owned, owned.len());
            &&& forall|i: int| 0 <= i < after.len() ==> (#[trigger] after[i]).1.lifetime != l
            &&& within(after, store)
            &&& forall|i: int|
                0 <= i < store.len() && (#[trigger] store[i]).1.lifetime != l && !owned_target(
                    store,
                    store[i].0,
                ) ==> after.contains(store[i])
        }),
{
    let tagged = |e: (Seq<char>, SpecCell)| e.1.lifetime == l;
    let filtered = store.filter(tagged);
    let owned = owned_by(store, l);
    let after = release_all(store, owned, owned.len());
    lemma_release_all(store, owned, owned.len());
    assert forall|i: int| 0 <= i < after.len() implies (#[trigger] after[i]).1.lifetime != l by {
        if after[i].1.lifetime == l {
            assert(store.contains(after[i]));
            let m = choose|m: int| 0 <= m < store.len() && store[m] == after[i];
            store.lemma_filter_contains(tagged, m);
            let j = choose|j: int| 0 <= j < filtered.len() && filtered[j] == store[m];
            assert(owned[j] == Some(SpecValue::Ref(store[m].0, true)));
            assert(absent(after, owned[j]->Some_0->Ref_0));
        }
    }
    assert forall|i: int|
        0 <= i < store.len() && (#[trigger] store[i]).1.lifetime != l && !owned_target(
            store,
            store[i].0,
        ) implies after.contains(store[i]) by {
        assert(store.contains(store[i]));
        assert forall|j: int|
            0 <= j < owned.len() && (#[trigger] owned[j] matches Some(SpecValue::Ref(k, true)))
                implies owned[j]->Some_0->Ref_0 != store[i].0 by {
            assert(filtered.contains(filtered[j]));
            store.lemma_filter_contains_rev(tagged, filtered[j]);
            store.lemma_filter_pred(tagged, j);
            let m = choose|m: int| 0 <= m < store.len() && store[m] == filtered[j];
            if m != i {
                if m < i {
                    assert(store[m].0 != store[i].0);
                } else {
                    assert(store[i].0 != store[m].0);
                }
            }
        }
        lemma_release_all_keeps(store, owned, owned.len(), store[i]);
    }
}

/// Every reference in `t` targets a variable bound at an index below `k`.
pub open spec fn refs_below(env: SpecEnv, t: SpecType, k: int) -> bool
    decreases t,
{
    match t {
        SpecType::Box(inner) => refs_below(env, *inner, k),
        SpecType::Undefined(inner) => refs_below(env, *inner, k),
        SpecType::Ref(target, _) => 0 <= index_of(env, target.ident) < k,
        _ => true,
    }
}

/// Every reference targets a variable declared before the one that holds it.
pub open spec fn declared_before(env: SpecEnv) -> bool {
    forall|i: int| 0 <= i < env.len() ==> refs_below(env, #[trigger] env[i].1.tipe, i)
}

/// The failures that resolution itself reports.
pub open spec fn resolution_error(e: SpecError) -> bool {
    e is UnknownVar || e is MovedOut || e is CannotDeref
}

proof fn lemma_refs_below_mono(env: SpecEnv, t: SpecType, j: int, k: int)
    requires
        refs_below(env, t, j),
        j <= k,
    ensures
        refs_below(env, t, k),
    decreases t,
{
    match t {
        SpecType::Box(inner) => lemma_refs_below_mono(env, *inner, j, k),
        SpecType::Undefined(inner) => lemma_refs_below_mono(env, *inner, j, k),
        _ => {},
    }
}

proof fn lemma_resolve_fuel(env: SpecEnv, lv: SpecLval, f1: nat, f2: nat, dest: bool)
    requires
        declared_before(env),
        f1 > index_of(env, lv.ident),
        f2 > index_of(env, lv.ident),
    ensures
        resolve(env, lv, f1, dest) == resolve(env, lv, f2, dest),
        resolve(env, lv, f1, dest) matches Ok(q) ==> refs_below(env, q.slot.tipe, index_of(env, lv.ident)),
    decreases index_of(env, lv.ident) + 1, 1nat, 0nat,
{
    let k = index_of(env, lv.ident);
    if k >= 0 {
        assert(is_first(env, lv.ident, k)) by {
            assert(exists|m: int| is_first(env, lv.ident, m));
        }
        let p = SpecPlace { ident: lv.ident, boxes: 0, slot: env[k].1, mutable: true };
        lemma_walk_fuel(env, p, lv, lv.derefs, f1, f2, dest, k);
    }
}

proof fn lemma_walk_fuel(
    env: SpecEnv,
    p: SpecPlace,
    lv: SpecLval,
    n: nat,
    f1: nat,
    f2: nat,
    dest: bool,
    k: int,
)
    requires
        declared_before(env),
        0 <= k,
        f1 > k,
        f2 > k,
        refs_below(env, p.slot.tipe, k),
    ensures
        walk(env, p, lv, n, f1, dest) == walk(env, p, lv, n, f2, dest),
        walk(env, p, lv, n, f1, dest) matches Ok(q) ==> refs_below(env, q.slot.tipe, k),
    decreases k + 1, 0nat, n,
{
    if n > 0 {
        match p.slot.tipe {
            SpecType::Box(inner) => {
                let next = SpecPlace {
                    ident: p.ident,
                    boxes: p.boxes + 1,
                    slot: SpecSlot { tipe: *inner, lifetime: p.slot.lifetime },
                    mutable: p.mutable,
                };
                lemma_walk_fuel(env, next, lv, (n - 1) as nat, f1, f2, dest, k);
            },
            SpecType::Ref(target, m) => {
                let j = index_of(env, target.ident);
                lemma_resolve_fuel(env, target, (f1 - 1) as nat, (f2 - 1) as nat, false);
                if let Ok(q) = resolve(env, target, (f1 - 1) as nat, false) {
                    lemma_refs_below_mono(env, q.slot.tipe, j, k);
                    let next = SpecPlace {
                        ident: q.ident,
                        boxes: q.boxes,
                        slot: q.slot,
                        mutable: p.mutable && m && q.mutable,
                    };
                    lemma_walk_fuel(env, next, lv, (n - 1) as nat, f1, f2, dest, k);
                }
            },
            _ => {},
        }
    }
}

proof fn lemma_resolve_errors(env: SpecEnv, lv: SpecLval, fuel: nat, dest: bool)
    ensures
        resolve(env, lv, fuel, dest) matches Err(e) ==> resolution_error(e),
    decreases fuel, 1nat, 0nat,
{
    if let Some(slot) = lookup(env, lv.ident) {
        let p = SpecPlace { ident: lv.ident, boxes: 0, slot, mutable: true };
        lemma_walk_errors(env, p, lv, lv.derefs, fuel, dest);
    }
}

proof fn lemma_walk_errors(env: SpecEnv, p: SpecPlace, lv: SpecLval, n: nat, fuel: nat, dest: bool)
    ensures
        walk(env, p, lv, n, fuel, dest) matches Err(e) ==> resolution_error(e),
    decreases fuel, 0nat, n,
{
    if n > 0 {
        match p.slot.tipe {
            SpecType::Box(inner) => {
                let next = SpecPlace {
                    ident: p.ident,
                    boxes: p.boxes + 1,
                    slot: SpecSlot { tipe: *inner, lifetime: p.slot.lifetime },
                    mutable: p.mutable,
                };
                lemma_walk_errors(env, next, lv, (n - 1) as nat, fuel, dest);
            },
            SpecType::Ref(target, m) => {
                if fuel > 0 {
                    lemma_resolve_errors(env, target, (fuel - 1) as nat, false);
                    if let Ok(q) = resolve(env, target, (fuel - 1) as nat, false) {
                        let next = SpecPlace {
                            ident: q.ident,
                            boxes: q.boxes,
                            slot: q.slot,
                            mutable: p.mutable && m && q.mutable,
                        };
                        lemma_walk_errors(env, next, lv, (n - 1) as nat, fuel, dest);
                    }
                }
            },
            _ => {},
        }
    }
}

/// Resolution ends, and reports only an unknown variable, a moved-out value or a type that
/// cannot be dereferenced. When every reference targets a variable declared before the one
/// that holds it, it never runs out of fuel: fuel beyond the number of variables changes
/// nothing.
pub proof fn lemma_resolution_ends(env: SpecEnv, lv: SpecLval, fuel: nat, dest: bool)
    ensures
        resolve(env, lv, fuel, dest) matches Err(e) ==> resolution_error(e),
        declared_before(env) && fuel >= env.len() ==> resolve(env, lv, fuel, dest) == resolve(
            env,
            lv,
            env.len(),
            dest,
        ),
{
    lemma_resolve_errors(env, lv, fuel, dest);
    if declared_before(env) && fuel >= env.len() {
        let k = index_of(env, lv.ident);
        if k >= 0 {
            assert(is_first(env, lv.ident, k)) by {
                assert(exists|m: int| is_first(env, lv.ident, m));
            }
        }
        lemma_resolve_fuel(env, lv, fuel, env.len(), dest);
    }
}

/// A successful check leaves the stack of scopes as it found it: each block pops exactly the
/// lifetime it pushed.
pub proof fn lemma_check_expr_keeps_stack(st: CheckState, e: SpecExpr)
    ensures
        check_expr(st, e).2 is Ok ==> check_expr(st, e).0.stack == st.stack,
    decreases e, 0nat,
{
    match e {
        SpecExpr::Box(inner) => lemma_check_expr_keeps_stack(st, *inner),
        SpecExpr::Block(stmts, tail, lt) => {
            let st1 = CheckState { env: st.env, stack: st.stack.push(lt) };
            lemma_check_stmts_keeps_stack(st1, stmts, stmts.len());
            let st2 = check_stmts(st1, stmts, stmts.len()).0;
            lemma_check_expr_keeps_stack(st2, *tail);
            assert(st.stack.push(lt).drop_last() =~= st.stack);
        },
        _ => {},
    }
}

/// Statements that check without an error leave the stack of scopes as they found it.
pub proof fn lemma_check_stmts_keeps_stack(st: CheckState, stmts: Seq<SpecStmt>, n: nat)
    ensures
        check_stmts(st, stmts, n).2 is Ok ==> check_stmts(st, stmts, n).0.stack == st.stack,
    decreases stmts, n,
{
    if n > 0 && n <= stmts.len() {
        lemma_check_stmts_keeps_stack(st, stmts, (n - 1) as nat);
        let st1 = check_stmts(st, stmts, (n - 1) as nat).0;
        lemma_check_stmt_keeps_stack(st1, stmts[n - 1]);
    }
}

/// A statement that checks without an error leaves the stack of scopes as it found it.
pub proof fn lemma_check_stmt_keeps_stack(st: CheckState, s: SpecStmt)
    ensures
        check_stmt(st, s).2 is Ok ==> check_stmt(st, s).0.stack == st.stack,
    decreases s, 0nat,
{
    match s {
        SpecStmt::LetMut(_, rhs) => lemma_check_expr_keeps_stack(st, rhs),
        SpecStmt::Assign(_, rhs) => lemma_check_expr_keeps_stack(st, rhs),
        SpecStmt::Expr(e) => lemma_check_expr_keeps_stack(st, e),
    }
}

} // verus!
