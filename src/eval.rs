//! The evaluator: runs a program against a store of locations.
use vstd::prelude::*;
use vstd::string::StringExecFns;

use crate::utils::{
    index_of, lemma_index_of, lemma_index_of_none, lemma_unique_remove, lemma_view_stmts,
    unique_keys, view_stmts, Expr, Ident, Lifetime, Lval,
    SpecExpr, SpecLval, SpecStmt, Stmt,
};

verus! {

/// Variables are locations too; heap cells get synthetic names.
pub type Location = Ident;

/// Whether a reference owns (and must release) its target.
pub type Owned = bool;

/// Runtime values.
#[derive(Debug, PartialEq)]
pub enum Value {
    Unit,
    Int(i32),
    Ref(Location, Owned),
}

/// The mathematical content of a [`Value`].
pub enum SpecValue {
    Unit,
    Int(i32),
    Ref(Seq<char>, bool),
}

impl Value {
    pub open spec fn view(&self) -> SpecValue {
        match self {
            Value::Unit => SpecValue::Unit,
            Value::Int(n) => SpecValue::Int(*n),
            Value::Ref(loc, owned) => SpecValue::Ref(loc@, *owned),
        }
    }
}

impl Clone for Value {
    fn clone(&self) -> (r: Self)
        ensures
            r == *self,
    {
        match self {
            Value::Unit => Value::Unit,
            Value::Int(n) => Value::Int(*n),
            Value::Ref(loc, owned) => Value::Ref(loc.clone(), *owned),
        }
    }
}

/// A value that may have been moved out (`None`).
pub type Pvalue = Option<Value>;

/// The view of a possibly moved-out value.
pub open spec fn pvalue_view(v: Pvalue) -> Option<SpecValue> {
    match v {
        Some(v) => Some(v@),
        None => None,
    }
}

/// A location's content and the lifetime that owns it.
#[derive(Debug, PartialEq)]
pub struct Slot {
    pub value: Pvalue,
    pub lifetime: Lifetime,
}

/// The mathematical content of a runtime [`Slot`].
pub struct SpecCell {
    pub value: Option<SpecValue>,
    pub lifetime: Lifetime,
}

impl Slot {
    pub open spec fn view(&self) -> SpecCell {
        SpecCell { value: pvalue_view(self.value), lifetime: self.lifetime }
    }
}

impl Clone for Slot {
    fn clone(&self) -> (r: Self)
        ensures
            r == *self,
    {
        let value = match &self.value {
            Some(v) => Some(v.clone()),
            None => None,
        };
        Slot { value, lifetime: self.lifetime }
    }
}

/// The runtime store: each location with its slot.
#[derive(Clone, Debug, PartialEq, Default)]
pub struct Store(pub Vec<(Location, Slot)>);

/// The mathematical content of a [`Store`].
pub type SpecStore = Seq<(Seq<char>, SpecCell)>;

/// The slot at location `loc`, if any.
pub open spec fn cell(store: SpecStore, loc: Seq<char>) -> Option<SpecCell> {
    let i = index_of(store, loc);
    if i >= 0 {
        Some(store[i].1)
    } else {
        None
    }
}

/// `store` with `loc` holding `c`: the existing entry is replaced in place, or one appended.
pub open spec fn put(store: SpecStore, loc: Seq<char>, c: SpecCell) -> SpecStore {
    let i = index_of(store, loc);
    if i >= 0 {
        store.update(i, (loc, c))
    } else {
        store.push((loc, c))
    }
}

/// `store` with the value at `loc` replaced by `v`; its lifetime stays.
pub open spec fn set_value(store: SpecStore, loc: Seq<char>, v: Option<SpecValue>) -> SpecStore {
    let i = index_of(store, loc);
    if i >= 0 {
        store.update(i, (loc, SpecCell { value: v, lifetime: store[i].1.lifetime }))
    } else {
        store
    }
}

/// The location a reference stored at `loc` points to.
pub open spec fn deref(store: SpecStore, loc: Seq<char>) -> Option<Seq<char>> {
    match cell(store, loc) {
        Some(c) => match c.value {
            Some(SpecValue::Ref(target, _)) => Some(target),
            _ => None,
        },
        None => None,
    }
}

/// The location reached from `id` after `n` dereferences.
pub open spec fn locate(store: SpecStore, id: Seq<char>, n: nat) -> Option<Seq<char>>
    decreases n,
{
    if n == 0 {
        Some(id)
    } else {
        match locate(store, id, (n - 1) as nat) {
            Some(loc) => deref(store, loc),
            None => None,
        }
    }
}

/// Releases `loc`: removes it, then releases what its value owned, and so on down.
pub open spec fn release(store: SpecStore, loc: Seq<char>) -> SpecStore
    decreases store.len(),
{
    let i = index_of(store, loc);
    if i < 0 {
        store
    } else {
        let rest = store.remove(i);
        match store[i].1.value {
            Some(SpecValue::Ref(child, true)) => release(rest, child),
            _ => rest,
        }
    }
}

/// Releases, in order, the targets of the owning references among the first `n` of `values`.
pub open spec fn release_all(store: SpecStore, values: Seq<Option<SpecValue>>, n: nat) -> SpecStore
    decreases n,
{
    if n == 0 || n > values.len() {
        store
    } else {
        let s = release_all(store, values, (n - 1) as nat);
        match values[n - 1] {
            Some(SpecValue::Ref(loc, true)) => release(s, loc),
            _ => s,
        }
    }
}

/// An owning reference to each location of lifetime `l`, in store order.
pub open spec fn owned_by(store: SpecStore, l: Lifetime) -> Seq<Option<SpecValue>> {
    store.filter(|e: (Seq<char>, SpecCell)| e.1.lifetime == l).map_values(
        |e: (Seq<char>, SpecCell)| Some(SpecValue::Ref(e.0, true)),
    )
}


/// The location that `lv` denotes.
pub open spec fn place_of(store: SpecStore, lv: SpecLval) -> Option<Seq<char>> {
    locate(store, lv.ident, lv.derefs)
}

/// The slot that `lv` denotes.
pub open spec fn cell_at(store: SpecStore, lv: SpecLval) -> Option<SpecCell> {
    match place_of(store, lv) {
        Some(loc) => cell(store, loc),
        None => None,
    }
}

/// The view of a list of possibly moved-out values.
pub open spec fn pvalues_view(values: Seq<Pvalue>) -> Seq<Option<SpecValue>> {
    values.map_values(|v: Pvalue| pvalue_view(v))
}

/// A location found after `n` dereferences was found at every step before.
pub proof fn lemma_locate_prefix(store: SpecStore, id: Seq<char>, k: nat, n: nat)
    requires
        k <= n,
        locate(store, id, n) is Some,
    ensures
        locate(store, id, k) is Some,
    decreases n,
{
    if k < n {
        lemma_locate_prefix(store, id, k, (n - 1) as nat);
    }
}


/// The state of the evaluator: the store and the number of heap cells made so far.
pub struct EvalState {
    pub store: SpecStore,
    pub counter: nat,
}

/// The decimal digit `d`.
pub open spec fn digit(d: nat) -> char {
    if d == 0 {
        '0'
    } else if d == 1 {
        '1'
    } else if d == 2 {
        '2'
    } else if d == 3 {
        '3'
    } else if d == 4 {
        '4'
    } else if d == 5 {
        '5'
    } else if d == 6 {
        '6'
    } else if d == 7 {
        '7'
    } else if d == 8 {
        '8'
    } else {
        '9'
    }
}

/// `n` written in decimal.
pub open spec fn decimal(n: nat) -> Seq<char>
    decreases n,
{
    if n < 10 {
        seq![digit(n)]
    } else {
        decimal(n / 10).push(digit(n % 10))
    }
}

/// The name of the `n`-th heap cell.
pub open spec fn box_location(n: nat) -> Seq<char> {
    "__box"@ + decimal(n)
}

/// Evaluates `e` in scope `l`: the state after it and its value, or `None` where evaluation
/// faults (an unknown location, a read of a moved-out value, no names left for heap cells).
///
/// A read that does not copy moves: the slot it read is left empty. A box allocates a fresh
/// heap cell tagged with the scope it is evaluated in and returns an owning reference to it. A
/// borrow is a non-owning reference to the place its lvalue denotes. A block runs its
/// statements and its tail in its own scope, then releases every location of that scope, and
/// with each whatever it owns.
pub open spec fn eval_expr(st: EvalState, e: SpecExpr, l: Lifetime) -> Option<(EvalState, SpecValue)>
    decreases e, 0nat,
{
    match e {
        SpecExpr::Unit => Some((st, SpecValue::Unit)),
        SpecExpr::Int(n) => Some((st, SpecValue::Int(n))),
        SpecExpr::Lval(lv, copyable) => match cell_at(st.store, lv) {
            Some(c) => match c.value {
                Some(v) => if copyable {
                    Some((st, v))
                } else {
                    Some((
                        EvalState {
                            store: set_value(st.store, place_of(st.store, lv)->Some_0, None),
                            counter: st.counter,
                        },
                        v,
                    ))
                },
                None => None,
            },
            None => None,
        },
        SpecExpr::Box(inner) => match eval_expr(st, *inner, l) {
            Some((st1, v)) => if st1.counter >= usize::MAX {
                None
            } else {
                let loc = box_location(st1.counter);
                Some((
                    EvalState {
                        store: put(st1.store, loc, SpecCell { value: Some(v), lifetime: l }),
                        counter: st1.counter + 1,
                    },
                    SpecValue::Ref(loc, true),
                ))
            },
            None => None,
        },
        SpecExpr::Borrow(lv, _) => match place_of(st.store, lv) {
            Some(loc) => Some((st, SpecValue::Ref(loc, false))),
            None => None,
        },
        SpecExpr::Block(stmts, tail, lt) => match eval_stmts(st, stmts, stmts.len(), lt) {
            Some(st1) => match eval_expr(st1, *tail, lt) {
                Some((st2, v)) => {
                    let owned = owned_by(st2.store, lt);
                    Some((
                        EvalState {
                            store: release_all(st2.store, owned, owned.len()),
                            counter: st2.counter,
                        },
                        v,
                    ))
                },
                None => None,
            },
            None => None,
        },
    }
}

/// Evaluates the first `n` statements in order, in scope `l`.
pub open spec fn eval_stmts(st: EvalState, stmts: Seq<SpecStmt>, n: nat, l: Lifetime) -> Option<
    EvalState,
>
    decreases stmts, n,
{
    if n == 0 || n > stmts.len() {
        Some(st)
    } else {
        match eval_stmts(st, stmts, (n - 1) as nat, l) {
            Some(st1) => eval_stmt(st1, stmts[n - 1], l),
            None => None,
        }
    }
}

/// Evaluates a statement in scope `l`.
pub open spec fn eval_stmt(st: EvalState, s: SpecStmt, l: Lifetime) -> Option<EvalState>
    decreases s, 0nat,
{
    match s {
        SpecStmt::LetMut(id, e) => match eval_expr(st, e, l) {
            Some((st1, v)) => Some(
                EvalState {
                    store: put(st1.store, id, SpecCell { value: Some(v), lifetime: l }),
                    counter: st1.counter,
                },
            ),
            None => None,
        },
        SpecStmt::Assign(lv, e) => match eval_expr(st, e, l) {
            Some((st1, v)) => if cell_at(st1.store, lv) is Some {
                Some(
                    EvalState {
                        store: set_value(st1.store, place_of(st1.store, lv)->Some_0, Some(v)),
                        counter: st1.counter,
                    },
                )
            } else {
                None
            },
            None => None,
        },
        SpecStmt::Expr(e) => match eval_expr(st, e, l) {
            Some((st1, _)) => Some(st1),
            None => None,
        },
    }
}

/// Statements that evaluate without a fault have a prefix that does too.
pub proof fn lemma_eval_stmts_prefix(st: EvalState, stmts: Seq<SpecStmt>, k: nat, n: nat, l: Lifetime)
    requires
        k < n <= stmts.len(),
        eval_stmts(st, stmts, n, l) is Some,
    ensures
        eval_stmts(st, stmts, k, l) is Some,
        eval_stmt(eval_stmts(st, stmts, k, l)->Some_0, stmts[k as int], l) is Some,
    decreases n,
{
    if k + 1 < n {
        lemma_eval_stmts_prefix(st, stmts, k, (n - 1) as nat, l);
    }
}

/// The decimal digit `d` as text.
fn digit_str(d: usize) -> (r: &'static str)
    requires
        d < 10,
    ensures
        r@ == seq![digit(d as nat)],
{
    proof {
        reveal_strlit("0");
        reveal_strlit("1");
        reveal_strlit("2");
        reveal_strlit("3");
        reveal_strlit("4");
        reveal_strlit("5");
        reveal_strlit("6");
        reveal_strlit("7");
        reveal_strlit("8");
        reveal_strlit("9");
    }
    if d == 0 {
        "0"
    } else if d == 1 {
        "1"
    } else if d == 2 {
        "2"
    } else if d == 3 {
        "3"
    } else if d == 4 {
        "4"
    } else if d == 5 {
        "5"
    } else if d == 6 {
        "6"
    } else if d == 7 {
        "7"
    } else if d == 8 {
        "8"
    } else {
        "9"
    }
}

/// `n` written in decimal.
fn decimal_string(n: usize) -> (r: String)
    ensures
        r@ == decimal(n as nat),
    decreases n,
{
    let prefix = if n >= 10 {
        decimal_string(n / 10)
    } else {
        String::new()
    };
    let r = prefix.concat(digit_str(n % 10));
    proof {
        if n < 10 {
            assert(r@ =~= decimal(n as nat));
        }
    }
    r
}

impl Store {
    pub open spec fn view(&self) -> SpecStore {
        self.0@.map_values(|e: (Location, Slot)| (e.0@, e.1@))
    }

    /// No location has two slots.
    pub open spec fn wf(&self) -> bool {
        unique_keys(self@)
    }

    /// The position of the entry for `loc`.
    fn position(&self, loc: &String) -> (r: Option<usize>)
        ensures
            r matches Some(i) ==> index_of(self@, loc@) == i && i < self.0.len(),
            r is None ==> index_of(self@, loc@) == -1,
    {
        let n = self.0.len();
        for i in 0..n
            invariant
                n == self.0.len(),
                forall|j: int| 0 <= j < i ==> self@[j].0 != loc@,
        {
            if self.0[i].0 == *loc {
                proof {
                    lemma_index_of(self@, loc@, i as int);
                }
                return Some(i);
            }
        }
        None
    }

    /// Stores `value` at `loc` in scope `lifetime`, replacing an earlier slot in place.
    pub fn insert(&mut self, loc: &str, value: Pvalue, lifetime: Lifetime)
        ensures
            final(self)@ == put(old(self)@, loc@, SpecCell { value: pvalue_view(value), lifetime }),
            old(self).wf() ==> final(self).wf(),
    {
        let key = loc.to_string();
        match self.position(&key) {
            Some(i) => {
                self.0.set(i, (key, Slot { value, lifetime }));
            },
            None => {
                self.0.push((key, Slot { value, lifetime }));
            },
        }
        proof {
            assert(self@ =~= put(old(self)@, loc@, SpecCell { value: pvalue_view(value), lifetime }));
            if index_of(old(self)@, loc@) < 0 {
                lemma_index_of_none(old(self)@, loc@);
            }
        }
    }
    /// The location that `w` denotes, following the references stored along the way.
    pub fn locate(&self, w: &Lval) -> (r: Location)
        requires
            place_of(self@, w@) is Some,
        ensures
            place_of(self@, w@) == Some(r@),
    {
        let mut loc = w.ident.clone();
        let mut k: usize = 0;
        while k < w.derefs
            invariant
                k <= w.derefs,
                locate(self@, w.ident@, k as nat) == Some(loc@),
                locate(self@, w.ident@, w.derefs as nat) is Some,
            decreases w.derefs - k,
        {
            proof {
                lemma_locate_prefix(self@, w.ident@, (k + 1) as nat, w.derefs as nat);
            }
            let i = self.position(&loc).unwrap();
            if let Some(Value::Ref(target, _)) = &self.0[i].1.value {
                loc = target.clone();
            }
            k = k + 1;
        }
        loc
    }

    /// The slot that `x` denotes.
    pub fn read(&self, x: &Lval) -> (r: &Slot)
        requires
            cell_at(self@, x@) is Some,
        ensures
            cell_at(self@, x@) == Some(r@),
    {
        let loc = self.locate(x);
        let i = self.position(&loc).unwrap();
        &self.0[i].1
    }

    /// Stores `v` at the location `x` denotes and hands back what was there.
    pub fn write(&mut self, x: &Lval, v: Pvalue) -> (r: Pvalue)
        requires
            cell_at(old(self)@, x@) is Some,
        ensures
            pvalue_view(r) == cell_at(old(self)@, x@)->Some_0.value,
            final(self)@ == set_value(old(self)@, place_of(old(self)@, x@)->Some_0, pvalue_view(v)),
            old(self).wf() ==> final(self).wf(),
    {
        let loc = self.locate(x);
        let i = self.position(&loc).unwrap();
        let old_val = match &self.0[i].1.value {
            Some(val) => Some(val.clone()),
            None => None,
        };
        let lifetime = self.0[i].1.lifetime;
        self.0.set(i, (loc, Slot { value: v, lifetime }));
        proof {
            assert(self@ =~= set_value(old(self)@, place_of(old(self)@, x@)->Some_0, pvalue_view(v)));
        }
        old_val
    }

    /// Releases `loc` and, one after another, everything it owns.
    fn release(&mut self, loc: &Location)
        ensures
            final(self)@ == release(old(self)@, loc@),
            old(self).wf() ==> final(self).wf(),
    {
        let mut cur = loc.clone();
        loop
            invariant
                release(old(self)@, loc@) == release(self@, cur@),
                old(self).wf() ==> self.wf(),
            decreases self.0.len(),
        {
            match self.position(&cur) {
                None => return,
                Some(i) => {
                    let ghost before = self@;
                    let (_, slot) = self.0.remove(i);
                    proof {
                        assert(self@ =~= before.remove(i as int));
                        if unique_keys(before) {
                            lemma_unique_remove(before, i as int);
                        }
                    }
                    match slot.value {
                        Some(Value::Ref(child, true)) => {
                            cur = child;
                        },
                        _ => return,
                    }
                },
            }
        }
    }

    /// Releases the targets of the owning references among `values`, in order.
    pub fn drop(&mut self, values: Vec<Pvalue>)
        ensures
            final(self)@ == release_all(old(self)@, pvalues_view(values@), values.len() as nat),
            old(self).wf() ==> final(self).wf(),
    {
        let n = values.len();
        for k in 0..n
            invariant
                n == values.len(),
                self@ == release_all(old(self)@, pvalues_view(values@), k as nat),
                old(self).wf() ==> self.wf(),
        {
            if let Some(Value::Ref(loc, owned)) = &values[k] {
                if *owned {
                    self.release(loc);
                }
            }
        }
    }

    /// An owning reference to each location of lifetime `l`, in store order.
    pub fn locs_by_lifetime(&self, l: Lifetime) -> (r: Vec<Pvalue>)
        ensures
            pvalues_view(r@) == owned_by(self@, l),
    {
        let mut out: Vec<Pvalue> = Vec::new();
        let n = self.0.len();
        for i in 0..n
            invariant
                n == self.0.len(),
                pvalues_view(out@) == self@.subrange(0, i as int).filter(
                    |e: (Seq<char>, SpecCell)| e.1.lifetime == l,
                ).map_values(|e: (Seq<char>, SpecCell)| Some(SpecValue::Ref(e.0, true))),
        {
            let ghost before = self@.subrange(0, i as int).filter(
                |e: (Seq<char>, SpecCell)| e.1.lifetime == l,
            );
            let ghost prev = pvalues_view(out@);
            proof {
                let sub = self@.subrange(0, i + 1);
                reveal(Seq::filter);
                assert(sub.drop_last() =~= self@.subrange(0, i as int));
                assert(sub.last() == self@[i as int]);
            }
            if self.0[i].1.lifetime.0 == l.0 {
                out.push(Some(Value::Ref(self.0[i].0.clone(), true)));
                proof {
                    assert(self@.subrange(0, i + 1).filter(|e: (Seq<char>, SpecCell)| e.1.lifetime == l) == before.push(self@[i as int]));
                    assert(pvalues_view(out@) =~= prev.push(Some(SpecValue::Ref(self@[i as int].0, true))));
                    assert(before.push(self@[i as int]).map_values(|e: (Seq<char>, SpecCell)| Some(SpecValue::Ref(e.0, true)))
                        =~= before.map_values(|e: (Seq<char>, SpecCell)| Some(SpecValue::Ref(e.0, true))).push(Some(SpecValue::Ref(self@[i as int].0, true))));
                }
            } else {
                assert(self@.subrange(0, i + 1).filter(|e: (Seq<char>, SpecCell)| e.1.lifetime == l) == before);
            }
            assert(pvalues_view(out@) =~= self@.subrange(0, i + 1).filter(
                |e: (Seq<char>, SpecCell)| e.1.lifetime == l,
            ).map_values(|e: (Seq<char>, SpecCell)| Some(SpecValue::Ref(e.0, true))));
        }
        proof {
            assert(self@.subrange(0, n as int) =~= self@);
        }
        out
    }
}


/// The evaluator: the store and a counter that names fresh heap cells.
#[derive(Debug, Default)]
pub struct Context {
    pub store: Store,
    pub counter: usize,
}

impl Context {
    pub open spec fn view(&self) -> EvalState {
        EvalState { store: self.store@, counter: self.counter as nat }
    }

    /// No location has two slots.
    pub open spec fn wf(&self) -> bool {
        self.store.wf()
    }

    /// Evaluates `expr` in scope `l`.
    pub fn eval_expr(&mut self, expr: &Expr, l: Lifetime) -> (r: Value)
        requires
            eval_expr(old(self)@, expr@, l) is Some,
        ensures
            (final(self)@, r@) == eval_expr(old(self)@, expr@, l)->Some_0,
            old(self).wf() ==> final(self).wf(),
        decreases expr, 0nat,
    {
        match expr {
            Expr::Int(n) => Value::Int(*n),
            Expr::Unit => Value::Unit,
            Expr::Lval(lval, copyable) => {
                if *copyable {
                    self.store.read(lval).value.as_ref().unwrap().clone()
                } else {
                    self.store.write(lval, None).unwrap()
                }
            },
            Expr::Box(inner) => {
                let val = self.eval_expr(inner, l);
                let loc = self.fresh_location();
                self.store.insert(loc.as_str(), Some(val), l);
                Value::Ref(loc, true)
            },
            Expr::Borrow(lval, _mutability) => Value::Ref(self.store.locate(lval), false),
            Expr::Block(stmts, final_expr, block_lifetime) => {
                proof {
                    assert(decreases_to!(*expr => expr->Block_0));
                    lemma_view_stmts(*stmts, stmts.len() as nat);
                }
                self.eval_stmts(stmts, *block_lifetime);
                let result = self.eval_expr(final_expr, *block_lifetime);
                let to_drop = self.store.locs_by_lifetime(*block_lifetime);
                self.store.drop(to_drop);
                result
            },
        }
    }

    /// Evaluates the statements of a block in order.
    fn eval_stmts(&mut self, stmts: &Vec<Stmt>, l: Lifetime)
        requires
            eval_stmts(old(self)@, view_stmts(*stmts, stmts.len() as nat), stmts.len() as nat, l) is Some,
        ensures
            final(self)@ == eval_stmts(old(self)@, view_stmts(*stmts, stmts.len() as nat), stmts.len() as nat, l)->Some_0,
            old(self).wf() ==> final(self).wf(),
        decreases stmts, 1nat,
    {
        let n = stmts.len();
        let ghost sv = view_stmts(*stmts, n as nat);
        let ghost st0 = self@;
        proof {
            lemma_view_stmts(*stmts, n as nat);
        }
        for i in 0..n
            invariant
                n == stmts.len(),
                sv == view_stmts(*stmts, n as nat),
                sv.len() == n,
                st0 == old(self)@,
                eval_stmts(st0, sv, n as nat, l) is Some,
                eval_stmts(st0, sv, i as nat, l) == Some(self@),
                old(self).wf() ==> self.wf(),
        {
            proof {
                assert(decreases_to!(*stmts => stmts[i as int]));
                lemma_view_stmts(*stmts, n as nat);
                lemma_eval_stmts_prefix(st0, sv, i as nat, n as nat, l);
            }
            self.eval_stmt(&stmts[i], l);
        }
    }

    /// Evaluates `stmt` in scope `l`.
    pub fn eval_stmt(&mut self, stmt: &Stmt, l: Lifetime)
        requires
            eval_stmt(old(self)@, stmt@, l) is Some,
        ensures
            final(self)@ == eval_stmt(old(self)@, stmt@, l)->Some_0,
            old(self).wf() ==> final(self).wf(),
        decreases stmt, 0nat,
    {
        match stmt {
            Stmt::LetMut(ident, expr) => {
                let val = self.eval_expr(expr, l);
                self.store.insert(ident.as_str(), Some(val), l);
            },
            Stmt::Assign(lval, expr) => {
                let val = self.eval_expr(expr, l);
                self.store.write(lval, Some(val));
            },
            Stmt::Expr(expr) => {
                self.eval_expr(expr, l);
            },
        }
    }

    /// A new name for a heap cell.
    fn fresh_location(&mut self) -> (r: Location)
        requires
            old(self).counter < usize::MAX,
        ensures
            r@ == box_location(old(self).counter as nat),
            final(self)@ == (EvalState { store: old(self)@.store, counter: old(self)@.counter + 1 }),
    {
        let digits = decimal_string(self.counter);
        let loc = "__box".to_string().concat(digits.as_str());
        self.counter = self.counter + 1;
        loc
    }
}

} // verus!
