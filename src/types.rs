//! The static checker: a flow-sensitive environment of types and the borrow rules.
use vstd::prelude::*;

use crate::utils::{
    index_of, lemma_index_of, lemma_index_of_none, lemma_unique_filter, lemma_view_stmts,
    unique_keys, view_stmts, Expr, Ident, Lifetime, Lval, Mutable,
    SpecExpr, SpecLval, SpecStmt, Stmt,
};

verus! {

/// Types: two primitives, owning boxes, references, and the mark left by a move.
#[derive(Debug, PartialEq)]
pub enum Type {
    Unit,
    Int,
    Box(Box<Type>),
    Ref(Lval, Mutable),
    Undefined(Box<Type>),
}

/// The mathematical content of a [`Type`].
pub enum SpecType {
    Unit,
    Int,
    Box(Box<SpecType>),
    Ref(SpecLval, bool),
    Undefined(Box<SpecType>),
}

impl Type {
    pub open spec fn view(&self) -> SpecType
        decreases self,
    {
        match self {
            Type::Unit => SpecType::Unit,
            Type::Int => SpecType::Int,
            Type::Box(t) => SpecType::Box(Box::new(t.view())),
            Type::Ref(lv, m) => SpecType::Ref(lv@, *m),
            Type::Undefined(t) => SpecType::Undefined(Box::new(t.view())),
        }
    }

    pub fn boxx(t: Type) -> (r: Self)
        ensures
            r@ == SpecType::Box(Box::new(t@)),
    {
        Type::Box(Box::new(t))
    }

    pub fn undefined(t: Type) -> (r: Self)
        ensures
            r@ == SpecType::Undefined(Box::new(t@)),
    {
        Type::Undefined(Box::new(t))
    }

    pub fn imm_ref(lval: Lval) -> (r: Self)
        ensures
            r@ == SpecType::Ref(lval@, false),
    {
        Type::Ref(lval, false)
    }

    pub fn mut_ref(lval: Lval) -> (r: Self)
        ensures
            r@ == SpecType::Ref(lval@, true),
    {
        Type::Ref(lval, true)
    }
}

impl Clone for Type {
    fn clone(&self) -> (r: Self)
        ensures
            r == *self,
        decreases self,
    {
        match self {
            Type::Unit => Type::Unit,
            Type::Int => Type::Int,
            Type::Box(t) => Type::Box(Box::new((**t).clone())),
            Type::Ref(lv, m) => Type::Ref(lv.clone(), *m),
            Type::Undefined(t) => Type::Undefined(Box::new((**t).clone())),
        }
    }
}

/// What the environment records of a variable: its type and the scope that defines it.
#[derive(Debug, PartialEq)]
pub struct Slot {
    pub tipe: Type,
    pub lifetime: Lifetime,
}

/// The mathematical content of a [`Slot`].
pub struct SpecSlot {
    pub tipe: SpecType,
    pub lifetime: Lifetime,
}

impl Slot {
    pub open spec fn view(&self) -> SpecSlot {
        SpecSlot { tipe: self.tipe@, lifetime: self.lifetime }
    }

    pub fn new(tipe: Type, lifetime: Lifetime) -> (r: Self)
        ensures
            r@ == (SpecSlot { tipe: tipe@, lifetime }),
    {
        Slot { tipe, lifetime }
    }
}

impl Clone for Slot {
    fn clone(&self) -> (r: Self)
        ensures
            r == *self,
    {
        Slot { tipe: self.tipe.clone(), lifetime: self.lifetime }
    }
}

/// The errors the checker reports, each with the offending item.
#[derive(Debug, PartialEq)]
pub enum Error {
    UnknownVar(String),
    CannotDeref(Type),
    MovedOut(Lval),
    MoveBehindRef(Lval),
    UpdateBehindImmRef(Lval),
    CopyAfterMutBorrow(Lval),
    MoveAfterBorrow(Lval),
    MutBorrowBehindImmRef(Lval),
    MutBorrowAfterBorrow(Lval),
    BorrowAfterMutBorrow(Lval),
    Shadowing(String),
    IncompatibleTypes(Type, Type),
    LifetimeTooShort(Expr),
    AssignAfterBorrow(Lval),
}

/// The mathematical content of an [`Error`].
pub enum SpecError {
    UnknownVar(Seq<char>),
    CannotDeref(SpecType),
    MovedOut(SpecLval),
    MoveBehindRef(SpecLval),
    UpdateBehindImmRef(SpecLval),
    CopyAfterMutBorrow(SpecLval),
    MoveAfterBorrow(SpecLval),
    MutBorrowBehindImmRef(SpecLval),
    MutBorrowAfterBorrow(SpecLval),
    BorrowAfterMutBorrow(SpecLval),
    Shadowing(Seq<char>),
    IncompatibleTypes(SpecType, SpecType),
    LifetimeTooShort(SpecExpr),
    AssignAfterBorrow(SpecLval),
}

impl Error {
    pub open spec fn view(&self) -> SpecError {
        match self {
            Error::UnknownVar(x) => SpecError::UnknownVar(x@),
            Error::CannotDeref(t) => SpecError::CannotDeref(t@),
            Error::MovedOut(lv) => SpecError::MovedOut(lv@),
            Error::MoveBehindRef(lv) => SpecError::MoveBehindRef(lv@),
            Error::UpdateBehindImmRef(lv) => SpecError::UpdateBehindImmRef(lv@),
            Error::CopyAfterMutBorrow(lv) => SpecError::CopyAfterMutBorrow(lv@),
            Error::MoveAfterBorrow(lv) => SpecError::MoveAfterBorrow(lv@),
            Error::MutBorrowBehindImmRef(lv) => SpecError::MutBorrowBehindImmRef(lv@),
            Error::MutBorrowAfterBorrow(lv) => SpecError::MutBorrowAfterBorrow(lv@),
            Error::BorrowAfterMutBorrow(lv) => SpecError::BorrowAfterMutBorrow(lv@),
            Error::Shadowing(x) => SpecError::Shadowing(x@),
            Error::IncompatibleTypes(a, b) => SpecError::IncompatibleTypes(a@, b@),
            Error::LifetimeTooShort(e) => SpecError::LifetimeTooShort(e@),
            Error::AssignAfterBorrow(lv) => SpecError::AssignAfterBorrow(lv@),
        }
    }
}

pub type TypeResult<T> = Result<T, Error>;

/// The view of a checker result.
pub open spec fn result_view<T, V>(r: Result<T, Error>, f: spec_fn(T) -> V) -> Result<V, SpecError> {
    match r {
        Ok(t) => Ok(f(t)),
        Err(e) => Err(e@),
    }
}

/// The static environment: each variable with its slot, in order of declaration.
#[derive(Clone, Debug, PartialEq, Default)]
pub struct Env(pub Vec<(Ident, Slot)>);

/// The mathematical content of an [`Env`].
pub type SpecEnv = Seq<(Seq<char>, SpecSlot)>;

/// The slot bound to `id`, if any.
pub open spec fn lookup(env: SpecEnv, id: Seq<char>) -> Option<SpecSlot> {
    let i = index_of(env, id);
    if i >= 0 {
        Some(env[i].1)
    } else {
        None
    }
}

/// `env` with `id` bound to `slot`: the existing entry is replaced in place, or a new one appended.
pub open spec fn insert(env: SpecEnv, id: Seq<char>, slot: SpecSlot) -> SpecEnv {
    let i = index_of(env, id);
    if i >= 0 {
        env.update(i, (id, slot))
    } else {
        env.push((id, slot))
    }
}

/// A place reached by following an lvalue: the variable whose slot holds it, how many
/// boxes deep it sits there, the type found and that variable's lifetime, and whether
/// every reference crossed on the way was mutable.
pub struct SpecPlace {
    pub ident: Seq<char>,
    pub boxes: nat,
    pub slot: SpecSlot,
    pub mutable: bool,
}

/// Follows `lv` from its variable. Each step unwraps a box (failing when what it holds was
/// moved out, unless `dest` asks for a place to write and this is the last step) or goes
/// through a reference to the place its target names. `fuel` bounds how many references
/// may be followed one inside another, so a chain that leads back into itself ends.
pub open spec fn resolve(env: SpecEnv, lv: SpecLval, fuel: nat, dest: bool) -> Result<
    SpecPlace,
    SpecError,
>
    decreases fuel, 1nat, 0nat,
{
    match lookup(env, lv.ident) {
        None => Err(SpecError::UnknownVar(lv.ident)),
        Some(slot) => walk(
            env,
            SpecPlace { ident: lv.ident, boxes: 0, slot, mutable: true },
            lv,
            lv.derefs,
            fuel,
            dest,
        ),
    }
}

/// Takes the last `n` dereference steps of `lv`, starting at place `p`. A reference is
/// transparent: its step lands on the place its target denotes, which may be in another
/// variable. A place deeper than a machine word can count cannot be addressed.
pub open spec fn walk(
    env: SpecEnv,
    p: SpecPlace,
    lv: SpecLval,
    n: nat,
    fuel: nat,
    dest: bool,
) -> Result<SpecPlace, SpecError>
    decreases fuel, 0nat, n,
{
    if n == 0 {
        Ok(p)
    } else {
        match p.slot.tipe {
            SpecType::Box(inner) => {
                if (*inner is Undefined) && !(dest && n == 1) {
                    Err(SpecError::MovedOut(lv))
                } else if p.boxes >= usize::MAX {
                    Err(SpecError::CannotDeref(p.slot.tipe))
                } else {
                    walk(
                        env,
                        SpecPlace {
                            ident: p.ident,
                            boxes: p.boxes + 1,
                            slot: SpecSlot { tipe: *inner, lifetime: p.slot.lifetime },
                            mutable: p.mutable,
                        },
                        lv,
                        (n - 1) as nat,
                        fuel,
                        dest,
                    )
                }
            },
            SpecType::Ref(target, m) => {
                if fuel == 0 {
                    Err(SpecError::CannotDeref(p.slot.tipe))
                } else {
                    match resolve(env, target, (fuel - 1) as nat, false) {
                        Err(e) => Err(e),
                        Ok(q) => walk(
                            env,
                            SpecPlace {
                                ident: q.ident,
                                boxes: q.boxes,
                                slot: q.slot,
                                mutable: p.mutable && m && q.mutable,
                            },
                            lv,
                            (n - 1) as nat,
                            fuel,
                            dest,
                        ),
                    }
                }
            },
            _ => Err(SpecError::CannotDeref(p.slot.tipe)),
        }
    }
}

/// A place that resolution reaches lies in a bound variable.
pub proof fn lemma_resolve_bound(env: SpecEnv, lv: SpecLval, fuel: nat, dest: bool)
    ensures
        resolve(env, lv, fuel, dest) matches Ok(q) ==> index_of(env, q.ident) >= 0,
    decreases fuel, 1nat, 0nat,
{
    if let Some(slot) = lookup(env, lv.ident) {
        let p = SpecPlace { ident: lv.ident, boxes: 0, slot, mutable: true };
        lemma_walk_bound(env, p, lv, lv.derefs, fuel, dest);
    }
}

proof fn lemma_walk_bound(env: SpecEnv, p: SpecPlace, lv: SpecLval, n: nat, fuel: nat, dest: bool)
    requires
        index_of(env, p.ident) >= 0,
    ensures
        walk(env, p, lv, n, fuel, dest) matches Ok(q) ==> index_of(env, q.ident) >= 0,
    decreases fuel, 0nat, n,
{
    if n > 0 {
        match p.slot.tipe {
            SpecType::Box(inner) => {
                let next = SpecPlace {
                    ident: p.ident,
                    boxes: p.boxes + 1,
                    slot: SpecSlot { tipe: *inner, lifetime: p.slot.lifetime },
                    mutable: p.mutable,
                };
                lemma_walk_bound(env, next, lv, (n - 1) as nat, fuel, dest);
            },
            SpecType::Ref(target, m) => {
                if fuel > 0 {
                    lemma_resolve_bound(env, target, (fuel - 1) as nat, false);
                    if let Ok(q) = resolve(env, target, (fuel - 1) as nat, false) {
                        let next = SpecPlace {
                            ident: q.ident,
                            boxes: q.boxes,
                            slot: q.slot,
                            mutable: p.mutable && m && q.mutable,
                        };
                        lemma_walk_bound(env, next, lv, (n - 1) as nat, fuel, dest);
                    }
                }
            },
            _ => {},
        }
    }
}

/// The slot that `lv` denotes.
pub open spec fn type_lval(env: SpecEnv, lv: SpecLval) -> Result<SpecSlot, SpecError> {
    match resolve(env, lv, env.len(), false) {
        Ok(p) => Ok(p.slot),
        Err(e) => Err(e),
    }
}

/// `lv` denotes a place and only mutable references lead to it.
pub open spec fn muut(env: SpecEnv, lv: SpecLval) -> bool {
    match resolve(env, lv, env.len(), false) {
        Ok(p) => p.mutable,
        Err(_) => false,
    }
}


/// `t`, or a box inside it, is a reference of mutability `m` whose target starts at `id`.
pub open spec fn holds_ref(t: SpecType, id: Seq<char>, m: bool) -> bool
    decreases t,
{
    match t {
        SpecType::Box(inner) => holds_ref(*inner, id, m),
        SpecType::Ref(target, mm) => target.ident == id && mm == m,
        _ => false,
    }
}

/// Some live reference of mutability `m` in `env` targets the variable `id` directly.
pub open spec fn borrowed(env: SpecEnv, id: Seq<char>, m: bool) -> bool {
    exists|i: int| 0 <= i < env.len() && holds_ref(#[trigger] env[i].1.tipe, id, m)
}

/// Two types have the same shape: the same primitive, the same nesting of boxes, references of
/// the same mutability. The mark of a move is ignored.
pub open spec fn compatible(t1: SpecType, t2: SpecType) -> bool
    decreases t1, t2,
{
    match (t1, t2) {
        (SpecType::Undefined(a), _) => compatible(*a, t2),
        (_, SpecType::Undefined(b)) => compatible(t1, *b),
        (SpecType::Int, SpecType::Int) => true,
        (SpecType::Unit, SpecType::Unit) => true,
        (SpecType::Box(a), SpecType::Box(b)) => compatible(*a, *b),
        (SpecType::Ref(_, m1), SpecType::Ref(_, m2)) => m1 == m2,
        _ => false,
    }
}

/// `t` with the layer `n` boxes deep wrapped in the mark of a move; the outer boxes stay.
/// Only boxes may be crossed, and a reference is never moved: anything else on the way, or a
/// reference where the path ends, is a move behind a reference.
pub open spec fn moved(t: SpecType, n: nat, lv: SpecLval) -> Result<SpecType, SpecError>
    decreases n,
{
    if n == 0 {
        match t {
            SpecType::Ref(_, _) => Err(SpecError::MoveBehindRef(lv)),
            _ => Ok(SpecType::Undefined(Box::new(t))),
        }
    } else {
        match t {
            SpecType::Box(inner) => match moved(*inner, (n - 1) as nat, lv) {
                Ok(u) => Ok(SpecType::Box(Box::new(u))),
                Err(e) => Err(e),
            },
            _ => Err(SpecError::MoveBehindRef(lv)),
        }
    }
}

/// `env` after moving out of `lv`.
pub open spec fn moove(env: SpecEnv, lv: SpecLval) -> Result<SpecEnv, SpecError> {
    let i = index_of(env, lv.ident);
    if i < 0 {
        Err(SpecError::UnknownVar(lv.ident))
    } else {
        match moved(env[i].1.tipe, lv.derefs, lv) {
            Ok(t) => Ok(env.update(i, (lv.ident, SpecSlot { tipe: t, lifetime: env[i].1.lifetime }))),
            Err(e) => Err(e),
        }
    }
}

/// `t` with what sits `k` boxes deep replaced by `new_t`.
pub open spec fn replace_at(t: SpecType, k: nat, new_t: SpecType) -> SpecType
    decreases k,
{
    if k == 0 {
        new_t
    } else {
        match t {
            SpecType::Box(inner) => SpecType::Box(Box::new(replace_at(*inner, (k - 1) as nat, new_t))),
            _ => t,
        }
    }
}

/// `env` with the type `k` boxes deep in the slot of `id` replaced by `new_t`.
pub open spec fn set_at(env: SpecEnv, id: Seq<char>, k: nat, new_t: SpecType) -> SpecEnv {
    let i = index_of(env, id);
    if i >= 0 {
        env.update(i, (id, SpecSlot { tipe: replace_at(env[i].1.tipe, k, new_t), lifetime: env[i].1.lifetime }))
    } else {
        env
    }
}

/// `env` after assigning a value of type `new_t` to `lv`. Refused while a live reference
/// targets the variable of `lv` directly. Otherwise the path is followed through boxes and
/// references to the place to write (which may hold a moved-out value: the assignment fills
/// it). Writing behind an immutable reference, over an immutable reference, or a value of
/// another shape, is refused.
pub open spec fn assign(env: SpecEnv, lv: SpecLval, new_t: SpecType) -> Result<SpecEnv, SpecError> {
    if borrowed(env, lv.ident, true) || borrowed(env, lv.ident, false) {
        Err(SpecError::AssignAfterBorrow(lv))
    } else {
        match resolve(env, lv, env.len(), true) {
            Err(e) => Err(e),
            Ok(p) => if !p.mutable || (p.slot.tipe is Ref && !p.slot.tipe->Ref_1) {
                Err(SpecError::UpdateBehindImmRef(lv))
            } else if !compatible(p.slot.tipe, new_t) {
                Err(SpecError::IncompatibleTypes(p.slot.tipe, new_t))
            } else {
                Ok(set_at(env, p.ident, p.boxes, new_t))
            },
        }
    }
}

/// `env` without the entries of lifetime `l`.
pub open spec fn drop(env: SpecEnv, l: Lifetime) -> SpecEnv {
    env.filter(|e: (Seq<char>, SpecSlot)| e.1.lifetime != l)
}

/// What `t` holds below all its boxes.
pub open spec fn innermost(t: SpecType) -> SpecType
    decreases t,
{
    match t {
        SpecType::Box(inner) => innermost(*inner),
        _ => t,
    }
}

/// What the variable `id` holds below all its boxes, unless that was moved out.
pub open spec fn contained(env: SpecEnv, id: Seq<char>) -> Option<SpecType> {
    match lookup(env, id) {
        Some(slot) => if innermost(slot.tipe) is Undefined {
            None
        } else {
            Some(innermost(slot.tipe))
        },
        None => None,
    }
}

impl Type {
    /// This type, or a box inside it, is a reference of mutability `m` to `id`.
    fn holds_ref(&self, id: &String, m: bool) -> (r: bool)
        ensures
            r == holds_ref(self@, id@, m),
        decreases self,
    {
        match self {
            Type::Box(inner) => inner.holds_ref(id, m),
            Type::Ref(target, mm) => target.ident == *id && *mm == m,
            _ => false,
        }
    }

    /// This type with the value `n` boxes deep marked as moved out.
    fn moved(&self, n: usize, lv: &Lval) -> (r: TypeResult<Type>)
        ensures
            result_view(r, |u: Type| u@) == moved(self@, n as nat, lv@),
        decreases n,
    {
        if n == 0 {
            match self {
                Type::Ref(_, _) => Err(Error::MoveBehindRef(lv.clone())),
                _ => Ok(Type::Undefined(Box::new(self.clone()))),
            }
        } else {
            match self {
                Type::Box(inner) => match inner.moved(n - 1, lv) {
                    Ok(u) => Ok(Type::Box(Box::new(u))),
                    Err(e) => Err(e),
                },
                _ => Err(Error::MoveBehindRef(lv.clone())),
            }
        }
    }

    /// This type with what sits `k` boxes deep replaced by `new_t`.
    fn replace_at(self, k: usize, new_t: Type) -> (r: Type)
        ensures
            r@ == replace_at(self@, k as nat, new_t@),
        decreases k,
    {
        if k == 0 {
            new_t
        } else {
            match self {
                Type::Box(inner) => Type::Box(Box::new(inner.replace_at(k - 1, new_t))),
                other => other,
            }
        }
    }

    /// This type, or a box inside it, was moved out.
    fn has_undef(&self) -> (r: bool)
        ensures
            r == has_undef(self@),
        decreases self,
    {
        match self {
            Type::Undefined(_) => true,
            Type::Box(inner) => inner.has_undef(),
            _ => false,
        }
    }

    /// What this type holds below all its boxes.
    fn innermost(&self) -> (r: &Type)
        ensures
            r@ == innermost(self@),
        decreases self,
    {
        match self {
            Type::Box(inner) => inner.innermost(),
            _ => self,
        }
    }
}


/// The state of the checker: the environment and the stack of open scopes.
pub struct CheckState {
    pub env: SpecEnv,
    pub stack: Seq<Lifetime>,
}

/// `l` contains `m`: `l` is the global scope, or sits at or below `m` on the stack.
pub open spec fn contains(stack: Seq<Lifetime>, l: Lifetime, m: Lifetime) -> bool {
    l == Lifetime(0) || exists|i: int, j: int|
        0 <= i <= j < stack.len() && #[trigger] stack[i] == l && #[trigger] stack[j] == m
}

/// Every reference in `t` targets a variable whose lifetime contains `l`.
pub open spec fn well_formed(st: CheckState, t: SpecType, l: Lifetime) -> bool
    decreases t,
{
    match t {
        SpecType::Box(inner) => well_formed(st, *inner, l),
        SpecType::Undefined(inner) => well_formed(st, *inner, l),
        SpecType::Ref(target, _) => match lookup(st.env, target.ident) {
            Some(slot) => contains(st.stack, slot.lifetime, l),
            None => false,
        },
        _ => true,
    }
}

/// `t`, or a box inside it, was moved out.
pub open spec fn has_undef(t: SpecType) -> bool
    decreases t,
{
    match t {
        SpecType::Undefined(_) => true,
        SpecType::Box(inner) => has_undef(*inner),
        _ => false,
    }
}

/// Values of type `t` are copied rather than moved.
pub open spec fn is_copy(t: SpecType) -> bool {
    t is Int || t is Unit
}

/// The type of a borrow of `lv`.
pub open spec fn check_borrow(st: CheckState, lv: SpecLval, m: bool) -> Result<SpecType, SpecError> {
    match type_lval(st.env, lv) {
        Err(err) => Err(err),
        Ok(slot) => if slot.tipe is Undefined {
            Err(SpecError::MovedOut(lv))
        } else if st.stack.len() > 0 && !contains(st.stack, slot.lifetime, st.stack.last()) {
            Err(SpecError::LifetimeTooShort(SpecExpr::Borrow(lv, m)))
        } else if m {
            if !muut(st.env, lv) {
                Err(SpecError::MutBorrowBehindImmRef(lv))
            } else if borrowed(st.env, lv.ident, false) {
                Err(SpecError::MutBorrowAfterBorrow(lv))
            } else {
                Ok(SpecType::Ref(lv, true))
            }
        } else if borrowed(st.env, lv.ident, true) {
            Err(SpecError::BorrowAfterMutBorrow(lv))
        } else {
            Ok(SpecType::Ref(lv, false))
        },
    }
}

/// Checks an expression: the state after it, the expression with its copies marked, and its
/// type or the first error.
///
/// A read of an lvalue copies a primitive and moves anything else; a mutable reference to the
/// variable forbids a copy, any reference forbids a move. A block pushes its lifetime, checks
/// its statements and its tail, then pops the lifetime and drops the variables of that
/// lifetime (on success the popped lifetime is the block's own: the stack is left as found).
pub open spec fn check_expr(st: CheckState, e: SpecExpr) -> (CheckState, SpecExpr, Result<
    SpecType,
    SpecError,
>)
    decreases e, 0nat,
{
    match e {
        SpecExpr::Int(_) => (st, e, Ok(SpecType::Int)),
        SpecExpr::Unit => (st, e, Ok(SpecType::Unit)),
        SpecExpr::Lval(lv, _) => match type_lval(st.env, lv) {
            Err(err) => (st, e, Err(err)),
            Ok(slot) => if has_undef(slot.tipe) {
                (st, e, Err(SpecError::MovedOut(lv)))
            } else if is_copy(slot.tipe) {
                if borrowed(st.env, lv.ident, true) {
                    (st, e, Err(SpecError::CopyAfterMutBorrow(lv)))
                } else {
                    (st, SpecExpr::Lval(lv, true), Ok(slot.tipe))
                }
            } else if borrowed(st.env, lv.ident, true) || borrowed(st.env, lv.ident, false) {
                (st, e, Err(SpecError::MoveAfterBorrow(lv)))
            } else {
                match moove(st.env, lv) {
                    Ok(env) => (CheckState { env, stack: st.stack }, e, Ok(slot.tipe)),
                    Err(err) => (st, e, Err(err)),
                }
            },
        },
        SpecExpr::Box(inner) => {
            let (st1, inner1, r) = check_expr(st, *inner);
            (
                st1,
                SpecExpr::Box(Box::new(inner1)),
                match r {
                    Ok(t) => Ok(SpecType::Box(Box::new(t))),
                    Err(err) => Err(err),
                },
            )
        },
        SpecExpr::Borrow(lv, m) => (st, e, check_borrow(st, lv, m)),
        SpecExpr::Block(stmts, tail, lt) => {
            let st1 = CheckState { env: st.env, stack: st.stack.push(lt) };
            let (st2, stmts2, r2) = check_stmts(st1, stmts, stmts.len());
            match r2 {
                Err(err) => (st2, SpecExpr::Block(stmts2, tail, lt), Err(err)),
                Ok(_) => {
                    let (st3, tail3, r3) = check_expr(st2, *tail);
                    let e3 = SpecExpr::Block(stmts2, Box::new(tail3), lt);
                    match r3 {
                        Err(err) => (st3, e3, Err(err)),
                        Ok(t) => if st3.stack.len() > 0 {
                            (
                                CheckState {
                                    env: drop(st3.env, st3.stack.last()),
                                    stack: st3.stack.drop_last(),
                                },
                                e3,
                                Ok(t),
                            )
                        } else {
                            (st3, e3, Ok(t))
                        },
                    }
                },
            }
        },
    }
}

/// Checks the first `n` statements in order, stopping at the first error.
pub open spec fn check_stmts(st: CheckState, stmts: Seq<SpecStmt>, n: nat) -> (CheckState, Seq<
    SpecStmt,
>, Result<(), SpecError>)
    decreases stmts, n,
{
    if n == 0 || n > stmts.len() {
        (st, stmts, Ok(()))
    } else {
        let (st1, stmts1, r1) = check_stmts(st, stmts, (n - 1) as nat);
        match r1 {
            Err(err) => (st1, stmts1, Err(err)),
            Ok(_) => {
                let (st2, s2, r2) = check_stmt(st1, stmts[n - 1]);
                (st2, stmts1.update(n - 1, s2), r2)
            },
        }
    }
}

/// Once a statement fails, the later ones are not checked.
pub proof fn lemma_check_stmts_err(st: CheckState, stmts: Seq<SpecStmt>, k: nat, n: nat)
    requires
        k <= n <= stmts.len(),
        check_stmts(st, stmts, k).2 is Err,
    ensures
        check_stmts(st, stmts, n) == check_stmts(st, stmts, k),
    decreases n,
{
    if n > k {
        lemma_check_stmts_err(st, stmts, k, (n - 1) as nat);
    }
}

/// Checks a statement.
pub open spec fn check_stmt(st: CheckState, s: SpecStmt) -> (CheckState, SpecStmt, Result<
    (),
    SpecError,
>)
    decreases s, 0nat,
{
    match s {
        SpecStmt::LetMut(var, rhs) => if lookup(st.env, var) is Some {
            (st, s, Err(SpecError::Shadowing(var)))
        } else {
            let (st1, rhs1, r) = check_expr(st, rhs);
            let s1 = SpecStmt::LetMut(var, rhs1);
            let fresh = Lifetime(st1.stack.len() as usize);
            match r {
                Err(err) => (st1, s1, Err(err)),
                Ok(t) => if (t is Undefined) && (rhs1 is Lval) {
                    (st1, s1, Err(SpecError::MovedOut(rhs1->Lval_0)))
                } else if !well_formed(st1, t, fresh) {
                    (st1, s1, Err(SpecError::LifetimeTooShort(rhs1)))
                } else {
                    (
                        CheckState {
                            env: insert(st1.env, var, SpecSlot { tipe: t, lifetime: fresh }),
                            stack: st1.stack,
                        },
                        s1,
                        Ok(()),
                    )
                },
            }
        },
        SpecStmt::Assign(lv, rhs) => {
            let (st1, rhs1, r) = check_expr(st, rhs);
            let s1 = SpecStmt::Assign(lv, rhs1);
            match r {
                Err(err) => (st1, s1, Err(err)),
                Ok(t) => if (resolve(st1.env, lv, st1.env.len(), true) matches Ok(p)
                    && !well_formed(st1, t, p.slot.lifetime)) {
                    (st1, s1, Err(SpecError::LifetimeTooShort(rhs1)))
                } else {
                    match assign(st1.env, lv, t) {
                        Ok(env) => (CheckState { env, stack: st1.stack }, s1, Ok(())),
                        Err(err) => (st1, s1, Err(err)),
                    }
                },
            }
        },
        SpecStmt::Expr(e) => {
            let (st1, e1, r) = check_expr(st, e);
            (
                st1,
                SpecStmt::Expr(e1),
                match r {
                    Ok(_) => Ok(()),
                    Err(err) => Err(err),
                },
            )
        },
    }
}

/// A place as the checker computes it.
struct Place {
    ident: Ident,
    boxes: usize,
    slot: Slot,
    mutable: bool,
}

impl Place {
    spec fn view(&self) -> SpecPlace {
        SpecPlace {
            ident: self.ident@,
            boxes: self.boxes as nat,
            slot: self.slot@,
            mutable: self.mutable,
        }
    }
}

impl Env {
    pub open spec fn view(&self) -> SpecEnv {
        self.0@.map_values(|e: (Ident, Slot)| (e.0@, e.1@))
    }

    /// No variable is bound twice.
    pub open spec fn wf(&self) -> bool {
        unique_keys(self@)
    }

    /// The position of the entry for `id`.
    fn position(&self, id: &String) -> (r: Option<usize>)
        ensures
            r matches Some(i) ==> index_of(self@, id@) == i && i < self.0.len(),
            r is None ==> index_of(self@, id@) == -1,
    {
        let n = self.0.len();
        for i in 0..n
            invariant
                n == self.0.len(),
                forall|j: int| 0 <= j < i ==> self@[j].0 != id@,
        {
            if self.0[i].0 == *id {
                proof {
                    lemma_index_of(self@, id@, i as int);
                }
                return Some(i);
            }
        }
        None
    }

    /// Binds `var` to `tipe` in scope `lifetime`, replacing an earlier binding in place.
    pub fn insert(&mut self, var: &str, tipe: Type, lifetime: Lifetime)
        ensures
            final(self)@ == insert(old(self)@, var@, SpecSlot { tipe: tipe@, lifetime }),
            old(self).wf() ==> final(self).wf(),
    {
        let key = var.to_string();
        match self.position(&key) {
            Some(i) => {
                self.0.set(i, (key, Slot { tipe, lifetime }));
            },
            None => {
                self.0.push((key, Slot { tipe, lifetime }));
            },
        }
        proof {
            assert(self@ =~= insert(old(self)@, var@, SpecSlot { tipe: tipe@, lifetime }));
            if index_of(old(self)@, var@) < 0 {
                lemma_index_of_none(old(self)@, var@);
            }
        }
    }
    /// Follows `lv` to the place it denotes (see the spec function `resolve`).
    fn resolve(&self, lv: &Lval, fuel: usize, dest: bool) -> (r: Result<Place, Error>)
        ensures
            result_view(r, |p: Place| p@) == resolve(self@, lv@, fuel as nat, dest),
        decreases fuel, 1nat,
    {
        let i = match self.position(&lv.ident) {
            Some(i) => i,
            None => return Err(Error::UnknownVar(lv.ident.clone())),
        };
        let mut p = Place {
            ident: lv.ident.clone(),
            boxes: 0,
            slot: self.0[i].1.clone(),
            mutable: true,
        };
        let ghost start = p@;
        let mut n = lv.derefs;
        while n > 0
            invariant
                resolve(self@, lv@, fuel as nat, dest) == walk(self@, start, lv@, lv.derefs as nat, fuel as nat, dest),
                walk(self@, start, lv@, lv.derefs as nat, fuel as nat, dest) == walk(
                    self@,
                    p@,
                    lv@,
                    n as nat,
                    fuel as nat,
                    dest,
                ),
            decreases n,
        {
            let ghost cur = p@;
            assert(walk(self@, cur, lv@, n as nat, fuel as nat, dest) == walk(self@, start, lv@, lv.derefs as nat, fuel as nat, dest));
            let Place { ident, boxes, slot, mutable } = p;
            let Slot { tipe, lifetime } = slot;
            match tipe {
                Type::Box(inner) => {
                    let moved = match *inner {
                        Type::Undefined(_) => true,
                        _ => false,
                    };
                    assert(moved == (inner@ is Undefined));
                    assert(cur.slot.tipe == SpecType::Box(Box::new(inner@)));
                    if moved && !(dest && n == 1) {
                        return Err(Error::MovedOut(lv.clone()));
                    }
                    if boxes == usize::MAX {
                        return Err(Error::CannotDeref(Type::Box(inner)));
                    }
                    p = Place { ident, boxes: boxes + 1, slot: Slot { tipe: *inner, lifetime }, mutable };
                },
                Type::Ref(target, m) => {
                    if fuel == 0 {
                        return Err(Error::CannotDeref(Type::Ref(target, m)));
                    }
                    match self.resolve(&target, fuel - 1, false) {
                        Err(e) => return Err(e),
                        Ok(q) => {
                            p = Place {
                                ident: q.ident,
                                boxes: q.boxes,
                                slot: q.slot,
                                mutable: mutable && m && q.mutable,
                            };
                        },
                    }
                },
                other => return Err(Error::CannotDeref(other)),
            }
            n = n - 1;
        }
        Ok(p)
    }

    /// The type and lifetime of the place that `lval` denotes.
    pub fn type_lval(&self, lval: &Lval) -> (r: TypeResult<Slot>)
        ensures
            result_view(r, |s: Slot| s@) == type_lval(self@, lval@),
    {
        match self.resolve(lval, self.0.len(), false) {
            Ok(p) => Ok(p.slot),
            Err(e) => Err(e),
        }
    }

    /// `lval` denotes a place that only mutable references lead to, so it may be borrowed mutably.
    pub fn muut(&self, lval: &Lval) -> (r: bool)
        ensures
            r == muut(self@, lval@),
    {
        match self.resolve(lval, self.0.len(), false) {
            Ok(p) => p.mutable,
            Err(_) => false,
        }
    }
    /// Some live reference of mutability `m` targets the variable `id` directly.
    fn borrowed(&self, id: &String, m: bool) -> (r: bool)
        ensures
            r == borrowed(self@, id@, m),
    {
        let n = self.0.len();
        for i in 0..n
            invariant
                n == self.0.len(),
                forall|j: int| 0 <= j < i ==> !holds_ref(#[trigger] self@[j].1.tipe, id@, m),
        {
            if self.0[i].1.tipe.holds_ref(id, m) {
                assert(holds_ref(self@[i as int].1.tipe, id@, m));
                return true;
            }
        }
        false
    }

    /// What `var` holds below all its boxes, unless that was moved out.
    pub fn contained(&self, var: &str) -> (r: Option<&Type>)
        ensures
            match r {
                Some(t) => contained(self@, var@) == Some(t@),
                None => contained(self@, var@) is None,
            },
    {
        let key = var.to_string();
        match self.position(&key) {
            None => None,
            Some(i) => {
                let t = self.0[i].1.tipe.innermost();
                match t {
                    Type::Undefined(_) => None,
                    _ => Some(t),
                }
            },
        }
    }

    /// `lval` cannot be read: it does not resolve, or what it denotes was moved out.
    pub fn read_prohibited(&self, lval: &Lval) -> (r: bool)
        ensures
            r == match type_lval(self@, lval@) {
                Ok(slot) => slot.tipe is Undefined,
                Err(_) => true,
            },
    {
        match self.type_lval(lval) {
            Ok(slot) => match slot.tipe {
                Type::Undefined(_) => true,
                _ => false,
            },
            Err(_) => true,
        }
    }

    /// `lval` cannot be written: it does not resolve, or denotes a moved-out value or an
    /// immutable reference.
    pub fn write_prohibited(&self, lval: &Lval) -> (r: bool)
        ensures
            r == match type_lval(self@, lval@) {
                Ok(slot) => slot.tipe is Undefined || (slot.tipe is Ref && !slot.tipe->Ref_1),
                Err(_) => true,
            },
    {
        match self.type_lval(lval) {
            Ok(slot) => match slot.tipe {
                Type::Undefined(_) => true,
                Type::Ref(_, m) => !m,
                _ => false,
            },
            Err(_) => true,
        }
    }

    /// Moves the value out of `lval`, marking it in place; outer boxes stay.
    pub fn moove(&mut self, lval: &Lval) -> (r: TypeResult<()>)
        ensures
            match moove(old(self)@, lval@) {
                Ok(env) => r is Ok && final(self)@ == env,
                Err(e) => r matches Err(err) && err@ == e && final(self)@ == old(self)@,
            },
            old(self).wf() ==> final(self).wf(),
    {
        let i = match self.position(&lval.ident) {
            Some(i) => i,
            None => return Err(Error::UnknownVar(lval.ident.clone())),
        };
        let t = self.0[i].1.tipe.moved(lval.derefs, lval);
        match t {
            Ok(t) => {
                let lifetime = self.0[i].1.lifetime;
                self.0.set(i, (lval.ident.clone(), Slot { tipe: t, lifetime }));
                proof {
                    assert(self@ =~= moove(old(self)@, lval@)->Ok_0);
                }
                Ok(())
            },
            Err(e) => Err(e),
        }
    }

    /// `t1` and `t2` have the same shape, moves aside.
    pub fn compatible(&self, t1: &Type, t2: &Type) -> (r: bool)
        ensures
            r == compatible(t1@, t2@),
        decreases t1, t2,
    {
        match (t1, t2) {
            (Type::Undefined(a), _) => self.compatible(a, t2),
            (_, Type::Undefined(b)) => self.compatible(t1, b),
            (Type::Int, Type::Int) => true,
            (Type::Unit, Type::Unit) => true,
            (Type::Box(a), Type::Box(b)) => self.compatible(a, b),
            (Type::Ref(_, m1), Type::Ref(_, m2)) => *m1 == *m2,
            _ => false,
        }
    }

    /// Records an assignment of a value of type `new_t` to `lval`.
    pub fn write(&mut self, lval: &Lval, new_t: Type) -> (r: TypeResult<()>)
        ensures
            match assign(old(self)@, lval@, new_t@) {
                Ok(env) => r is Ok && final(self)@ == env,
                Err(e) => r matches Err(err) && err@ == e && final(self)@ == old(self)@,
            },
            old(self).wf() ==> final(self).wf(),
    {
        if self.borrowed(&lval.ident, true) || self.borrowed(&lval.ident, false) {
            return Err(Error::AssignAfterBorrow(lval.clone()));
        }
        let p = match self.resolve(lval, self.0.len(), true) {
            Ok(p) => p,
            Err(e) => return Err(e),
        };
        let imm_target = match &p.slot.tipe {
            Type::Ref(_, m) => !*m,
            _ => false,
        };
        if !p.mutable || imm_target {
            return Err(Error::UpdateBehindImmRef(lval.clone()));
        }
        if !self.compatible(&p.slot.tipe, &new_t) {
            return Err(Error::IncompatibleTypes(p.slot.tipe, new_t));
        }
        proof {
            lemma_resolve_bound(self@, lval@, self.0.len() as nat, true);
        }
        let i = self.position(&p.ident).unwrap();
        let lifetime = self.0[i].1.lifetime;
        let t = self.0[i].1.tipe.clone().replace_at(p.boxes, new_t);
        self.0.set(i, (p.ident, Slot { tipe: t, lifetime }));
        proof {
            assert(self@ =~= assign(old(self)@, lval@, new_t@)->Ok_0);
        }
        Ok(())
    }

    /// Removes every variable of lifetime `l`.
    pub fn drop(&mut self, l: Lifetime)
        ensures
            final(self)@ == drop(old(self)@, l),
            old(self).wf() ==> final(self).wf(),
    {
        let mut kept: Vec<(Ident, Slot)> = Vec::new();
        let n = self.0.len();
        for i in 0..n
            invariant
                n == self.0.len(),
                self@ == old(self)@,
                kept@.map_values(|e: (Ident, Slot)| (e.0@, e.1@)) == self@.subrange(0, i as int).filter(|e: (Seq<char>, SpecSlot)| e.1.lifetime != l),
        {
            let ghost before = kept@.map_values(|e: (Ident, Slot)| (e.0@, e.1@));
            proof {
                let sub = self@.subrange(0, i + 1);
                reveal(Seq::filter);
                assert(sub.drop_last() =~= self@.subrange(0, i as int));
                assert(sub.last() == self@[i as int]);
                assert(sub.filter(|e: (Seq<char>, SpecSlot)| e.1.lifetime != l) == if self@[i as int].1.lifetime != l {
                    before.push(self@[i as int])
                } else {
                    before
                });
            }
            if self.0[i].1.lifetime.0 != l.0 {
                kept.push((self.0[i].0.clone(), self.0[i].1.clone()));
                proof {
                    assert(kept@.map_values(|e: (Ident, Slot)| (e.0@, e.1@)) =~= before.push(self@[i as int]));
                }
            } else {
                assert(self@[i as int].1.lifetime == l);
            }
            assert(kept@.map_values(|e: (Ident, Slot)| (e.0@, e.1@)) =~= self@.subrange(0, i + 1).filter(|e: (Seq<char>, SpecSlot)| e.1.lifetime != l));
        }
        proof {
            assert(self@.subrange(0, n as int) =~= self@);
            if self.wf() {
                lemma_unique_filter(self@, |e: (Seq<char>, SpecSlot)| e.1.lifetime != l);
            }
        }
        self.0 = kept;
    }
}


/// The checker: the environment and the stack of open scopes.
#[derive(Clone, Debug, PartialEq, Default)]
pub struct Context {
    pub env: Env,
    pub lifetime_stack: Vec<Lifetime>,
}

impl Context {
    pub open spec fn view(&self) -> CheckState {
        CheckState { env: self.env@, stack: self.lifetime_stack@ }
    }

    /// No variable is bound twice.
    pub open spec fn wf(&self) -> bool {
        self.env.wf()
    }

    /// `l` contains `m` on the current stack of scopes.
    fn lifetime_contains(&self, l: Lifetime, m: Lifetime) -> (r: bool)
        ensures
            r == contains(self.lifetime_stack@, l, m),
    {
        if l.0 == 0 {
            return true;
        }
        let n = self.lifetime_stack.len();
        let mut i: usize = 0;
        while i < n && self.lifetime_stack[i].0 != l.0
            invariant
                i <= n,
                n == self.lifetime_stack.len(),
                forall|k: int| 0 <= k < i ==> self.lifetime_stack@[k] != l,
            decreases n - i,
        {
            i = i + 1;
        }
        if i == n {
            return false;
        }
        let mut j: usize = i;
        while j < n
            invariant
                i <= j <= n,
                n == self.lifetime_stack.len(),
                self.lifetime_stack@[i as int] == l,
                forall|k: int| 0 <= k < i ==> self.lifetime_stack@[k] != l,
                forall|k: int| i <= k < j ==> self.lifetime_stack@[k] != m,
            decreases n - j,
        {
            if self.lifetime_stack[j].0 == m.0 {
                return true;
            }
            j = j + 1;
        }
        false
    }

    /// Every reference in `tipe` targets a variable that lives at least as long as `l`.
    fn well_formed(&self, tipe: &Type, l: Lifetime) -> (r: bool)
        ensures
            r == well_formed(self@, tipe@, l),
        decreases tipe,
    {
        match tipe {
            Type::Box(inner) => self.well_formed(inner, l),
            Type::Undefined(inner) => self.well_formed(inner, l),
            Type::Ref(target, _) => match self.env.position(&target.ident) {
                Some(i) => self.lifetime_contains(self.env.0[i].1.lifetime, l),
                None => false,
            },
            _ => true,
        }
    }

    /// Checks a borrow of `lv`.
    fn type_borrow(&self, lv: &Lval, is_mut: bool) -> (r: TypeResult<Type>)
        ensures
            result_view(r, |t: Type| t@) == check_borrow(self@, lv@, is_mut),
    {
        let slot = match self.env.type_lval(lv) {
            Ok(slot) => slot,
            Err(e) => return Err(e),
        };
        if let Type::Undefined(_) = slot.tipe {
            return Err(Error::MovedOut(lv.clone()));
        }
        let n = self.lifetime_stack.len();
        if n > 0 {
            let block_lt = self.lifetime_stack[n - 1];
            if !self.lifetime_contains(slot.lifetime, block_lt) {
                return Err(Error::LifetimeTooShort(Expr::Borrow(lv.clone(), is_mut)));
            }
        }
        if is_mut {
            if !self.env.muut(lv) {
                return Err(Error::MutBorrowBehindImmRef(lv.clone()));
            }
            if self.env.borrowed(&lv.ident, false) {
                return Err(Error::MutBorrowAfterBorrow(lv.clone()));
            }
        } else if self.env.borrowed(&lv.ident, true) {
            return Err(Error::BorrowAfterMutBorrow(lv.clone()));
        }
        Ok(Type::Ref(lv.clone(), is_mut))
    }

    /// Checks `expr`, marking the reads that copy, and returns its type.
    pub fn type_expr(&mut self, expr: &mut Expr) -> (r: TypeResult<Type>)
        ensures
            (final(self)@, final(expr)@, result_view(r, |t: Type| t@)) == check_expr(old(self)@, old(expr)@),
            old(self).wf() ==> final(self).wf(),
        decreases *old(expr), 0nat,
    {
        let ghost e0 = *expr;
        match expr {
            Expr::Int(_) => Ok(Type::Int),
            Expr::Unit => Ok(Type::Unit),
            Expr::Lval(lv, _) => {
                let lv = lv.clone();
                let slot = match self.env.type_lval(&lv) {
                    Ok(slot) => slot,
                    Err(e) => return Err(e),
                };
                if slot.tipe.has_undef() {
                    return Err(Error::MovedOut(lv));
                }
                let is_copy = match slot.tipe {
                    Type::Int => true,
                    Type::Unit => true,
                    _ => false,
                };
                if is_copy {
                    if self.env.borrowed(&lv.ident, true) {
                        return Err(Error::CopyAfterMutBorrow(lv));
                    }
                    expr.make_copyable();
                    Ok(slot.tipe)
                } else {
                    if self.env.borrowed(&lv.ident, true) || self.env.borrowed(&lv.ident, false) {
                        return Err(Error::MoveAfterBorrow(lv));
                    }
                    match self.env.moove(&lv) {
                        Ok(()) => Ok(slot.tipe),
                        Err(e) => Err(e),
                    }
                }
            },
            Expr::Box(inner) => match self.type_expr(inner) {
                Ok(t) => Ok(Type::Box(Box::new(t))),
                Err(e) => Err(e),
            },
            Expr::Borrow(lv, is_mut) => self.type_borrow(lv, *is_mut),
            Expr::Block(stmts, final_e, lt) => {
                proof {
                    assert(decreases_to!(e0 => e0->Block_0));
                }
                self.lifetime_stack.push(*lt);
                proof {
                    lemma_view_stmts(*stmts, stmts.len() as nat);
                }
                let r = self.type_stmts(stmts);
                match r {
                    Ok(()) => {},
                    Err(e) => return Err(e),
                }
                let res = match self.type_expr(final_e) {
                    Ok(t) => t,
                    Err(e) => return Err(e),
                };
                if let Some(popped) = self.lifetime_stack.pop() {
                    self.env.drop(popped);
                }
                Ok(res)
            },
        }
    }

    /// Checks the statements of a block in order, stopping at the first error.
    fn type_stmts(&mut self, stmts: &mut Vec<Stmt>) -> (r: TypeResult<()>)
        ensures
            ({
                let (st, sv, res) = check_stmts(old(self)@, view_stmts(*old(stmts), old(stmts).len() as nat), old(stmts).len() as nat);
                &&& final(self)@ == st
                &&& view_stmts(*final(stmts), final(stmts).len() as nat) == sv
                &&& result_view(r, |u: ()| u) == res
            }),
            old(self).wf() ==> final(self).wf(),
        decreases *old(stmts), 1nat,
    {
        let ghost st1 = self@;
        let ghost orig = *stmts;
        let n = stmts.len();
        let ghost sv = view_stmts(orig, n as nat);
        proof {
            lemma_view_stmts(orig, n as nat);
        }
        for i in 0..n
            invariant
                n == stmts.len(),
                orig.len() == n,
                orig == *old(stmts),
                st1 == old(self)@,
                sv == view_stmts(orig, n as nat),
                sv.len() == n,
                forall|k: int| i <= k < n ==> stmts[k] == orig[k],
                check_stmts(st1, sv, i as nat) == (self@, view_stmts(*stmts, n as nat), Ok::<(), SpecError>(())),
                old(self).wf() ==> self.wf(),
        {
            let ghost vs = view_stmts(*stmts, n as nat);
            proof {
                assert(decreases_to!(orig => orig[i as int]));
                lemma_view_stmts(orig, n as nat);
                lemma_view_stmts(*stmts, n as nat);
                assert(sv[i as int] == orig[i as int]@);
                assert(vs[i as int] == sv[i as int]);
            }
            let r = self.type_stmt(&mut stmts[i]);
            proof {
                lemma_view_stmts(*stmts, n as nat);
                assert(view_stmts(*stmts, n as nat) =~= vs.update(i as int, stmts[i as int]@));
            }
            match r {
                Ok(()) => {},
                Err(e) => {
                    proof {
                        lemma_check_stmts_err(st1, sv, (i + 1) as nat, n as nat);
                    }
                    return Err(e);
                },
            }
        }
        Ok(())
    }

    /// Checks `stmt`, marking the reads that copy.
    pub fn type_stmt(&mut self, stmt: &mut Stmt) -> (r: TypeResult<()>)
        ensures
            (final(self)@, final(stmt)@, result_view(r, |u: ()| u)) == check_stmt(old(self)@, old(stmt)@),
            old(self).wf() ==> final(self).wf(),
        decreases *old(stmt), 0nat,
    {
        match stmt {
            Stmt::LetMut(var, rhs) => {
                if self.env.position(var).is_some() {
                    return Err(Error::Shadowing(var.clone()));
                }
                let rhs_ty = match self.type_expr(rhs) {
                    Ok(t) => t,
                    Err(e) => return Err(e),
                };
                if let Type::Undefined(_) = rhs_ty {
                    if let Expr::Lval(lv, _) = rhs {
                        return Err(Error::MovedOut(lv.clone()));
                    }
                }
                let fresh = self.fresh_lifetime();
                if !self.well_formed(&rhs_ty, fresh) {
                    return Err(Error::LifetimeTooShort(rhs.clone()));
                }
                self.env.insert(var.as_str(), rhs_ty, fresh);
                Ok(())
            },
            Stmt::Assign(lv, e) => {
                let rhs_ty = match self.type_expr(e) {
                    Ok(t) => t,
                    Err(err) => return Err(err),
                };
                if let Ok(p) = self.env.resolve(lv, self.env.0.len(), true) {
                    if !self.well_formed(&rhs_ty, p.slot.lifetime) {
                        return Err(Error::LifetimeTooShort(e.clone()));
                    }
                }
                self.env.write(lv, rhs_ty)
            },
            Stmt::Expr(e) => match self.type_expr(e) {
                Ok(_) => Ok(()),
                Err(err) => Err(err),
            },
        }
    }

    /// The lifetime of a variable declared now: the depth of the stack of scopes.
    pub fn fresh_lifetime(&self) -> (r: Lifetime)
        ensures
            r == Lifetime(self.lifetime_stack.len()),
    {
        Lifetime(self.lifetime_stack.len())
    }
}

} // verus!
