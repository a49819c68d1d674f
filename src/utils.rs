//! Abstract syntax shared by the checker and the evaluator.
use vstd::prelude::*;

verus! {

pub type Ident = String;

/// Whether an lvalue read copies (true) or moves (false) the value.
pub type Copyable = bool;

/// Whether a borrow or reference is mutable.
pub type Mutable = bool;

/// A lexical scope, named by its nesting depth; `Lifetime(0)` is the global scope.
#[derive(Debug, Clone, Copy, PartialEq, Eq, Hash, Structural)]
pub struct Lifetime(pub usize);

impl Lifetime {
    pub fn global() -> (r: Lifetime)
        ensures
            r == Lifetime(0),
    {
        Lifetime(0)
    }
}

/// A variable path: start at `ident` and dereference `derefs` times.
#[derive(Debug, PartialEq)]
pub struct Lval {
    pub ident: Ident,
    pub derefs: usize,
}

/// The mathematical content of an [`Lval`].
pub struct SpecLval {
    pub ident: Seq<char>,
    pub derefs: nat,
}

impl Lval {
    pub open spec fn view(&self) -> SpecLval {
        SpecLval { ident: self.ident@, derefs: self.derefs as nat }
    }

    /// The path from `ident` through `derefs` dereferences.
    pub fn new(ident: &str, derefs: usize) -> (r: Self)
        ensures
            r@ == (SpecLval { ident: ident@, derefs: derefs as nat }),
    {
        Lval { ident: ident.to_string(), derefs }
    }

    /// The variable `ident` itself, with no dereference.
    pub fn var(ident: &str) -> (r: Self)
        ensures
            r@ == (SpecLval { ident: ident@, derefs: 0 }),
    {
        Lval::new(ident, 0)
    }
}

impl Clone for Lval {
    fn clone(&self) -> (r: Self)
        ensures
            r == *self,
    {
        Lval { ident: self.ident.clone(), derefs: self.derefs }
    }
}


/// The index of the first entry of `s` whose key is `id`, or -1 when there is none.
pub open spec fn index_of<V>(s: Seq<(Seq<char>, V)>, id: Seq<char>) -> int {
    if exists|i: int| is_first(s, id, i) {
        choose|i: int| is_first(s, id, i)
    } else {
        -1
    }
}

/// Entry `i` of `s` has key `id`, and no earlier entry has.
pub open spec fn is_first<V>(s: Seq<(Seq<char>, V)>, id: Seq<char>, i: int) -> bool {
    &&& 0 <= i < s.len()
    &&& s[i].0 == id
    &&& forall|j: int| 0 <= j < i ==> s[j].0 != id
}

/// `index_of` is the first index that holds the key.
pub proof fn lemma_index_of<V>(s: Seq<(Seq<char>, V)>, id: Seq<char>, i: int)
    requires
        is_first(s, id, i),
    ensures
        index_of(s, id) == i,
{
    let k = choose|k: int| is_first(s, id, k);
    assert(is_first(s, id, k));
    if k < i {
        assert(s[k].0 != id);
    } else if i < k {
        assert(s[i].0 != id);
    }
}

/// A key that no entry holds has no index.
pub proof fn lemma_index_of_absent<V>(s: Seq<(Seq<char>, V)>, id: Seq<char>)
    requires
        forall|j: int| 0 <= j < s.len() ==> s[j].0 != id,
    ensures
        index_of(s, id) == -1,
{
}

/// A key that some entry holds has an index, at or before that entry.
pub proof fn lemma_index_of_found<V>(s: Seq<(Seq<char>, V)>, id: Seq<char>, j: int)
    requires
        0 <= j < s.len(),
        s[j].0 == id,
    ensures
        0 <= index_of(s, id) <= j,
        is_first(s, id, index_of(s, id)),
    decreases j,
{
    if exists|k: int| 0 <= k < j && s[k].0 == id {
        let k = choose|k: int| 0 <= k < j && s[k].0 == id;
        lemma_index_of_found(s, id, k);
    } else {
        assert(is_first(s, id, j));
        lemma_index_of(s, id, j);
    }
}

/// Two sequences with the same keys in the same order find every key at the same index.
pub proof fn lemma_index_of_same_keys<V, W>(s1: Seq<(Seq<char>, V)>, s2: Seq<(Seq<char>, W)>, id: Seq<char>)
    requires
        s1.len() == s2.len(),
        forall|j: int| 0 <= j < s1.len() ==> s1[j].0 == s2[j].0,
    ensures
        index_of(s1, id) == index_of(s2, id),
{
    if exists|i: int| is_first(s1, id, i) {
        let i = choose|i: int| is_first(s1, id, i);
        assert(is_first(s2, id, i));
        lemma_index_of(s1, id, i);
        lemma_index_of(s2, id, i);
    } else if exists|i: int| is_first(s2, id, i) {
        let i = choose|i: int| is_first(s2, id, i);
        assert(is_first(s1, id, i));
    }
}

/// No two entries of `s` share a key.
pub open spec fn unique_keys<V>(s: Seq<(Seq<char>, V)>) -> bool {
    forall|i: int, j: int| 0 <= i < j < s.len() ==> s[i].0 != s[j].0
}

/// A key without an index is held by no entry.
pub proof fn lemma_index_of_none<V>(s: Seq<(Seq<char>, V)>, id: Seq<char>)
    requires
        index_of(s, id) == -1,
    ensures
        forall|j: int| 0 <= j < s.len() ==> s[j].0 != id,
{
    assert forall|j: int| 0 <= j < s.len() implies s[j].0 != id by {
        if s[j].0 == id {
            lemma_index_of_found(s, id, j);
        }
    }
}

/// Removing an entry keeps the keys distinct.
pub proof fn lemma_unique_remove<V>(s: Seq<(Seq<char>, V)>, i: int)
    requires
        unique_keys(s),
        0 <= i < s.len(),
    ensures
        unique_keys(s.remove(i)),
{
    let r = s.remove(i);
    assert forall|a: int, b: int| 0 <= a < b < r.len() implies r[a].0 != r[b].0 by {
        let a2 = if a < i { a } else { a + 1 };
        let b2 = if b < i { b } else { b + 1 };
        assert(r[a] == s[a2]);
        assert(r[b] == s[b2]);
    }
}

/// Keeping some of the entries, in order, keeps the keys distinct.
pub proof fn lemma_unique_filter<V>(s: Seq<(Seq<char>, V)>, p: spec_fn((Seq<char>, V)) -> bool)
    requires
        unique_keys(s),
    ensures
        unique_keys(s.filter(p)),
    decreases s.len(),
{
    reveal(Seq::filter);
    if s.len() > 0 {
        let rest = s.drop_last();
        assert(unique_keys(rest));
        lemma_unique_filter(rest, p);
        let f = rest.filter(p);
        if p(s.last()) {
            assert forall|a: int| 0 <= a < f.len() implies f[a].0 != s.last().0 by {
                assert(f.contains(f[a]));
                rest.lemma_filter_contains_rev(p, f[a]);
                let m = choose|m: int| 0 <= m < rest.len() && rest[m] == f[a];
                assert(s[m] == rest[m]);
            }
            let g = f.push(s.last());
            assert forall|a: int, b: int| 0 <= a < b < g.len() implies g[a].0 != g[b].0 by {
                if b == f.len() {
                    assert(g[a] == f[a]);
                } else {
                    assert(g[a] == f[a] && g[b] == f[b]);
                }
            }
        }
    }
}

/// Expressions of the core language.
#[derive(Debug, PartialEq)]
pub enum Expr {
    Unit,
    Int(i32),
    Lval(Lval, Copyable),
    Box(Box<Expr>),
    Borrow(Lval, Mutable),
    Block(Vec<Stmt>, Box<Expr>, Lifetime),
}

/// Statements of the core language.
#[derive(Debug, PartialEq)]
pub enum Stmt {
    Assign(Lval, Expr),
    LetMut(Ident, Expr),
    Expr(Expr),
}

/// The mathematical content of an [`Expr`].
pub enum SpecExpr {
    Unit,
    Int(i32),
    Lval(SpecLval, bool),
    Box(Box<SpecExpr>),
    Borrow(SpecLval, bool),
    Block(Seq<SpecStmt>, Box<SpecExpr>, Lifetime),
}

/// The mathematical content of a [`Stmt`].
pub enum SpecStmt {
    Assign(SpecLval, SpecExpr),
    LetMut(Seq<char>, SpecExpr),
    Expr(SpecExpr),
}

impl Expr {
    pub open spec fn view(&self) -> SpecExpr
        decreases self, 0nat,
    {
        match self {
            Expr::Unit => SpecExpr::Unit,
            Expr::Int(n) => SpecExpr::Int(*n),
            Expr::Lval(lv, c) => SpecExpr::Lval(lv@, *c),
            Expr::Box(inner) => SpecExpr::Box(Box::new(inner.view())),
            Expr::Borrow(lv, m) => SpecExpr::Borrow(lv@, *m),
            Expr::Block(stmts, tail, lt) => SpecExpr::Block(
                view_stmts(*stmts, stmts.len() as nat),
                Box::new(tail.view()),
                *lt,
            ),
        }
    }

    pub fn boxx(inner: Expr) -> (r: Expr)
        ensures
            r@ == SpecExpr::Box(Box::new(inner@)),
    {
        Expr::Box(Box::new(inner))
    }

    pub fn block(stmts: Vec<Stmt>, final_expr: Expr, lifetime: Lifetime) -> (r: Expr)
        ensures
            r@ == SpecExpr::Block(view_stmts(stmts, stmts.len() as nat), Box::new(final_expr@), lifetime),
    {
        Expr::Block(stmts, Box::new(final_expr), lifetime)
    }

    /// Marks an lvalue read as a copy; any other expression is left as it is.
    pub fn make_copyable(&mut self)
        ensures
            final(self)@ == match old(self)@ {
                SpecExpr::Lval(lv, _) => SpecExpr::Lval(lv, true),
                e => e,
            },
    {
        if let Expr::Lval(_, c) = self {
            *c = true;
        }
    }
}

impl Clone for Expr {
    fn clone(&self) -> (r: Self)
        ensures
            r@ == self@,
        decreases self, 0nat,
    {
        match self {
            Expr::Unit => Expr::Unit,
            Expr::Int(n) => Expr::Int(*n),
            Expr::Lval(lv, c) => Expr::Lval(lv.clone(), *c),
            Expr::Box(inner) => Expr::Box(Box::new((**inner).clone())),
            Expr::Borrow(lv, m) => Expr::Borrow(lv.clone(), *m),
            Expr::Block(stmts, tail, lt) => {
                let mut copy: Vec<Stmt> = Vec::new();
                let n = stmts.len();
                for i in 0..n
                    invariant
                        n == stmts.len(),
                        copy.len() == i,
                        *self == Expr::Block(*stmts, *tail, *lt),
                        forall|j: int| 0 <= j < i ==> copy[j]@ == #[trigger] stmts[j]@,
                {
                    proof {
                        assert(decreases_to!(*stmts => stmts[i as int]));
                        assert(decreases_to!(*self => (*self)->Block_0));
                        assert(decreases_to!(*self, 0nat => stmts[i as int], 0nat));
                    }
                    copy.push(stmts[i].clone());
                }
                proof {
                    lemma_view_stmts(copy, n as nat);
                    lemma_view_stmts(*stmts, n as nat);
                    assert(view_stmts(copy, n as nat) =~= view_stmts(*stmts, n as nat));
                }
                Expr::Block(copy, Box::new((**tail).clone()), *lt)
            },
        }
    }
}

impl Clone for Stmt {
    fn clone(&self) -> (r: Self)
        ensures
            r@ == self@,
        decreases self, 0nat,
    {
        match self {
            Stmt::Assign(lv, e) => Stmt::Assign(lv.clone(), e.clone()),
            Stmt::LetMut(x, e) => Stmt::LetMut(x.clone(), e.clone()),
            Stmt::Expr(e) => Stmt::Expr(e.clone()),
        }
    }
}

/// The views of the first `n` statements, one by one.
pub proof fn lemma_view_stmts(stmts: Vec<Stmt>, n: nat)
    requires
        n <= stmts.len(),
    ensures
        view_stmts(stmts, n).len() == n,
        forall|i: int| 0 <= i < n ==> #[trigger] view_stmts(stmts, n)[i] == stmts[i]@,
    decreases n,
{
    if n > 0 {
        lemma_view_stmts(stmts, (n - 1) as nat);
    }
}

/// The views of the first `n` statements of `stmts`.
pub open spec fn view_stmts(stmts: Vec<Stmt>, n: nat) -> Seq<SpecStmt>
    decreases stmts, n,
{
    if n == 0 || n > stmts.len() {
        Seq::empty()
    } else {
        view_stmts(stmts, (n - 1) as nat).push(stmts[n - 1].view())
    }
}

impl Stmt {
    pub open spec fn view(&self) -> SpecStmt
        decreases self, 0nat,
    {
        match self {
            Stmt::Assign(lv, e) => SpecStmt::Assign(lv@, e.view()),
            Stmt::LetMut(x, e) => SpecStmt::LetMut(x@, e.view()),
            Stmt::Expr(e) => SpecStmt::Expr(e.view()),
        }
    }
}

} // verus!
