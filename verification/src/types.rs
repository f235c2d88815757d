//! Ownership and borrow checking: typing environments, typing of lvalues,
//! and the type checker for expressions and statements.
use vstd::prelude::*;
use crate::entries::{
    find_from, lookup, insert_entry, names_unique, lemma_insert_unique, same_bindings, covered_by,
    lemma_same_bindings,
};
use vstd::std_specs::cmp::PartialEqSpecImpl;
use crate::utils::{Lifetime, Ident, Lval, LvalV, Mutable, Copyable, Expr, ExprV, Stmt, StmtV, Type, TypeV, stmts_view};

verus! {

/// A typing slot: the type held by a variable and the lifetime of its scope.
#[derive(Debug, PartialEq)]
pub struct Slot {
    pub tipe: Type,
    pub lifetime: Lifetime,
}

/// The mathematical view of a typing slot.
pub struct SlotV {
    pub tipe: TypeV,
    pub lifetime: nat,
}

impl View for Slot {
    type V = SlotV;

    open spec fn view(&self) -> SlotV {
        SlotV { tipe: self.tipe@, lifetime: self.lifetime.0 as nat }
    }
}

impl Slot {
    /// A copy of this slot.
    pub fn duplicate(&self) -> (s: Slot)
        ensures
            s@ == self@,
    {
        Slot { tipe: self.tipe.duplicate(), lifetime: self.lifetime }
    }
}

impl Clone for Slot {
    fn clone(&self) -> (s: Self)
        ensures
            s@ == self@,
    {
        self.duplicate()
    }
}

/// Type errors.
#[derive(Debug, PartialEq)]
pub enum Error {
    CopyAfterMutBorrow(Lval),
    MoveAfterBorrow(Lval),
    MoveBehindRef(Lval),
    CannotDeref(Type),
    MovedOut(Lval),
    BorrowAfterMutBorrow(Lval),
    MutBorrowAfterBorrow(Lval),
    MutBorrowBehindImmRef(Lval),
    Shadowing(Ident),
    IncompatibleTypes(Type, Type),
    AssignAfterBorrow(Lval),
    UnknownVar(Ident),
    UpdateBehindImmRef(Lval),
    LifetimeTooShort(Expr),
}

/// The mathematical view of a type error.
pub enum ErrorV {
    CopyAfterMutBorrow(LvalV),
    MoveAfterBorrow(LvalV),
    MoveBehindRef(LvalV),
    CannotDeref(TypeV),
    MovedOut(LvalV),
    BorrowAfterMutBorrow(LvalV),
    MutBorrowAfterBorrow(LvalV),
    MutBorrowBehindImmRef(LvalV),
    Shadowing(Seq<char>),
    IncompatibleTypes(TypeV, TypeV),
    AssignAfterBorrow(LvalV),
    UnknownVar(Seq<char>),
    UpdateBehindImmRef(LvalV),
    LifetimeTooShort(ExprV),
}

impl View for Error {
    type V = ErrorV;

    open spec fn view(&self) -> ErrorV {
        match self {
            Error::CopyAfterMutBorrow(w) => ErrorV::CopyAfterMutBorrow(w@),
            Error::MoveAfterBorrow(w) => ErrorV::MoveAfterBorrow(w@),
            Error::MoveBehindRef(w) => ErrorV::MoveBehindRef(w@),
            Error::CannotDeref(t) => ErrorV::CannotDeref(t@),
            Error::MovedOut(w) => ErrorV::MovedOut(w@),
            Error::BorrowAfterMutBorrow(w) => ErrorV::BorrowAfterMutBorrow(w@),
            Error::MutBorrowAfterBorrow(w) => ErrorV::MutBorrowAfterBorrow(w@),
            Error::MutBorrowBehindImmRef(w) => ErrorV::MutBorrowBehindImmRef(w@),
            Error::Shadowing(x) => ErrorV::Shadowing(x@),
            Error::IncompatibleTypes(t1, t2) => ErrorV::IncompatibleTypes(t1@, t2@),
            Error::AssignAfterBorrow(w) => ErrorV::AssignAfterBorrow(w@),
            Error::UnknownVar(x) => ErrorV::UnknownVar(x@),
            Error::UpdateBehindImmRef(w) => ErrorV::UpdateBehindImmRef(w@),
            Error::LifetimeTooShort(e) => ErrorV::LifetimeTooShort(e@),
        }
    }
}

// ---------------------------------------------------------------------------
// Environments
// ---------------------------------------------------------------------------

/// The view of an environment: its entries, in order.
pub type EnvV = Seq<(Seq<char>, SlotV)>;

/// A typing environment: variables with their slots. Lookups see the first
/// entry of a name; insertion replaces that entry, so names stay unique. Two
/// environments are equal when they bind every name alike, in whatever order.
#[derive(Debug)]
pub struct Env(pub Vec<(Ident, Slot)>);

pub open spec fn entries_view(v: Seq<(Ident, Slot)>) -> EnvV {
    Seq::new(v.len(), |i: int| (v[i].0@, v[i].1@))
}

impl View for Env {
    type V = EnvV;

    open spec fn view(&self) -> EnvV {
        entries_view(self.0@)
    }
}

/// Removes every variable of lifetime `l`, keeping the others in order.
pub open spec fn drop_lifetime(env: EnvV, l: nat) -> EnvV
    decreases env.len(),
{
    if env.len() == 0 {
        env
    } else {
        let r = drop_lifetime(env.drop_last(), l);
        if env.last().1.lifetime == l {
            r
        } else {
            r.push(env.last())
        }
    }
}

impl Clone for Env {
    fn clone(&self) -> (r: Self)
        ensures
            r@ == self@,
    {
        let mut v: Vec<(Ident, Slot)> = Vec::new();
        let mut i: usize = 0;
        while i < self.0.len()
            invariant
                i <= self.0.len(),
                entries_view(v@) =~= self@.take(i as int),
            decreases self.0.len() - i,
        {
            let k = self.0[i].0.clone();
            let s = self.0[i].1.duplicate();
            assert(k@ == self@[i as int].0);
            assert(s@ == self@[i as int].1);
            let ghost before = v@;
            v.push((k, s));
            assert(entries_view(v@) =~= entries_view(before).push(self@[i as int]));
            assert(self@.take(i + 1) =~= self@.take(i as int).push(self@[i as int]));
            i = i + 1;
        }
        assert(self@.take(self@.len() as int) =~= self@);
        Env(v)
    }
}

impl Slot {
    /// Whether two slots are the same.
    pub fn same(&self, other: &Slot) -> (b: bool)
        ensures
            b == (self@ == other@),
    {
        self.lifetime.0 == other.lifetime.0 && self.tipe.same(&other.tipe)
    }
}

impl Env {
    /// Whether each variable of `self` is bound in `other` as in `self`.
    fn covered_by(&self, other: &Env) -> (b: bool)
        ensures
            b == covered_by(self@, other@),
    {
        let mut i: usize = 0;
        while i < self.0.len()
            invariant
                i <= self.0.len(),
                forall|j: int| 0 <= j < i ==> lookup(other@, #[trigger] self@[j].0) == lookup(self@, self@[j].0),
            decreases self.0.len() - i,
        {
            let k = &self.0[i].0;
            let a = self.get(k.as_str());
            let b = other.get(k.as_str());
            let agree = match (a, b) {
                (Some(x), Some(y)) => x.same(y),
                (None, None) => true,
                _ => false,
            };
            if !agree {
                assert(lookup(other@, self@[i as int].0) != lookup(self@, self@[i as int].0));
                return false;
            }
            i = i + 1;
        }
        true
    }
}

impl PartialEq for Env {
    fn eq(&self, other: &Env) -> (r: bool) {
        proof {
            lemma_same_bindings(self@, other@);
        }
        self.covered_by(other) && other.covered_by(self)
    }
}

impl PartialEqSpecImpl for Env {
    open spec fn obeys_eq_spec() -> bool {
        true
    }

    open spec fn eq_spec(&self, other: &Env) -> bool {
        same_bindings(self@, other@)
    }
}

impl Env {
    /// The empty environment.
    pub fn default() -> (env: Env)
        ensures
            env@ == Seq::<(Seq<char>, SlotV)>::empty(),
            names_unique(env@),
    {
        Env(Vec::new())
    }

    /// The index of the entry of `x`, if any.
    fn find(&self, x: &Ident) -> (r: Option<usize>)
        ensures
            r matches Some(i) ==> i < self@.len() && find_from(self@, x@, 0) == Some(i as int),
            r is None ==> find_from(self@, x@, 0) is None,
    {
        let mut i: usize = 0;
        while i < self.0.len()
            invariant
                i <= self.0.len(),
                find_from(self@, x@, 0) == find_from(self@, x@, i as int),
            decreases self.0.len() - i,
        {
            if self.0[i].0 == *x {
                return Some(i);
            }
            i = i + 1;
        }
        None
    }

    /// The slot of `x`, if `x` is bound.
    pub fn get(&self, x: &str) -> (r: Option<&Slot>)
        ensures
            match lookup(self@, x@) {
                Some(s) => r matches Some(rs) && rs@ == s,
                None => r is None,
            },
    {
        let key = x.to_owned();
        match self.find(&key) {
            Some(i) => Some(&self.0[i].1),
            None => None,
        }
    }

    /// Binds the variable named `key` to `slot`.
    fn insert_slot(&mut self, key: Ident, slot: Slot)
        ensures
            final(self)@ == insert_entry(old(self)@, key@, slot@),
    {
        let ghost k = key@;
        let ghost s = slot@;
        match self.find(&key) {
            Some(i) => {
                self.0.set(i, (key, slot));
                assert(self@ =~= old(self)@.update(i as int, (k, s)));
            },
            None => {
                self.0.push((key, slot));
                assert(self@ =~= old(self)@.push((k, s)));
            },
        }
    }

    /// Binds variable `x` to type `tipe` with lifetime `l`.
    pub fn insert(&mut self, x: &str, tipe: Type, l: Lifetime)
        ensures
            final(self)@ == insert_entry(old(self)@, x@, SlotV { tipe: tipe@, lifetime: l.0 as nat }),
            names_unique(old(self)@) ==> names_unique(final(self)@),
    {
        proof {
            if names_unique(self@) {
                lemma_insert_unique(self@, x@, SlotV { tipe: tipe@, lifetime: l.0 as nat });
            }
        }
        self.insert_slot(x.to_owned(), Slot { tipe, lifetime: l });
    }

    /// Removes every variable whose lifetime is `l`.
    pub fn drop(&mut self, l: Lifetime)
        ensures
            final(self)@ == drop_lifetime(old(self)@, l.0 as nat),
            names_unique(old(self)@) ==> names_unique(final(self)@),
    {
        let ghost before = self@;
        let mut v: Vec<(Ident, Slot)> = Vec::new();
        let mut i: usize = 0;
        while i < self.0.len()
            invariant
                i <= self.0.len(),
                entries_view(v@) == drop_lifetime(self@.take(i as int), l.0 as nat),
            decreases self.0.len() - i,
        {
            proof {
                assert(self@.take(i + 1).drop_last() =~= self@.take(i as int));
            }
            if self.0[i].1.lifetime.0 != l.0 {
                let k = self.0[i].0.clone();
                let s = self.0[i].1.duplicate();
                let ghost before = v@;
                v.push((k, s));
                assert(entries_view(v@) =~= entries_view(before).push(self@[i as int]));
            }
            i = i + 1;
        }
        assert(self@.take(self@.len() as int) =~= self@);
        self.0 = v;
        proof {
            if names_unique(before) {
                crate::properties::law_drop_lookup(before, l.0 as nat, Seq::empty());
            }
        }
    }
}


// ---------------------------------------------------------------------------
// Typing lvalues
// ---------------------------------------------------------------------------

/// Why an lvalue has no type.
pub enum WalkErr {
    Unknown(Seq<char>),
    Moved,
    NoDeref(TypeV),
}

/// The error reported for lvalue `w` when its typing fails for `e`.
pub open spec fn walk_err_view(e: WalkErr, w: LvalV) -> ErrorV {
    match e {
        WalkErr::Unknown(x) => ErrorV::UnknownVar(x),
        WalkErr::Moved => ErrorV::MovedOut(w),
        WalkErr::NoDeref(t) => ErrorV::CannotDeref(t),
    }
}

/// Types `*...*x` (`n` dereferences): the type at that place, the lifetime of the
/// variable that holds it, and whether every reference passed on the way is
/// mutable. A box is dereferenced to its content; a reference to the place it
/// borrows, which is typed in turn. `fuel` bounds how deeply references are
/// followed: `None` means that it ran out.
pub open spec fn tl(env: EnvV, x: Seq<char>, n: nat, fuel: nat) -> Option<Result<(TypeV, nat, bool), WalkErr>>
    decreases fuel, n,
{
    if n == 0 {
        match lookup(env, x) {
            Some(s) => Some(Ok((s.tipe, s.lifetime, true))),
            None => Some(Err(WalkErr::Unknown(x))),
        }
    } else {
        match tl(env, x, (n - 1) as nat, fuel) {
            None => None,
            Some(Err(e)) => Some(Err(e)),
            Some(Ok((t, l, m))) => match t {
                TypeV::TBox(b) => Some(Ok((*b, l, m))),
                TypeV::Ref(u, mu) => if fuel == 0 {
                    None
                } else {
                    match tl(env, u.ident, u.derefs, (fuel - 1) as nat) {
                        None => None,
                        Some(Err(e)) => Some(Err(e)),
                        Some(Ok((t2, l2, m2))) => Some(Ok((t2, l2, m && m2 && mu == Mutable::Yes))),
                    }
                },
                TypeV::Undefined(_) => Some(Err(WalkErr::Moved)),
                _ => Some(Err(WalkErr::NoDeref(t))),
            },
        }
    }
}

/// Typing `w` terminates: following its references never loops.
pub open spec fn lval_resolves(env: EnvV, w: LvalV) -> bool {
    exists|f: nat| #[trigger] tl(env, w.ident, w.derefs, f) is Some
}

pub open spec fn lval_fuel(env: EnvV, w: LvalV) -> nat {
    choose|f: nat| #[trigger] tl(env, w.ident, w.derefs, f) is Some
}

/// The outcome of typing `w` (meaningful when `lval_resolves`).
pub open spec fn lval_outcome(env: EnvV, w: LvalV) -> Result<(TypeV, nat, bool), WalkErr> {
    tl(env, w.ident, w.derefs, lval_fuel(env, w))->0
}

/// The slot of lvalue `w`: its type and the lifetime of the variable holding it.
pub open spec fn type_lval_spec(env: EnvV, w: LvalV) -> Result<SlotV, ErrorV> {
    match lval_outcome(env, w) {
        Ok((t, l, _)) => Ok(SlotV { tipe: t, lifetime: l }),
        Err(e) => Err(walk_err_view(e, w)),
    }
}

/// `w` is mutable: it has a type and no immutable reference lies on its path.
pub open spec fn muut_spec(env: EnvV, w: LvalV) -> bool {
    lval_outcome(env, w) matches Ok((_, _, m)) && m
}

pub open spec fn slot_result_view(r: Result<Slot, Error>) -> Result<SlotV, ErrorV> {
    match r {
        Ok(s) => Ok(s@),
        Err(e) => Err(e@),
    }
}

pub open spec fn unit_result_view(r: Result<(), Error>) -> Result<(), ErrorV> {
    match r {
        Ok(()) => Ok(()),
        Err(e) => Err(e@),
    }
}

pub open spec fn type_result_view(r: Result<Type, Error>) -> Result<TypeV, ErrorV> {
    match r {
        Ok(t) => Ok(t@),
        Err(e) => Err(e@),
    }
}

/// Writes type `t` at place `*...*x` (`n` dereferences): through a box the box
/// is rewritten around `t`; through a reference the borrowed place is written.
pub open spec fn wr(env: EnvV, x: Seq<char>, n: nat, t: TypeV, fuel: nat) -> Option<Result<EnvV, WalkErr>>
    decreases fuel, n,
{
    if n == 0 {
        match lookup(env, x) {
            Some(s) => Some(Ok(insert_entry(env, x, SlotV { tipe: t, lifetime: s.lifetime }))),
            None => Some(Err(WalkErr::Unknown(x))),
        }
    } else {
        match tl(env, x, (n - 1) as nat, fuel) {
            None => None,
            Some(Err(e)) => Some(Err(e)),
            Some(Ok((pt, _, _))) => match pt {
                TypeV::TBox(_) => wr(env, x, (n - 1) as nat, TypeV::TBox(Box::new(t)), fuel),
                TypeV::Ref(u, _) => if fuel == 0 {
                    None
                } else {
                    wr(env, u.ident, u.derefs, t, (fuel - 1) as nat)
                },
                TypeV::Undefined(_) => Some(Err(WalkErr::Moved)),
                _ => Some(Err(WalkErr::NoDeref(pt))),
            },
        }
    }
}

/// Writing at `w` terminates.
pub open spec fn write_resolves(env: EnvV, w: LvalV, t: TypeV) -> bool {
    exists|f: nat| #[trigger] wr(env, w.ident, w.derefs, t, f) is Some
}

/// The environment after writing `t` at `w`, or why `w` cannot be written.
pub open spec fn write_spec(env: EnvV, w: LvalV, t: TypeV) -> Result<EnvV, ErrorV> {
    match wr(env, w.ident, w.derefs, t, choose|f: nat| #[trigger] wr(env, w.ident, w.derefs, t, f) is Some)->0 {
        Ok(e) => Ok(e),
        Err(e) => Err(walk_err_view(e, w)),
    }
}

/// How `k` dereferences go through the boxes of a type.
pub enum Step {
    /// All `k` dereferences went through boxes.
    Arrive,
    /// A reference was met before the end.
    Through,
    /// A moved-out place was met before the end.
    Moved,
    /// A type that cannot be dereferenced was met before the end.
    NoDeref(TypeV),
}

pub open spec fn walk_boxes(t: TypeV, k: nat) -> Step
    decreases k,
{
    if k == 0 {
        Step::Arrive
    } else {
        match t {
            TypeV::TBox(b) => walk_boxes(*b, (k - 1) as nat),
            TypeV::Ref(_, _) => Step::Through,
            TypeV::Undefined(_) => Step::Moved,
            _ => Step::NoDeref(t),
        }
    }
}

/// Marks the place `k` boxes deep in `t` as moved out.
pub open spec fn wrap_at(t: TypeV, k: nat) -> TypeV
    decreases k,
{
    if k == 0 {
        TypeV::Undefined(Box::new(t))
    } else {
        match t {
            TypeV::TBox(b) => TypeV::TBox(Box::new(wrap_at(*b, (k - 1) as nat))),
            _ => t,
        }
    }
}

/// The environment after moving out of `w`, or why one cannot move out of `w`.
pub open spec fn moove_spec(env: EnvV, w: LvalV) -> Result<EnvV, ErrorV> {
    match lookup(env, w.ident) {
        None => Err(ErrorV::UnknownVar(w.ident)),
        Some(s) => match walk_boxes(s.tipe, w.derefs) {
            Step::Arrive => Ok(
                insert_entry(env, w.ident, SlotV { tipe: wrap_at(s.tipe, w.derefs), lifetime: s.lifetime }),
            ),
            Step::Through => Err(ErrorV::MoveBehindRef(w)),
            Step::Moved => Err(ErrorV::MovedOut(w)),
            Step::NoDeref(t) => Err(ErrorV::CannotDeref(t)),
        },
    }
}

/// The type inside the boxes of `t`, unless what they hold was moved out.
pub open spec fn contained_spec(t: TypeV) -> Option<TypeV>
    decreases t,
{
    match t {
        TypeV::TBox(b) => contained_spec(*b),
        TypeV::Undefined(_) => None,
        _ => Some(t),
    }
}

/// Entry `i` of `env` holds a borrow (a mutable one, if `mut_only`) of a place of variable `x`.
pub open spec fn holds_borrow(env: EnvV, i: int, x: Seq<char>, mut_only: bool) -> bool {
    contained_spec(env[i].1.tipe) matches Some(TypeV::Ref(u, m)) && u.ident == x && (!mut_only
        || m == Mutable::Yes)
}

/// Some variable holds a mutable borrow conflicting with `w` (one of the same variable).
pub open spec fn read_prohibited_spec(env: EnvV, w: LvalV) -> bool {
    exists|i: int| 0 <= i < env.len() && #[trigger] holds_borrow(env, i, w.ident, true)
}

/// Some variable holds a borrow conflicting with `w`.
pub open spec fn write_prohibited_spec(env: EnvV, w: LvalV) -> bool {
    exists|i: int| 0 <= i < env.len() && #[trigger] holds_borrow(env, i, w.ident, false)
}

/// Whether `t1` and `t2` have the same shape, once moved-out marks are ignored:
/// references must agree in mutability and borrow places of compatible types.
/// `fuel` bounds how deeply references are followed.
pub open spec fn compat(env: EnvV, t1: TypeV, t2: TypeV, fuel: nat) -> Option<bool>
    decreases fuel, t1, t2,
{
    match (t1, t2) {
        (TypeV::Undefined(a), _) => compat(env, *a, t2, fuel),
        (_, TypeV::Undefined(b)) => compat(env, t1, *b, fuel),
        (TypeV::Unit, TypeV::Unit) => Some(true),
        (TypeV::Int, TypeV::Int) => Some(true),
        (TypeV::TBox(a), TypeV::TBox(b)) => compat(env, *a, *b, fuel),
        (TypeV::Ref(u1, m1), TypeV::Ref(u2, m2)) => if m1 != m2 {
            Some(false)
        } else if !lval_resolves(env, u1) {
            None
        } else {
            match type_lval_spec(env, u1) {
                Err(_) => Some(false),
                Ok(s1) => if !lval_resolves(env, u2) {
                    None
                } else {
                    match type_lval_spec(env, u2) {
                        Err(_) => Some(false),
                        Ok(s2) => if fuel == 0 {
                            None
                        } else {
                            compat(env, s1.tipe, s2.tipe, (fuel - 1) as nat)
                        },
                    }
                },
            }
        },
        _ => Some(false),
    }
}

/// Comparing `t1` with `t2` terminates.
pub open spec fn compat_resolves(env: EnvV, t1: TypeV, t2: TypeV) -> bool {
    exists|f: nat| #[trigger] compat(env, t1, t2, f) is Some
}

pub open spec fn compatible_spec(env: EnvV, t1: TypeV, t2: TypeV) -> bool {
    compat(env, t1, t2, choose|f: nat| #[trigger] compat(env, t1, t2, f) is Some)->0
}

/// Whether a value of type `t` may be stored in a place of lifetime `l`: what it
/// borrows lives at least as long (a smaller lifetime number is a longer lifetime).
/// `None` when typing the borrowed place does not terminate.
pub open spec fn wf_spec(env: EnvV, t: TypeV, l: nat) -> Option<bool> {
    match contained_spec(t) {
        Some(TypeV::Ref(u, _)) => if lval_resolves(env, u) {
            Some(
                match type_lval_spec(env, u) {
                    Ok(s) => s.lifetime <= l,
                    Err(_) => false,
                },
            )
        } else {
            None
        },
        _ => Some(true),
    }
}

/// The contents of a type's boxes, unless moved out.
fn contained_type(t: &Type) -> (r: Option<&Type>)
    ensures
        match contained_spec(t@) {
            Some(c) => r matches Some(rc) && rc@ == c,
            None => r is None,
        },
    decreases t,
{
    match t {
        Type::TBox(b) => contained_type(&**b),
        Type::Undefined(_) => None,
        _ => Some(t),
    }
}

impl Env {
    /// Types `*...*x` following the definition of `tl`.
    fn tl_rec<'a>(&'a self, x: &Ident, n: usize, w: &Lval, Ghost(fuel): Ghost<nat>) -> (r: Result<
        (&'a Type, Lifetime, bool),
        Error,
    >)
        requires
            tl(self@, x@, n as nat, fuel) is Some,
        ensures
            match tl(self@, x@, n as nat, fuel)->0 {
                Ok((t, l, m)) => r matches Ok((rt, rl, rm)) && rt@ == t && rl.0 == l && rm == m,
                Err(e) => r matches Err(re) && re@ == walk_err_view(e, w@),
            },
        decreases fuel, n,
    {
        if n == 0 {
            match self.find(x) {
                Some(i) => Ok((&self.0[i].1.tipe, self.0[i].1.lifetime, true)),
                None => Err(Error::UnknownVar(x.clone())),
            }
        } else {
            let (t, l, m) = match self.tl_rec(x, n - 1, w, Ghost(fuel)) {
                Ok(res) => res,
                Err(e) => {
                    return Err(e);
                },
            };
            match t {
                Type::TBox(b) => Ok((&**b, l, m)),
                Type::Ref(u, mu) => {
                    match self.tl_rec(&u.ident, u.derefs, w, Ghost((fuel - 1) as nat)) {
                        Ok((t2, l2, m2)) => Ok((t2, l2, m && m2 && *mu == Mutable::Yes)),
                        Err(e) => Err(e),
                    }
                },
                Type::Undefined(_) => Err(Error::MovedOut(w.duplicate())),
                _ => Err(Error::CannotDeref(t.duplicate())),
            }
        }
    }

    /// The slot of lvalue `w`: its type, and the lifetime of the variable that holds it.
    pub fn type_lval(&self, w: &Lval) -> (r: Result<Slot, Error>)
        requires
            lval_resolves(self@, w@),
        ensures
            slot_result_view(r) == type_lval_spec(self@, w@),
    {
        match self.tl_rec(&w.ident, w.derefs, w, Ghost(lval_fuel(self@, w@))) {
            Ok((t, l, _)) => Ok(Slot { tipe: t.duplicate(), lifetime: l }),
            Err(e) => Err(e),
        }
    }

    /// Whether lvalue `w` may be mutated: no immutable reference lies on its path.
    pub fn muut(&self, w: &Lval) -> (b: bool)
        requires
            lval_resolves(self@, w@),
        ensures
            b == muut_spec(self@, w@),
    {
        match self.tl_rec(&w.ident, w.derefs, w, Ghost(lval_fuel(self@, w@))) {
            Ok((_, _, m)) => m,
            Err(_) => false,
        }
    }

    /// The type held in the boxes of variable `x`, unless it was moved out.
    pub fn contained(&self, x: &Ident) -> (r: Option<&Type>)
        ensures
            match lookup(self@, x@) {
                Some(s) => match contained_spec(s.tipe) {
                    Some(c) => r matches Some(rc) && rc@ == c,
                    None => r is None,
                },
                None => r is None,
            },
    {
        match self.find(x) {
            Some(i) => contained_type(&self.0[i].1.tipe),
            None => None,
        }
    }

    /// Whether some variable holds a borrow (a mutable one, if `mut_only`) of a place of `x`.
    fn borrowed(&self, x: &Ident, mut_only: bool) -> (b: bool)
        ensures
            b == (exists|i: int| 0 <= i < self@.len() && #[trigger] holds_borrow(self@, i, x@, mut_only)),
    {
        let mut i: usize = 0;
        while i < self.0.len()
            invariant
                i <= self.0.len(),
                forall|j: int| 0 <= j < i ==> !#[trigger] holds_borrow(self@, j, x@, mut_only),
            decreases self.0.len() - i,
        {
            match contained_type(&self.0[i].1.tipe) {
                Some(Type::Ref(u, m)) => {
                    if u.ident == *x && (!mut_only || *m == Mutable::Yes) {
                        assert(holds_borrow(self@, i as int, x@, mut_only));
                        return true;
                    }
                },
                _ => {},
            }
            i = i + 1;
        }
        false
    }

    /// Reading `w` is prohibited: some variable holds a mutable borrow of `w`'s variable.
    pub fn read_prohibited(&self, w: &Lval) -> (b: bool)
        ensures
            b == read_prohibited_spec(self@, w@),
    {
        let b = self.borrowed(&w.ident, true);
        proof {
            if b {
                let i = choose|i: int| 0 <= i < self@.len() && #[trigger] holds_borrow(self@, i, w.ident@, true);
                assert(holds_borrow(self@, i, w@.ident, true));
            } else {
                assert forall|i: int| 0 <= i < self@.len() implies !#[trigger] holds_borrow(self@, i, w@.ident, true) by {
                    assert(!holds_borrow(self@, i, w.ident@, true));
                }
            }
        }
        b
    }

    /// Writing `w` is prohibited: some variable holds a borrow of `w`'s variable.
    pub fn write_prohibited(&self, w: &Lval) -> (b: bool)
        ensures
            b == write_prohibited_spec(self@, w@),
    {
        let b = self.borrowed(&w.ident, false);
        proof {
            if b {
                let i = choose|i: int| 0 <= i < self@.len() && #[trigger] holds_borrow(self@, i, w.ident@, false);
                assert(holds_borrow(self@, i, w@.ident, false));
            } else {
                assert forall|i: int| 0 <= i < self@.len() implies !#[trigger] holds_borrow(self@, i, w@.ident, false) by {
                    assert(!holds_borrow(self@, i, w.ident@, false));
                }
            }
        }
        b
    }
}


/// Checks that `k` dereferences of `t` go through boxes only, reporting the error
/// that moving out of `w` meets otherwise.
fn box_walk(t: &Type, k: usize, w: &Lval) -> (r: Result<(), Error>)
    ensures
        match walk_boxes(t@, k as nat) {
            Step::Arrive => r is Ok,
            Step::Through => r matches Err(e) && e@ == ErrorV::MoveBehindRef(w@),
            Step::Moved => r matches Err(e) && e@ == ErrorV::MovedOut(w@),
            Step::NoDeref(nt) => r matches Err(e) && e@ == ErrorV::CannotDeref(nt),
        },
    decreases k,
{
    if k == 0 {
        Ok(())
    } else {
        match t {
            Type::TBox(b) => box_walk(&**b, k - 1, w),
            Type::Ref(_, _) => Err(Error::MoveBehindRef(w.duplicate())),
            Type::Undefined(_) => Err(Error::MovedOut(w.duplicate())),
            _ => Err(Error::CannotDeref(t.duplicate())),
        }
    }
}

/// Marks the place `k` boxes deep in `t` as moved out.
fn wrap_undefined(t: Type, k: usize) -> (r: Type)
    ensures
        r@ == wrap_at(t@, k as nat),
    decreases k,
{
    if k == 0 {
        Type::Undefined(Box::new(t))
    } else {
        match t {
            Type::TBox(b) => Type::TBox(Box::new(wrap_undefined(*b, k - 1))),
            _ => t,
        }
    }
}

impl Env {
    /// Writes `t` at `*...*x` following the definition of `wr`.
    fn write_rec(&mut self, x: &Ident, n: usize, t: Type, w: &Lval, Ghost(fuel): Ghost<nat>) -> (r:
        Result<(), Error>)
        requires
            wr(old(self)@, x@, n as nat, t@, fuel) is Some,
        ensures
            match wr(old(self)@, x@, n as nat, t@, fuel)->0 {
                Ok(e) => r is Ok && final(self)@ == e,
                Err(e) => r matches Err(re) && re@ == walk_err_view(e, w@) && final(self)@ == old(
                    self,
                )@,
            },
        decreases fuel, n,
    {
        if n == 0 {
            match self.find(x) {
                Some(i) => {
                    let l = self.0[i].1.lifetime;
                    self.insert_slot(x.clone(), Slot { tipe: t, lifetime: l });
                    Ok(())
                },
                None => Err(Error::UnknownVar(x.clone())),
            }
        } else {
            let next: Result<Option<Lval>, Error> = match self.tl_rec(x, n - 1, w, Ghost(fuel)) {
                Err(e) => Err(e),
                Ok((pt, _, _)) => match pt {
                    Type::TBox(_) => Ok(None),
                    Type::Ref(u, _) => Ok(Some(u.duplicate())),
                    Type::Undefined(_) => Err(Error::MovedOut(w.duplicate())),
                    _ => Err(Error::CannotDeref(pt.duplicate())),
                },
            };
            match next {
                Err(e) => Err(e),
                Ok(None) => self.write_rec(x, n - 1, Type::TBox(Box::new(t)), w, Ghost(fuel)),
                Ok(Some(u)) => self.write_rec(&u.ident, u.derefs, t, w, Ghost((fuel - 1) as nat)),
            }
        }
    }

    /// Writes type `tipe` at place `w`: through boxes the holding variable is
    /// updated, through references the borrowed place is.
    pub fn write(&mut self, w: &Lval, tipe: Type) -> (r: Result<(), Error>)
        requires
            write_resolves(old(self)@, w@, tipe@),
        ensures
            match write_spec(old(self)@, w@, tipe@) {
                Ok(e) => r is Ok && final(self)@ == e,
                Err(e) => r matches Err(re) && re@ == e && final(self)@ == old(self)@,
            },
    {
        let ghost f = choose|f: nat| #[trigger] wr(self@, w@.ident, w@.derefs, tipe@, f) is Some;
        self.write_rec(&w.ident, w.derefs, tipe, w, Ghost(f))
    }

    /// Moves out of place `w`, which must be reached through boxes only.
    pub fn moove(&mut self, w: &Lval) -> (r: Result<(), Error>)
        ensures
            match moove_spec(old(self)@, w@) {
                Ok(e) => r is Ok && final(self)@ == e,
                Err(e) => r matches Err(re) && re@ == e && final(self)@ == old(self)@,
            },
    {
        match self.find(&w.ident) {
            None => Err(Error::UnknownVar(w.ident.clone())),
            Some(i) => {
                match box_walk(&self.0[i].1.tipe, w.derefs, w) {
                    Err(e) => Err(e),
                    Ok(()) => {
                        let old_t = self.0[i].1.tipe.duplicate();
                        let l = self.0[i].1.lifetime;
                        let nt = wrap_undefined(old_t, w.derefs);
                        self.insert_slot(w.ident.clone(), Slot { tipe: nt, lifetime: l });
                        Ok(())
                    },
                }
            },
        }
    }

    /// Compares two types following the definition of `compat`.
    fn compat_rec(&self, t1: &Type, t2: &Type, Ghost(fuel): Ghost<nat>) -> (b: bool)
        requires
            compat(self@, t1@, t2@, fuel) is Some,
        ensures
            b == compat(self@, t1@, t2@, fuel)->0,
        decreases fuel, t1, t2,
    {
        match (t1, t2) {
            (Type::Undefined(a), _) => self.compat_rec(&**a, t2, Ghost(fuel)),
            (_, Type::Undefined(b)) => self.compat_rec(t1, &**b, Ghost(fuel)),
            (Type::Unit, Type::Unit) => true,
            (Type::Int, Type::Int) => true,
            (Type::TBox(a), Type::TBox(b)) => self.compat_rec(&**a, &**b, Ghost(fuel)),
            (Type::Ref(u1, m1), Type::Ref(u2, m2)) => {
                if *m1 != *m2 {
                    false
                } else {
                    match self.type_lval(u1) {
                        Err(_) => false,
                        Ok(s1) => match self.type_lval(u2) {
                            Err(_) => false,
                            Ok(s2) => self.compat_rec(&s1.tipe, &s2.tipe, Ghost((fuel - 1) as nat)),
                        },
                    }
                }
            },
            _ => false,
        }
    }

    /// Whether `t1` and `t2` are compatible: the same shape once moved-out marks
    /// are ignored, with references that agree in mutability and borrow places of
    /// compatible types.
    pub fn compatible(&self, t1: &Type, t2: &Type) -> (b: bool)
        requires
            compat_resolves(self@, t1@, t2@),
        ensures
            b == compatible_spec(self@, t1@, t2@),
    {
        let ghost f = choose|f: nat| #[trigger] compat(self@, t1@, t2@, f) is Some;
        self.compat_rec(t1, t2, Ghost(f))
    }

    /// Whether a value of type `t` may be stored in a place of lifetime `l`.
    fn outlives(&self, t: &Type, l: Lifetime) -> (b: bool)
        requires
            wf_spec(self@, t@, l.0 as nat) is Some,
        ensures
            b == wf_spec(self@, t@, l.0 as nat)->0,
    {
        match contained_type(t) {
            Some(Type::Ref(u, _)) => match self.type_lval(u) {
                Ok(s) => s.lifetime.0 <= l.0,
                Err(_) => false,
            },
            _ => true,
        }
    }
}


// ---------------------------------------------------------------------------
// Typing expressions and statements
// ---------------------------------------------------------------------------

/// `t` holds no moved-out part.
pub open spec fn is_defined(t: TypeV) -> bool
    decreases t,
{
    match t {
        TypeV::TBox(b) => is_defined(*b),
        TypeV::Undefined(_) => false,
        _ => true,
    }
}

/// Values of type `t` are copied rather than moved.
pub open spec fn is_copy(t: TypeV) -> bool {
    match t {
        TypeV::Unit => true,
        TypeV::Int => true,
        TypeV::Ref(_, m) => m == Mutable::No,
        _ => false,
    }
}

fn defined(t: &Type) -> (b: bool)
    ensures
        b == is_defined(t@),
    decreases t,
{
    match t {
        Type::TBox(b) => defined(&**b),
        Type::Undefined(_) => false,
        _ => true,
    }
}

fn copyable(t: &Type) -> (b: bool)
    ensures
        b == is_copy(t@),
{
    match t {
        Type::Unit => true,
        Type::Int => true,
        Type::Ref(_, m) => *m == Mutable::No,
        _ => false,
    }
}

/// The view of a type-checking context.
pub struct CtxV {
    pub env: EnvV,
    pub lifetime: nat,
}

pub open spec fn with_env(c: CtxV, env: EnvV) -> CtxV {
    CtxV { env, lifetime: c.lifetime }
}

pub open spec fn with_lifetime(c: CtxV, l: nat) -> CtxV {
    CtxV { env: c.env, lifetime: l }
}

/// Typing an lvalue expression: a value of a copy type is copied (the expression
/// is marked copyable), any other value is moved out (and marked not copyable).
/// `None` when typing does not terminate.
pub open spec fn tc_lv(c: CtxV, w: LvalV, cp: Copyable) -> Option<(CtxV, ExprV, Result<TypeV, ErrorV>)> {
    if !lval_resolves(c.env, w) {
        None
    } else {
        match type_lval_spec(c.env, w) {
            Err(er) => Some((c, ExprV::Lv(w, cp), Err(er))),
            Ok(s) => if !is_defined(s.tipe) {
                Some((c, ExprV::Lv(w, cp), Err(ErrorV::MovedOut(w))))
            } else if is_copy(s.tipe) {
                if read_prohibited_spec(c.env, w) {
                    Some((c, ExprV::Lv(w, Copyable::Yes), Err(ErrorV::CopyAfterMutBorrow(w))))
                } else {
                    Some((c, ExprV::Lv(w, Copyable::Yes), Ok(s.tipe)))
                }
            } else if write_prohibited_spec(c.env, w) {
                Some((c, ExprV::Lv(w, Copyable::No), Err(ErrorV::MoveAfterBorrow(w))))
            } else {
                match moove_spec(c.env, w) {
                    Err(er) => Some((c, ExprV::Lv(w, Copyable::No), Err(er))),
                    Ok(env2) => Some((with_env(c, env2), ExprV::Lv(w, Copyable::No), Ok(s.tipe))),
                }
            },
        }
    }
}

/// Typing a borrow of `w`.
pub open spec fn tc_borrow(c: CtxV, w: LvalV, m: Mutable) -> Option<(CtxV, ExprV, Result<TypeV, ErrorV>)> {
    let e = ExprV::Borrow(w, m);
    if !lval_resolves(c.env, w) {
        None
    } else {
        match type_lval_spec(c.env, w) {
            Err(er) => Some((c, e, Err(er))),
            Ok(s) => if !is_defined(s.tipe) {
                Some((c, e, Err(ErrorV::MovedOut(w))))
            } else if m == Mutable::Yes {
                if !muut_spec(c.env, w) {
                    Some((c, e, Err(ErrorV::MutBorrowBehindImmRef(w))))
                } else if write_prohibited_spec(c.env, w) {
                    Some((c, e, Err(ErrorV::MutBorrowAfterBorrow(w))))
                } else {
                    Some((c, e, Ok(TypeV::Ref(w, Mutable::Yes))))
                }
            } else if read_prohibited_spec(c.env, w) {
                Some((c, e, Err(ErrorV::BorrowAfterMutBorrow(w))))
            } else {
                Some((c, e, Ok(TypeV::Ref(w, Mutable::No))))
            },
        }
    }
}

/// Type checks expression `e` in context `c`: the context after it, the expression
/// with its lvalues marked copyable or not, and its type or the first error.
/// A block types its statements and result in its own lifetime, then drops the
/// variables of that lifetime. `None` when type checking does not terminate.
pub open spec fn tc_expr(c: CtxV, e: ExprV) -> Option<(CtxV, ExprV, Result<TypeV, ErrorV>)>
    decreases e,
{
    match e {
        ExprV::Unit => Some((c, e, Ok(TypeV::Unit))),
        ExprV::Int(_) => Some((c, e, Ok(TypeV::Int))),
        ExprV::Lv(w, cp) => tc_lv(c, w, cp),
        ExprV::OBox(b) => match tc_expr(c, *b) {
            None => None,
            Some((c2, b2, r)) => Some(
                (
                    c2,
                    ExprV::OBox(Box::new(b2)),
                    match r {
                        Ok(t) => Ok(TypeV::TBox(Box::new(t))),
                        Err(er) => Err(er),
                    },
                ),
            ),
        },
        ExprV::Borrow(w, m) => tc_borrow(c, w, m),
        ExprV::Block(ss, b, l) => match tc_stmts(with_lifetime(c, l), ss) {
            None => None,
            Some((c2, ss2, Err(er))) => Some(
                (with_lifetime(c2, c.lifetime), ExprV::Block(ss2, b, l), Err(er)),
            ),
            Some((c2, ss2, Ok(()))) => match tc_expr(c2, *b) {
                None => None,
                Some((c3, b3, Err(er))) => Some(
                    (with_lifetime(c3, c.lifetime), ExprV::Block(ss2, Box::new(b3), l), Err(er)),
                ),
                Some((c3, b3, Ok(t))) => match wf_spec(c3.env, t, c.lifetime) {
                    None => None,
                    Some(false) => Some(
                        (
                            with_lifetime(c3, c.lifetime),
                            ExprV::Block(ss2, Box::new(b3), l),
                            Err(ErrorV::LifetimeTooShort(b3)),
                        ),
                    ),
                    Some(true) => Some(
                        (
                            CtxV { env: drop_lifetime(c3.env, l), lifetime: c.lifetime },
                            ExprV::Block(ss2, Box::new(b3), l),
                            Ok(t),
                        ),
                    ),
                },
            },
        },
    }
}

/// Type checks statements in order, stopping at the first error.
pub open spec fn tc_stmts(c: CtxV, ss: Seq<StmtV>) -> Option<(CtxV, Seq<StmtV>, Result<(), ErrorV>)>
    decreases ss,
{
    if ss.len() == 0 {
        Some((c, ss, Ok(())))
    } else {
        match tc_stmt(c, ss[0]) {
            None => None,
            Some((c2, s2, Err(er))) => Some((c2, seq![s2] + ss.drop_first(), Err(er))),
            Some((c2, s2, Ok(()))) => match tc_stmts(c2, ss.drop_first()) {
                None => None,
                Some((c3, rest, r)) => Some((c3, seq![s2] + rest, r)),
            },
        }
    }
}

/// The checks of an assignment `w = e` once `w` was typed (slot `s1`) and `e`
/// was typed (type `t2`, expression `e2`, context `c2`).
pub open spec fn assign_tail(c2: CtxV, w: LvalV, e2: ExprV, s1: SlotV, t2: TypeV) -> Option<
    (CtxV, StmtV, Result<(), ErrorV>),
> {
    let st = StmtV::Assign(w, e2);
    if !compat_resolves(c2.env, s1.tipe, t2) {
        None
    } else if !compatible_spec(c2.env, s1.tipe, t2) {
        Some((c2, st, Err(ErrorV::IncompatibleTypes(s1.tipe, t2))))
    } else {
        match wf_spec(c2.env, t2, s1.lifetime) {
            None => None,
            Some(false) => Some((c2, st, Err(ErrorV::LifetimeTooShort(e2)))),
            Some(true) => if !lval_resolves(c2.env, w) {
                None
            } else if !muut_spec(c2.env, w) {
                Some((c2, st, Err(ErrorV::UpdateBehindImmRef(w))))
            } else if !write_resolves(c2.env, w, t2) {
                None
            } else {
                match write_spec(c2.env, w, t2) {
                    Err(er) => Some((c2, st, Err(er))),
                    Ok(env3) => if write_prohibited_spec(env3, w) {
                        Some((with_env(c2, env3), st, Err(ErrorV::AssignAfterBorrow(w))))
                    } else {
                        Some((with_env(c2, env3), st, Ok(())))
                    },
                }
            },
        }
    }
}

/// Type checks statement `s` in context `c`.
pub open spec fn tc_stmt(c: CtxV, s: StmtV) -> Option<(CtxV, StmtV, Result<(), ErrorV>)>
    decreases s,
{
    match s {
        StmtV::Expr(e) => match tc_expr(c, e) {
            None => None,
            Some((c2, e2, r)) => Some(
                (
                    c2,
                    StmtV::Expr(e2),
                    match r {
                        Ok(_) => Ok(()),
                        Err(er) => Err(er),
                    },
                ),
            ),
        },
        StmtV::LetMut(x, e) => if lookup(c.env, x) is Some {
            Some((c, s, Err(ErrorV::Shadowing(x))))
        } else {
            match tc_expr(c, e) {
                None => None,
                Some((c2, e2, Err(er))) => Some((c2, StmtV::LetMut(x, e2), Err(er))),
                Some((c2, e2, Ok(t))) => match wf_spec(c2.env, t, c.lifetime) {
                    None => None,
                    Some(false) => Some(
                        (c2, StmtV::LetMut(x, e2), Err(ErrorV::LifetimeTooShort(e2))),
                    ),
                    Some(true) => Some(
                        (
                            with_env(c2, insert_entry(c2.env, x, SlotV { tipe: t, lifetime: c.lifetime })),
                            StmtV::LetMut(x, e2),
                            Ok(()),
                        ),
                    ),
                },
            }
        },
        StmtV::Assign(w, e) => if !lval_resolves(c.env, w) {
            None
        } else {
            match type_lval_spec(c.env, w) {
                Err(er) => Some((c, s, Err(er))),
                Ok(s1) => match tc_expr(c, e) {
                    None => None,
                    Some((c2, e2, Err(er))) => Some((c2, StmtV::Assign(w, e2), Err(er))),
                    Some((c2, e2, Ok(t2))) => assign_tail(c2, w, e2, s1, t2),
                },
            }
        },
    }
}

/// A type-checking context: the typing environment and the current lifetime.
#[derive(Debug, PartialEq)]
pub struct Context {
    pub env: Env,
    pub lifetime: Lifetime,
}

impl View for Context {
    type V = CtxV;

    open spec fn view(&self) -> CtxV {
        CtxV { env: self.env@, lifetime: self.lifetime.0 as nat }
    }
}

impl Clone for Context {
    fn clone(&self) -> (c: Self)
        ensures
            c@ == self@,
    {
        Context { env: self.env.clone(), lifetime: self.lifetime }
    }
}

impl Context {
    /// An empty context in the global lifetime.
    pub fn default() -> (c: Context)
        ensures
            c@.env == Seq::<(Seq<char>, SlotV)>::empty(),
            c@.lifetime == 0,
    {
        Context { env: Env::default(), lifetime: Lifetime::global() }
    }

    fn type_lv(&mut self, w: Lval, cp: Copyable) -> (r: (Expr, Result<Type, Error>))
        requires
            tc_lv(old(self)@, w@, cp) is Some,
        ensures
            (final(self)@, r.0@, type_result_view(r.1)) == tc_lv(old(self)@, w@, cp)->0,
    {
        let s = match self.env.type_lval(&w) {
            Err(er) => {
                return (Expr::Lv(w, cp), Err(er));
            },
            Ok(s) => s,
        };
        if !defined(&s.tipe) {
            let wd = w.duplicate();
            return (Expr::Lv(w, cp), Err(Error::MovedOut(wd)));
        }
        if copyable(&s.tipe) {
            if self.env.read_prohibited(&w) {
                let wd = w.duplicate();
                (Expr::Lv(w, Copyable::Yes), Err(Error::CopyAfterMutBorrow(wd)))
            } else {
                (Expr::Lv(w, Copyable::Yes), Ok(s.tipe))
            }
        } else if self.env.write_prohibited(&w) {
            let wd = w.duplicate();
            (Expr::Lv(w, Copyable::No), Err(Error::MoveAfterBorrow(wd)))
        } else {
            match self.env.moove(&w) {
                Err(er) => (Expr::Lv(w, Copyable::No), Err(er)),
                Ok(()) => (Expr::Lv(w, Copyable::No), Ok(s.tipe)),
            }
        }
    }

    fn type_borrow(&mut self, w: Lval, m: Mutable) -> (r: (Expr, Result<Type, Error>))
        requires
            tc_borrow(old(self)@, w@, m) is Some,
        ensures
            (final(self)@, r.0@, type_result_view(r.1)) == tc_borrow(old(self)@, w@, m)->0,
    {
        let s = match self.env.type_lval(&w) {
            Err(er) => {
                return (Expr::Borrow(w, m), Err(er));
            },
            Ok(s) => s,
        };
        let wd = w.duplicate();
        if !defined(&s.tipe) {
            (Expr::Borrow(w, m), Err(Error::MovedOut(wd)))
        } else if m == Mutable::Yes {
            if !self.env.muut(&w) {
                (Expr::Borrow(w, m), Err(Error::MutBorrowBehindImmRef(wd)))
            } else if self.env.write_prohibited(&w) {
                (Expr::Borrow(w, m), Err(Error::MutBorrowAfterBorrow(wd)))
            } else {
                (Expr::Borrow(w, m), Ok(Type::Ref(wd, Mutable::Yes)))
            }
        } else if self.env.read_prohibited(&w) {
            (Expr::Borrow(w, m), Err(Error::BorrowAfterMutBorrow(wd)))
        } else {
            (Expr::Borrow(w, m), Ok(Type::Ref(wd, Mutable::No)))
        }
    }

    /// Type checks an expression given by value, returning it with its lvalues marked.
    fn type_expr_owned(&mut self, e: Expr) -> (r: (Expr, Result<Type, Error>))
        requires
            tc_expr(old(self)@, e@) is Some,
        ensures
            (final(self)@, r.0@, type_result_view(r.1)) == tc_expr(old(self)@, e@)->0,
        decreases e@,
    {
        match e {
            Expr::Unit => (Expr::Unit, Ok(Type::Unit)),
            Expr::Int(i) => (Expr::Int(i), Ok(Type::Int)),
            Expr::Lv(w, cp) => self.type_lv(w, cp),
            Expr::OBox(b) => {
                let (b2, r) = self.type_expr_owned(*b);
                let r2 = match r {
                    Ok(t) => Ok(Type::TBox(Box::new(t))),
                    Err(er) => Err(er),
                };
                (Expr::OBox(Box::new(b2)), r2)
            },
            Expr::Borrow(w, m) => self.type_borrow(w, m),
            Expr::Block(ss, b, l) => {
                let saved = self.lifetime;
                self.lifetime = l;
                let (ss2, r) = self.type_stmts(ss);
                if let Err(er) = r {
                    self.lifetime = saved;
                    return (Expr::Block(ss2, b, l), Err(er));
                }
                let (b3, r3) = self.type_expr_owned(*b);
                match r3 {
                    Err(er) => {
                        self.lifetime = saved;
                        (Expr::Block(ss2, Box::new(b3), l), Err(er))
                    },
                    Ok(t) => {
                        if !self.env.outlives(&t, saved) {
                            self.lifetime = saved;
                            let bd = b3.duplicate();
                            (Expr::Block(ss2, Box::new(b3), l), Err(Error::LifetimeTooShort(bd)))
                        } else {
                            self.env.drop(l);
                            self.lifetime = saved;
                            (Expr::Block(ss2, Box::new(b3), l), Ok(t))
                        }
                    },
                }
            },
        }
    }

    /// Type checks statements in order, stopping at the first error.
    fn type_stmts(&mut self, ss: Vec<Stmt>) -> (r: (Vec<Stmt>, Result<(), Error>))
        requires
            tc_stmts(old(self)@, stmts_view(ss@)) is Some,
        ensures
            (final(self)@, stmts_view(r.0@), unit_result_view(r.1)) == tc_stmts(
                old(self)@,
                stmts_view(ss@),
            )->0,
        decreases stmts_view(ss@),
    {
        let mut ss = ss;
        if ss.len() == 0 {
            return (ss, Ok(()));
        }
        let ghost all = ss@;
        let s0 = ss.remove(0);
        proof {
            assert(ss@ =~= all.drop_first());
            assert(stmts_view(all).drop_first() =~= stmts_view(ss@));
        }
        let (s2, r) = self.type_stmt_owned(s0);
        match r {
            Err(er) => {
                let ghost rest = ss@;
                ss.insert(0, s2);
                proof {
                    assert(ss@.drop_first() =~= rest);
                }
                (ss, Err(er))
            },
            Ok(()) => {
                let (mut rest, r2) = self.type_stmts(ss);
                let ghost rv = rest@;
                rest.insert(0, s2);
                proof {
                    assert(rest@.drop_first() =~= rv);
                }
                (rest, r2)
            },
        }
    }

    /// Type checks a statement given by value, returning it with its lvalues marked.
    fn type_stmt_owned(&mut self, s: Stmt) -> (r: (Stmt, Result<(), Error>))
        requires
            tc_stmt(old(self)@, s@) is Some,
        ensures
            (final(self)@, r.0@, unit_result_view(r.1)) == tc_stmt(old(self)@, s@)->0,
        decreases s@,
    {
        match s {
            Stmt::Expr(e) => {
                let (e2, r) = self.type_expr_owned(e);
                let r2 = match r {
                    Ok(_) => Ok(()),
                    Err(er) => Err(er),
                };
                (Stmt::Expr(e2), r2)
            },
            Stmt::LetMut(x, e) => {
                if self.env.find(&x).is_some() {
                    let xd = x.clone();
                    return (Stmt::LetMut(x, e), Err(Error::Shadowing(xd)));
                }
                let l = self.lifetime;
                let (e2, r) = self.type_expr_owned(e);
                match r {
                    Err(er) => (Stmt::LetMut(x, e2), Err(er)),
                    Ok(t) => {
                        if !self.env.outlives(&t, l) {
                            let ed = e2.duplicate();
                            (Stmt::LetMut(x, e2), Err(Error::LifetimeTooShort(ed)))
                        } else {
                            self.env.insert_slot(x.clone(), Slot { tipe: t, lifetime: l });
                            (Stmt::LetMut(x, e2), Ok(()))
                        }
                    },
                }
            },
            Stmt::Assign(w, e) => {
                let s1 = match self.env.type_lval(&w) {
                    Err(er) => {
                        return (Stmt::Assign(w, e), Err(er));
                    },
                    Ok(s1) => s1,
                };
                let (e2, r) = self.type_expr_owned(e);
                let t2 = match r {
                    Err(er) => {
                        return (Stmt::Assign(w, e2), Err(er));
                    },
                    Ok(t2) => t2,
                };
                if !self.env.compatible(&s1.tipe, &t2) {
                    return (Stmt::Assign(w, e2), Err(Error::IncompatibleTypes(s1.tipe, t2)));
                }
                if !self.env.outlives(&t2, s1.lifetime) {
                    let ed = e2.duplicate();
                    return (Stmt::Assign(w, e2), Err(Error::LifetimeTooShort(ed)));
                }
                if !self.env.muut(&w) {
                    let wd = w.duplicate();
                    return (Stmt::Assign(w, e2), Err(Error::UpdateBehindImmRef(wd)));
                }
                match self.env.write(&w, t2) {
                    Err(er) => (Stmt::Assign(w, e2), Err(er)),
                    Ok(()) => {
                        if self.env.write_prohibited(&w) {
                            let wd = w.duplicate();
                            (Stmt::Assign(w, e2), Err(Error::AssignAfterBorrow(wd)))
                        } else {
                            (Stmt::Assign(w, e2), Ok(()))
                        }
                    },
                }
            },
        }
    }

    /// Type checks expression `e` in this context. The context is updated with
    /// the moves, writes and declarations of `e`, and each lvalue expression in
    /// `e` is marked copyable or not according to its type.
    pub fn type_expr(&mut self, e: &mut Expr) -> (r: Result<Type, Error>)
        requires
            tc_expr(old(self)@, old(e)@) is Some,
        ensures
            (final(self)@, final(e)@, type_result_view(r)) == tc_expr(old(self)@, old(e)@)->0,
    {
        let mut owned = Expr::Unit;
        std::mem::swap(&mut owned, e);
        let (e2, r) = self.type_expr_owned(owned);
        *e = e2;
        r
    }

    /// Type checks statement `s` in this context.
    pub fn type_stmt(&mut self, s: &mut Stmt) -> (r: Result<(), Error>)
        requires
            tc_stmt(old(self)@, old(s)@) is Some,
        ensures
            (final(self)@, final(s)@, unit_result_view(r)) == tc_stmt(old(self)@, old(s)@)->0,
    {
        let mut owned = Stmt::Expr(Expr::Unit);
        std::mem::swap(&mut owned, s);
        let (s2, r) = self.type_stmt_owned(owned);
        *s = s2;
        r
    }
}

} // verus!
