//! Properties that relate the operations of the library: what dropping a
//! lifetime leaves, what typing a place gives back after a move or a write,
//! what type checking keeps of an expression, what a read of the store gives
//! back after a write, and why the locations made for boxes never clash.
use vstd::prelude::*;
use crate::entries::{lookup, insert_entry, names_unique, lemma_insert_lookup, lemma_lookup_push,
    lemma_lookup_unique, lemma_find_from, find_from};
use crate::types::{
    EnvV, SlotV, drop_lifetime, tl, lval_resolves, type_lval_spec, wr, write_resolves, write_spec,
    walk_boxes, wrap_at, moove_spec, Step, CtxV, tc_expr, tc_stmts, tc_stmt, tc_lv,
};
use crate::lexer::{Stream, TokenV, End};
use crate::parser::{
    PS, seen, ErrorV, p_block, p_block_end, p_stmts, p_stmt, p_stmt_lval, p_stmt_let, p_stmt_let_rest, p_stmt_expr,
    p_box, p_expr, p_lval, peek, next_match, next_var, next_tok, p_program, p_stars,
};
use crate::utils::{LvalV, TypeV, ExprV, StmtV, ValueV, Copyable, Owned, Mutable, digits, decimal};
use crate::eval::{
    StoreV, SlotV as EvalSlotV, locate_from, locate_spec, read_spec, write_spec as eval_write_spec,
    fresh_name, StateV as EvalState, eval_spec, eval_stmts_spec, eval_stmt_spec, drop_level, drop_spec,
    locs_by_lifetime_spec,
};

verus! {

// ---------------------------------------------------------------------------
// Dropping a lifetime
// ---------------------------------------------------------------------------

/// Dropping lifetime `l` leaves no entry of lifetime `l`.
pub proof fn law_drop_removes_lifetime(env: EnvV, l: nat)
    ensures
        forall|i: int| 0 <= i < drop_lifetime(env, l).len() ==> #[trigger] drop_lifetime(env, l)[i].1.lifetime != l,
    decreases env.len(),
{
    if env.len() > 0 {
        let init = env.drop_last();
        let last = env.last();
        law_drop_removes_lifetime(init, l);
        let r = drop_lifetime(init, l);
        assert(forall|i: int| 0 <= i < r.len() ==> #[trigger] r[i].1.lifetime != l);
        if last.1.lifetime != l {
            let d = r.push(last);
            assert(drop_lifetime(env, l) == d);
            assert forall|i: int| 0 <= i < d.len() implies #[trigger] d[i].1.lifetime != l by {
                if i < r.len() {
                    assert(d[i] == r[i]);
                    assert(r[i].1.lifetime != l);
                } else {
                    assert(d[i] == last);
                }
            }
        } else {
            assert(drop_lifetime(env, l) == r);
        }
    }
}

/// In an environment whose names are unique, dropping lifetime `l` unbinds
/// exactly the variables of lifetime `l`, keeps every other binding, and keeps
/// names unique.
pub proof fn law_drop_lookup(env: EnvV, l: nat, x: Seq<char>)
    requires
        names_unique(env),
    ensures
        names_unique(drop_lifetime(env, l)),
        lookup(drop_lifetime(env, l), x) == (match lookup(env, x) {
            Some(s) => if s.lifetime == l {
                None
            } else {
                Some(s)
            },
            None => None,
        }),
    decreases env.len(),
{
    lemma_drop_lookup_all(env, l);
}

proof fn lemma_drop_lookup_all(env: EnvV, l: nat)
    requires
        names_unique(env),
    ensures
        names_unique(drop_lifetime(env, l)),
        forall|x: Seq<char>| #[trigger] lookup(drop_lifetime(env, l), x) == (match lookup(env, x) {
            Some(s) => if s.lifetime == l {
                None
            } else {
                Some(s)
            },
            None => None,
        }),
    decreases env.len(),
{
    if env.len() > 0 {
        let init = env.drop_last();
        let last = env.last();
        assert(init.push(last) =~= env);
        assert(names_unique(init)) by {
            assert forall|i: int, j: int| 0 <= i < j < init.len() implies #[trigger] init[i].0
                != #[trigger] init[j].0 by {
                assert(env[i].0 != env[j].0);
            }
        }
        lemma_drop_lookup_all(init, l);
        let r = drop_lifetime(init, l);
        // `last` is the only entry of its name.
        assert(lookup(init, last.0) is None) by {
            lemma_find_from(init, last.0, 0);
            if let Some(j) = find_from(init, last.0, 0) {
                assert(env[j].0 != env[init.len() as int].0);
            }
        }
        assert forall|x: Seq<char>| #[trigger] lookup(env, x) == (if lookup(init, x) is Some {
            lookup(init, x)
        } else if last.0 == x {
            Some(last.1)
        } else {
            None::<SlotV>
        }) by {
            lemma_lookup_push(init, last, x);
        }
        assert(lookup(r, last.0) is None);
        if last.1.lifetime == l {
            assert(drop_lifetime(env, l) == r);
        } else {
            assert(drop_lifetime(env, l) == r.push(last));
            assert forall|x: Seq<char>| #[trigger] lookup(r.push(last), x) == (if lookup(r, x) is Some {
                lookup(r, x)
            } else if last.0 == x {
                Some(last.1)
            } else {
                None::<SlotV>
            }) by {
                lemma_lookup_push(r, last, x);
            }
            assert(names_unique(r.push(last))) by {
                assert forall|i: int, j: int| 0 <= i < j < r.push(last).len() implies #[trigger] r.push(
                    last,
                )[i].0 != #[trigger] r.push(last)[j].0 by {
                    if j == r.len() {
                        lemma_lookup_unique(r, i);
                        assert(lookup(r, r[i].0) is Some);
                    } else {
                        assert(r[i].0 != r[j].0);
                    }
                }
            }
        }
    }
}

// ---------------------------------------------------------------------------
// Places reached through boxes
// ---------------------------------------------------------------------------

/// The type `k` boxes deep in `t`.
pub open spec fn box_at(t: TypeV, k: nat) -> TypeV
    decreases k,
{
    if k == 0 {
        t
    } else {
        match t {
            TypeV::TBox(b) => box_at(*b, (k - 1) as nat),
            _ => t,
        }
    }
}

/// `t` inside `k` boxes.
pub open spec fn boxes(k: nat, t: TypeV) -> TypeV
    decreases k,
{
    if k == 0 {
        t
    } else {
        TypeV::TBox(Box::new(boxes((k - 1) as nat, t)))
    }
}

proof fn lemma_walk_step(t: TypeV, k: nat)
    requires
        walk_boxes(t, k + 1) == Step::Arrive,
    ensures
        walk_boxes(t, k) == Step::Arrive,
        box_at(t, k) is TBox,
        box_at(t, k + 1) == *(box_at(t, k)->TBox_0),
    decreases k,
{
    reveal_with_fuel(box_at, 2);
    if k > 0 {
        match t {
            TypeV::TBox(b) => lemma_walk_step(*b, (k - 1) as nat),
            _ => {},
        }
    }
}

proof fn lemma_boxes_shift(k: nat, t: TypeV)
    ensures
        boxes(k, TypeV::TBox(Box::new(t))) == boxes(k + 1, t),
    decreases k,
{
    reveal_with_fuel(boxes, 2);
    if k > 0 {
        lemma_boxes_shift((k - 1) as nat, t);
    }
}

proof fn lemma_boxes_walk(k: nat, t: TypeV)
    ensures
        walk_boxes(boxes(k, t), k) == Step::Arrive,
        box_at(boxes(k, t), k) == t,
    decreases k,
{
    if k > 0 {
        lemma_boxes_walk((k - 1) as nat, t);
    }
}

proof fn lemma_wrap_walk(t: TypeV, k: nat)
    requires
        walk_boxes(t, k) == Step::Arrive,
    ensures
        walk_boxes(wrap_at(t, k), k) == Step::Arrive,
        box_at(wrap_at(t, k), k) == TypeV::Undefined(Box::new(box_at(t, k))),
    decreases k,
{
    if k > 0 {
        match t {
            TypeV::TBox(b) => lemma_wrap_walk(*b, (k - 1) as nat),
            _ => {},
        }
    }
}

/// Typing a place reached through boxes only: the type there, the variable's
/// lifetime, whatever the fuel.
proof fn lemma_tl_boxes(env: EnvV, x: Seq<char>, n: nat, f: nat, s: SlotV)
    requires
        lookup(env, x) == Some(s),
        walk_boxes(s.tipe, n) == Step::Arrive,
    ensures
        tl(env, x, n, f) == Some(Ok::<(TypeV, nat, bool), crate::types::WalkErr>((box_at(s.tipe, n), s.lifetime, true))),
    decreases n,
{
    if n > 0 {
        lemma_walk_step(s.tipe, (n - 1) as nat);
        lemma_tl_boxes(env, x, (n - 1) as nat, f, s);
    }
}

/// Writing through boxes only rebuilds the variable as boxes around the new type.
proof fn lemma_wr_boxes(env: EnvV, x: Seq<char>, n: nat, t: TypeV, f: nat, s: SlotV)
    requires
        lookup(env, x) == Some(s),
        walk_boxes(s.tipe, n) == Step::Arrive,
    ensures
        wr(env, x, n, t, f) == Some(
            Ok::<EnvV, crate::types::WalkErr>(insert_entry(env, x, SlotV { tipe: boxes(n, t), lifetime: s.lifetime })),
        ),
    decreases n,
{
    if n > 0 {
        lemma_walk_step(s.tipe, (n - 1) as nat);
        lemma_tl_boxes(env, x, (n - 1) as nat, f, s);
        lemma_wr_boxes(env, x, (n - 1) as nat, TypeV::TBox(Box::new(t)), f, s);
        lemma_boxes_shift((n - 1) as nat, t);
    }
}

/// Typing `w` after moving out of it (a successful move goes through boxes
/// only) gives the moved-out mark around the type it had, in the same
/// lifetime; every other variable keeps its slot.
pub proof fn law_move_then_type(env: EnvV, w: LvalV, y: Seq<char>)
    requires
        moove_spec(env, w) is Ok,
    ensures
        lval_resolves(env, w),
        type_lval_spec(env, w) is Ok,
        lval_resolves(moove_spec(env, w)->Ok_0, w),
        type_lval_spec(moove_spec(env, w)->Ok_0, w) == Ok::<SlotV, crate::types::ErrorV>(
            SlotV {
                tipe: TypeV::Undefined(Box::new(type_lval_spec(env, w)->Ok_0.tipe)),
                lifetime: type_lval_spec(env, w)->Ok_0.lifetime,
            },
        ),
        y != w.ident ==> lookup(moove_spec(env, w)->Ok_0, y) == lookup(env, y),
{
    let s = lookup(env, w.ident).unwrap();
    let k = w.derefs;
    let env2 = moove_spec(env, w)->Ok_0;
    let s2 = SlotV { tipe: wrap_at(s.tipe, k), lifetime: s.lifetime };
    assert(env2 == insert_entry(env, w.ident, s2));
    lemma_insert_lookup(env, w.ident, s2, w.ident);
    lemma_insert_lookup(env, w.ident, s2, y);
    lemma_wrap_walk(s.tipe, k);
    lemma_tl_boxes(env, w.ident, k, 0, s);
    lemma_tl_boxes(env, w.ident, k, crate::types::lval_fuel(env, w), s);
    lemma_tl_boxes(env2, w.ident, k, 0, s2);
    lemma_tl_boxes(env2, w.ident, k, crate::types::lval_fuel(env2, w), s2);
}

/// Writing `t` at a place reached through boxes only succeeds; typing the place
/// afterwards gives `t`, in the variable's lifetime, and every other variable
/// keeps its slot.
pub proof fn law_write_then_type(env: EnvV, w: LvalV, t: TypeV, y: Seq<char>)
    requires
        lookup(env, w.ident) is Some,
        walk_boxes(lookup(env, w.ident)->Some_0.tipe, w.derefs) == Step::Arrive,
    ensures
        write_resolves(env, w, t),
        write_spec(env, w, t) is Ok,
        lval_resolves(write_spec(env, w, t)->Ok_0, w),
        type_lval_spec(write_spec(env, w, t)->Ok_0, w) == Ok::<SlotV, crate::types::ErrorV>(
            SlotV { tipe: t, lifetime: lookup(env, w.ident)->Some_0.lifetime },
        ),
        y != w.ident ==> lookup(write_spec(env, w, t)->Ok_0, y) == lookup(env, y),
{
    let s = lookup(env, w.ident).unwrap();
    let k = w.derefs;
    let s2 = SlotV { tipe: boxes(k, t), lifetime: s.lifetime };
    let env2 = insert_entry(env, w.ident, s2);
    lemma_wr_boxes(env, w.ident, k, t, 0, s);
    let f = choose|f: nat| #[trigger] wr(env, w.ident, w.derefs, t, f) is Some;
    lemma_wr_boxes(env, w.ident, k, t, f, s);
    assert(write_spec(env, w, t) == Ok::<EnvV, crate::types::ErrorV>(env2));
    lemma_insert_lookup(env, w.ident, s2, w.ident);
    lemma_insert_lookup(env, w.ident, s2, y);
    lemma_boxes_walk(k, t);
    lemma_tl_boxes(env2, w.ident, k, 0, s2);
    lemma_tl_boxes(env2, w.ident, k, crate::types::lval_fuel(env2, w), s2);
}

/// The variables whose slots typing `*...*x` (`n` dereferences) reads.
pub open spec fn tl_reads(env: EnvV, x: Seq<char>, n: nat, f: nat) -> Set<Seq<char>>
    decreases f, n,
{
    if n == 0 {
        set![x]
    } else {
        let r = tl_reads(env, x, (n - 1) as nat, f);
        match tl(env, x, (n - 1) as nat, f) {
            Some(Ok((TypeV::Ref(u, _), _, _))) => if f == 0 {
                r
            } else {
                r.union(tl_reads(env, u.ident, u.derefs, (f - 1) as nat))
            },
            _ => r,
        }
    }
}

/// The variable whose slot writing at `*...*x` replaces: the one reached after
/// following every reference on the way.
pub open spec fn wr_target(env: EnvV, x: Seq<char>, n: nat, f: nat) -> Seq<char>
    decreases f, n,
{
    if n == 0 {
        x
    } else {
        match tl(env, x, (n - 1) as nat, f) {
            Some(Ok((TypeV::TBox(_), _, _))) => wr_target(env, x, (n - 1) as nat, f),
            Some(Ok((TypeV::Ref(u, _), _, _))) => if f == 0 {
                x
            } else {
                wr_target(env, u.ident, u.derefs, (f - 1) as nat)
            },
            _ => x,
        }
    }
}

/// No reference followed by the write at `*...*x` is found by reading the slot of `y`.
pub open spec fn wr_clear(env: EnvV, x: Seq<char>, n: nat, f: nat, y: Seq<char>) -> bool
    decreases f, n,
{
    if n == 0 {
        true
    } else {
        match tl(env, x, (n - 1) as nat, f) {
            Some(Ok((TypeV::TBox(_), _, _))) => wr_clear(env, x, (n - 1) as nat, f, y),
            Some(Ok((TypeV::Ref(u, _), _, _))) => f > 0 && !tl_reads(env, x, (n - 1) as nat, f).contains(y)
                && wr_clear(env, u.ident, u.derefs, (f - 1) as nat, y),
            _ => true,
        }
    }
}

/// The fuel with which `write_spec` writes `t` at `w`.
pub open spec fn write_fuel(env: EnvV, w: LvalV, t: TypeV) -> nat {
    choose|f: nat| #[trigger] wr(env, w.ident, w.derefs, t, f) is Some
}

/// The variable whose slot writing `t` at `w` replaces.
pub open spec fn write_target(env: EnvV, w: LvalV, t: TypeV) -> Seq<char> {
    wr_target(env, w.ident, w.derefs, write_fuel(env, w, t))
}

/// The slot of the variable written is not read on the way to the place of `w`.
pub open spec fn write_clear(env: EnvV, w: LvalV, t: TypeV) -> bool {
    wr_clear(env, w.ident, w.derefs, write_fuel(env, w, t), write_target(env, w, t))
}

/// Typing with more fuel than needed gives the same outcome.
proof fn lemma_tl_fuel(env: EnvV, x: Seq<char>, n: nat, f1: nat, f2: nat)
    requires
        tl(env, x, n, f1) is Some,
        f1 <= f2,
    ensures
        tl(env, x, n, f2) == tl(env, x, n, f1),
    decreases f1, n,
{
    if n > 0 {
        lemma_tl_fuel(env, x, (n - 1) as nat, f1, f2);
        if let Some(Ok((TypeV::Ref(u, _), _, _))) = tl(env, x, (n - 1) as nat, f1) {
            lemma_tl_fuel(env, u.ident, u.derefs, (f1 - 1) as nat, (f2 - 1) as nat);
        }
    }
}

/// Typing never reads the slot of `y`: replacing that slot changes nothing.
proof fn lemma_tl_unread(env: EnvV, x: Seq<char>, n: nat, f: nat, y: Seq<char>, s: SlotV)
    requires
        !tl_reads(env, x, n, f).contains(y),
    ensures
        tl(insert_entry(env, y, s), x, n, f) == tl(env, x, n, f),
    decreases f, n,
{
    let env2 = insert_entry(env, y, s);
    if n == 0 {
        lemma_insert_lookup(env, y, s, x);
    } else {
        lemma_tl_unread(env, x, (n - 1) as nat, f, y, s);
        if let Some(Ok((TypeV::Ref(u, _), _, _))) = tl(env, x, (n - 1) as nat, f) {
            if f > 0 {
                lemma_tl_unread(env, u.ident, u.derefs, (f - 1) as nat, y, s);
            }
        }
    }
}

/// A write replaces the slot of its target variable and nothing else.
proof fn lemma_wr_target(env: EnvV, x: Seq<char>, n: nat, t: TypeV, f: nat)
    requires
        wr(env, x, n, t, f) matches Some(Ok(_)),
    ensures
        ({
            let env2 = wr(env, x, n, t, f)->Some_0->Ok_0;
            let y = wr_target(env, x, n, f);
            &&& lookup(env, y) is Some
            &&& lookup(env2, y) is Some
            &&& lookup(env2, y)->Some_0.lifetime == lookup(env, y)->Some_0.lifetime
            &&& env2 == insert_entry(env, y, lookup(env2, y)->Some_0)
        }),
    decreases f, n,
{
    if n == 0 {
        let s = lookup(env, x)->Some_0;
        lemma_insert_lookup(env, x, SlotV { tipe: t, lifetime: s.lifetime }, x);
    } else {
        match tl(env, x, (n - 1) as nat, f) {
            Some(Ok((TypeV::TBox(_), _, _))) => lemma_wr_target(env, x, (n - 1) as nat, TypeV::TBox(Box::new(t)), f),
            Some(Ok((TypeV::Ref(u, _), _, _))) => lemma_wr_target(env, u.ident, u.derefs, t, (f - 1) as nat),
            _ => {},
        }
    }
}

/// Typing the place written after a write, with the same fuel, gives the type
/// written, in the lifetime of the target variable.
proof fn lemma_wr_tl(env: EnvV, x: Seq<char>, n: nat, t: TypeV, f: nat)
    requires
        wr(env, x, n, t, f) matches Some(Ok(_)),
        wr_clear(env, x, n, f, wr_target(env, x, n, f)),
    ensures
        tl(wr(env, x, n, t, f)->Some_0->Ok_0, x, n, f) matches Some(Ok((t2, l2, _))) && t2 == t && l2
            == lookup(env, wr_target(env, x, n, f))->Some_0.lifetime,
    decreases f, n,
{
    lemma_wr_target(env, x, n, t, f);
    let env2 = wr(env, x, n, t, f)->Some_0->Ok_0;
    let y = wr_target(env, x, n, f);
    if n == 0 {
        lemma_insert_lookup(env, x, SlotV { tipe: t, lifetime: lookup(env, x)->Some_0.lifetime }, x);
    } else {
        match tl(env, x, (n - 1) as nat, f) {
            Some(Ok((TypeV::TBox(_), _, _))) => {
                lemma_wr_tl(env, x, (n - 1) as nat, TypeV::TBox(Box::new(t)), f);
            },
            Some(Ok((TypeV::Ref(u, _), _, _))) => {
                lemma_wr_tl(env, u.ident, u.derefs, t, (f - 1) as nat);
                lemma_tl_unread(env, x, (n - 1) as nat, f, y, lookup(env2, y)->Some_0);
            },
            _ => {},
        }
    }
}

/// Writing `t` at a place `w` reached through references as well as boxes:
/// when the slot of the variable written is not itself read on the way to the
/// place, typing `w` afterwards gives `t`, in the lifetime of that variable,
/// and every other variable keeps its slot.
pub proof fn law_write_then_type_through_references(env: EnvV, w: LvalV, t: TypeV, y: Seq<char>)
    requires
        write_resolves(env, w, t),
        write_spec(env, w, t) is Ok,
        write_clear(env, w, t),
    ensures
        lval_resolves(write_spec(env, w, t)->Ok_0, w),
        type_lval_spec(write_spec(env, w, t)->Ok_0, w) == Ok::<SlotV, crate::types::ErrorV>(
            SlotV { tipe: t, lifetime: lookup(env, write_target(env, w, t))->Some_0.lifetime },
        ),
        y != write_target(env, w, t) ==> lookup(write_spec(env, w, t)->Ok_0, y) == lookup(env, y),
{
    let f = write_fuel(env, w, t);
    let target = write_target(env, w, t);
    lemma_wr_target(env, w.ident, w.derefs, t, f);
    lemma_wr_tl(env, w.ident, w.derefs, t, f);
    let env2 = write_spec(env, w, t)->Ok_0;
    assert(wr(env, w.ident, w.derefs, t, f) == Some(Ok::<EnvV, crate::types::WalkErr>(env2)));
    let f2 = crate::types::lval_fuel(env2, w);
    if f <= f2 {
        lemma_tl_fuel(env2, w.ident, w.derefs, f, f2);
    } else {
        lemma_tl_fuel(env2, w.ident, w.derefs, f2, f);
    }
    lemma_insert_lookup(env, target, lookup(env2, target)->Some_0, y);
}

// ---------------------------------------------------------------------------
// What type checking keeps of an expression
// ---------------------------------------------------------------------------

/// `e` with every lvalue marked not copyable: what is left of an expression
/// once the marks that type checking sets are ignored.
pub open spec fn unmarked(e: ExprV) -> ExprV
    decreases e,
{
    match e {
        ExprV::Lv(w, _) => ExprV::Lv(w, Copyable::No),
        ExprV::OBox(b) => ExprV::OBox(Box::new(unmarked(*b))),
        ExprV::Block(ss, b, l) => ExprV::Block(unmarked_stmts(ss), Box::new(unmarked(*b)), l),
        _ => e,
    }
}

pub open spec fn unmarked_stmt(s: StmtV) -> StmtV
    decreases s,
{
    match s {
        StmtV::Assign(w, e) => StmtV::Assign(w, unmarked(e)),
        StmtV::LetMut(x, e) => StmtV::LetMut(x, unmarked(e)),
        StmtV::Expr(e) => StmtV::Expr(unmarked(e)),
    }
}

pub open spec fn unmarked_stmts(ss: Seq<StmtV>) -> Seq<StmtV>
    decreases ss,
{
    if ss.len() == 0 {
        ss
    } else {
        seq![unmarked_stmt(ss[0])] + unmarked_stmts(ss.drop_first())
    }
}

proof fn lemma_unmarked_cons(s: StmtV, rest: Seq<StmtV>)
    ensures
        unmarked_stmts(seq![s] + rest) == seq![unmarked_stmt(s)] + unmarked_stmts(rest),
{
    assert((seq![s] + rest)[0] == s);
    assert((seq![s] + rest).drop_first() =~= rest);
}

/// Type checking an expression changes nothing in it but the copy marks of its
/// lvalues.
pub proof fn law_typing_keeps_expression(c: CtxV, e: ExprV)
    ensures
        tc_expr(c, e) matches Some((_, e2, _)) ==> unmarked(e2) == unmarked(e),
    decreases e,
{
    match e {
        ExprV::OBox(b) => {
            law_typing_keeps_expression(c, *b);
        },
        ExprV::Block(ss, b, l) => {
            law_typing_keeps_statements(crate::types::with_lifetime(c, l), ss);
            if let Some((c2, ss2, r)) = tc_stmts(crate::types::with_lifetime(c, l), ss) {
                if r is Ok {
                    law_typing_keeps_expression(c2, *b);
                }
            }
        },
        _ => {},
    }
}

/// Type checking statements changes nothing in them but the copy marks of their
/// lvalues.
pub proof fn law_typing_keeps_statements(c: CtxV, ss: Seq<StmtV>)
    ensures
        tc_stmts(c, ss) matches Some((_, ss2, _)) ==> unmarked_stmts(ss2) == unmarked_stmts(ss),
    decreases ss,
{
    if ss.len() > 0 {
        law_typing_keeps_statement(c, ss[0]);
        assert(ss =~= seq![ss[0]] + ss.drop_first());
        lemma_unmarked_cons(ss[0], ss.drop_first());
        if let Some((c2, s2, r)) = tc_stmt(c, ss[0]) {
            lemma_unmarked_cons(s2, ss.drop_first());
            if r is Ok {
                law_typing_keeps_statements(c2, ss.drop_first());
                if let Some((c3, rest, r3)) = tc_stmts(c2, ss.drop_first()) {
                    lemma_unmarked_cons(s2, rest);
                }
            }
        }
    }
}

/// Type checking a statement changes nothing in it but the copy marks of its
/// lvalues.
pub proof fn law_typing_keeps_statement(c: CtxV, s: StmtV)
    ensures
        tc_stmt(c, s) matches Some((_, s2, _)) ==> unmarked_stmt(s2) == unmarked_stmt(s),
    decreases s,
{
    match s {
        StmtV::Expr(e) => law_typing_keeps_expression(c, e),
        StmtV::LetMut(x, e) => law_typing_keeps_expression(c, e),
        StmtV::Assign(w, e) => law_typing_keeps_expression(c, e),
    }
}

// ---------------------------------------------------------------------------
// Scopes
// ---------------------------------------------------------------------------

/// A block that type checks leaves the context in the lifetime it started in,
/// with no variable of the block's own lifetime.
pub proof fn law_block_scope(c: CtxV, ss: Seq<StmtV>, b: ExprV, l: nat)
    requires
        tc_expr(c, ExprV::Block(ss, Box::new(b), l)) matches Some((_, _, r)) && r is Ok,
    ensures
        tc_expr(c, ExprV::Block(ss, Box::new(b), l)).unwrap().0.lifetime == c.lifetime,
        forall|i: int| 0 <= i < tc_expr(c, ExprV::Block(ss, Box::new(b), l)).unwrap().0.env.len()
            ==> #[trigger] tc_expr(c, ExprV::Block(ss, Box::new(b), l)).unwrap().0.env[i].1.lifetime != l,
{
    let (c2, ss2, r2) = tc_stmts(crate::types::with_lifetime(c, l), ss)->0;
    let (c3, b3, r3) = tc_expr(c2, b)->0;
    law_drop_removes_lifetime(c3.env, l);
    let env4 = tc_expr(c, ExprV::Block(ss, Box::new(b), l)).unwrap().0.env;
    assert(env4 == drop_lifetime(c3.env, l));
    assert forall|i: int| 0 <= i < env4.len() implies #[trigger] env4[i].1.lifetime != l by {
        assert(drop_lifetime(c3.env, l)[i].1.lifetime != l);
    }
}

// ---------------------------------------------------------------------------
// Unique names
// ---------------------------------------------------------------------------

proof fn lemma_wr_unique(env: EnvV, x: Seq<char>, n: nat, t: TypeV, f: nat)
    requires
        names_unique(env),
    ensures
        wr(env, x, n, t, f) matches Some(Ok(env2)) ==> names_unique(env2),
    decreases f, n,
{
    if n == 0 {
        if let Some(s) = lookup(env, x) {
            crate::entries::lemma_insert_unique(env, x, SlotV { tipe: t, lifetime: s.lifetime });
        }
    } else {
        match tl(env, x, (n - 1) as nat, f) {
            Some(Ok((pt, _, _))) => match pt {
                TypeV::TBox(_) => lemma_wr_unique(env, x, (n - 1) as nat, TypeV::TBox(Box::new(t)), f),
                TypeV::Ref(u, _) => if f > 0 {
                    lemma_wr_unique(env, u.ident, u.derefs, t, (f - 1) as nat);
                },
                _ => {},
            },
            _ => {},
        }
    }
}

proof fn lemma_tc_lv_unique(c: CtxV, w: LvalV, cp: Copyable)
    requires
        names_unique(c.env),
    ensures
        tc_lv(c, w, cp) matches Some((c2, _, _)) ==> names_unique(c2.env),
{
    if let Ok(env2) = moove_spec(c.env, w) {
        let s = lookup(c.env, w.ident).unwrap();
        crate::entries::lemma_insert_unique(
            c.env,
            w.ident,
            SlotV { tipe: wrap_at(s.tipe, w.derefs), lifetime: s.lifetime },
        );
    }
}

/// Type checking keeps the names of the environment unique.
pub proof fn law_typing_keeps_names_unique(c: CtxV, e: ExprV)
    requires
        names_unique(c.env),
    ensures
        tc_expr(c, e) matches Some((c2, _, _)) ==> names_unique(c2.env),
    decreases e,
{
    match e {
        ExprV::Lv(w, cp) => lemma_tc_lv_unique(c, w, cp),
        ExprV::OBox(b) => law_typing_keeps_names_unique(c, *b),
        ExprV::Block(ss, b, l) => {
            law_statements_keep_names_unique(crate::types::with_lifetime(c, l), ss);
            if let Some((c2, ss2, r)) = tc_stmts(crate::types::with_lifetime(c, l), ss) {
                if r is Ok {
                    law_typing_keeps_names_unique(c2, *b);
                    if let Some((c3, b3, r3)) = tc_expr(c2, *b) {
                        law_drop_lookup(c3.env, l, Seq::empty());
                    }
                }
            }
        },
        _ => {},
    }
}

/// Type checking statements keeps the names of the environment unique.
pub proof fn law_statements_keep_names_unique(c: CtxV, ss: Seq<StmtV>)
    requires
        names_unique(c.env),
    ensures
        tc_stmts(c, ss) matches Some((c2, _, _)) ==> names_unique(c2.env),
    decreases ss,
{
    if ss.len() > 0 {
        law_statement_keeps_names_unique(c, ss[0]);
        if let Some((c2, s2, r)) = tc_stmt(c, ss[0]) {
            if r is Ok {
                law_statements_keep_names_unique(c2, ss.drop_first());
            }
        }
    }
}

/// Type checking a statement keeps the names of the environment unique.
pub proof fn law_statement_keeps_names_unique(c: CtxV, s: StmtV)
    requires
        names_unique(c.env),
    ensures
        tc_stmt(c, s) matches Some((c2, _, _)) ==> names_unique(c2.env),
    decreases s,
{
    match s {
        StmtV::Expr(e) => law_typing_keeps_names_unique(c, e),
        StmtV::LetMut(x, e) => {
            law_typing_keeps_names_unique(c, e);
            if let Some((c2, e2, Ok(t))) = tc_expr(c, e) {
                crate::entries::lemma_insert_unique(c2.env, x, SlotV { tipe: t, lifetime: c.lifetime });
            }
        },
        StmtV::Assign(w, e) => {
            law_typing_keeps_names_unique(c, e);
            if let Some((c2, e2, Ok(t2))) = tc_expr(c, e) {
                let f = choose|f: nat| #[trigger] wr(c2.env, w.ident, w.derefs, t2, f) is Some;
                lemma_wr_unique(c2.env, w.ident, w.derefs, t2, f);
            }
        },
    }
}

// ---------------------------------------------------------------------------
// The store
// ---------------------------------------------------------------------------

/// Whether location `loc` is one of those dereferenced on the way from `x`
/// through `k` dereferences.
pub open spec fn visits(st: StoreV, x: Seq<char>, k: nat, loc: Seq<char>) -> bool
    decreases k,
{
    if k == 0 {
        false
    } else {
        x == loc || match lookup(st, x) {
            Some(s) => match s.value {
                Some(ValueV::Ref(next, _)) => visits(st, next, (k - 1) as nat, loc),
                _ => false,
            },
            None => false,
        }
    }
}

proof fn lemma_locate_unvisited(st: StoreV, x: Seq<char>, k: nat, loc: Seq<char>, s: EvalSlotV)
    requires
        !visits(st, x, k, loc),
    ensures
        locate_from(insert_entry(st, loc, s), x, k) == locate_from(st, x, k),
    decreases k,
{
    if k > 0 {
        lemma_insert_lookup(st, loc, s, x);
        if let Some(sl) = lookup(st, x) {
            if let Some(ValueV::Ref(next, _)) = sl.value {
                lemma_locate_unvisited(st, next, (k - 1) as nat, loc, s);
            }
        }
    }
}

/// Writing `v` at `w` replaces the value at the location of `w`, keeping its
/// lifetime, and returns the value that was there. Reading `w` afterwards gives
/// back `v`, unless the location written is one that the way to `w` goes
/// through; every other location keeps its slot.
pub proof fn law_store_write_then_read(st: StoreV, w: LvalV, v: Option<ValueV>, y: Seq<char>)
    requires
        eval_write_spec(st, w, v) is Some,
    ensures
        locate_spec(st, w) is Some,
        lookup(st, locate_spec(st, w)->Some_0) is Some,
        eval_write_spec(st, w, v)->Some_0.1 == lookup(st, locate_spec(st, w)->Some_0)->Some_0.value,
        !visits(st, w.ident, w.derefs, locate_spec(st, w)->Some_0) ==> read_spec(
            eval_write_spec(st, w, v)->Some_0.0,
            w,
        ) == Some(
            EvalSlotV {
                value: v,
                lifetime: lookup(st, locate_spec(st, w)->Some_0)->Some_0.lifetime,
            },
        ),
        y != locate_spec(st, w)->Some_0 ==> lookup(eval_write_spec(st, w, v)->Some_0.0, y) == lookup(st, y),
{
    let loc = locate_spec(st, w)->Some_0;
    let old = lookup(st, loc)->Some_0;
    let s = EvalSlotV { value: v, lifetime: old.lifetime };
    lemma_insert_lookup(st, loc, s, loc);
    lemma_insert_lookup(st, loc, s, y);
    if !visits(st, w.ident, w.derefs, loc) {
        lemma_locate_unvisited(st, w.ident, w.derefs, loc, s);
    }
}

/// Writing back the value that a write at `w` returned restores the store,
/// unless the location written is one that the way to `w` goes through; the
/// second write returns the value of the first.
pub proof fn law_store_write_back(st: StoreV, w: LvalV, v: Option<ValueV>)
    requires
        eval_write_spec(st, w, v) is Some,
        !visits(st, w.ident, w.derefs, locate_spec(st, w)->Some_0),
    ensures
        eval_write_spec(eval_write_spec(st, w, v)->Some_0.0, w, eval_write_spec(st, w, v)->Some_0.1) == Some(
            (st, v),
        ),
{
    let loc = locate_spec(st, w)->Some_0;
    let old = lookup(st, loc)->Some_0;
    let s = EvalSlotV { value: v, lifetime: old.lifetime };
    let st2 = insert_entry(st, loc, s);
    lemma_find_from(st, loc, 0);
    let i = find_from(st, loc, 0)->Some_0;
    assert(st2 == st.update(i, (loc, s)));
    lemma_locate_unvisited(st, w.ident, w.derefs, loc, s);
    crate::entries::lemma_find_from_update(st, loc, i, (loc, s), 0);
    assert(lookup(st2, loc) == Some(s));
    let s3 = EvalSlotV { value: old.value, lifetime: s.lifetime };
    assert(insert_entry(st2, loc, s3) == st2.update(i, (loc, s3)));
    assert(st[i] == (loc, old));
    assert(st2.update(i, (loc, s3)) =~= st);
}

// ---------------------------------------------------------------------------
// Locations made for boxes
// ---------------------------------------------------------------------------

proof fn lemma_digits_len(n: nat)
    ensures
        digits(n).len() >= 1,
        n >= 10 ==> digits(n).len() >= 2,
    decreases n,
{
    if n >= 10 {
        lemma_digits_len(n / 10);
    }
}

proof fn lemma_digit_char(a: nat, b: nat)
    requires
        a < 10,
        b < 10,
        ((a + 48) as u8) as char == ((b + 48) as u8) as char,
    ensures
        a == b,
{
}

/// Different numbers have different decimal digits.
pub proof fn law_digits_injective(a: nat, b: nat)
    requires
        digits(a) == digits(b),
    ensures
        a == b,
    decreases a,
{
    lemma_digits_len(a / 10);
    lemma_digits_len(b / 10);
    if a < 10 && b < 10 {
        assert(digits(a)[0] == digits(b)[0]);
        assert(digits(a)[0] == ((a + 48) as u8) as char);
        assert(digits(b)[0] == ((b + 48) as u8) as char);
        lemma_digit_char(a, b);
    } else if a >= 10 && b >= 10 {
        let da = digits(a / 10);
        let db = digits(b / 10);
        assert(digits(a).last() == digits(b).last());
        assert(digits(a).last() == (((a % 10) + 48) as u8) as char);
        assert(digits(b).last() == (((b % 10) + 48) as u8) as char);
        assert(digits(a).drop_last() =~= da);
        assert(digits(b).drop_last() =~= db);
        lemma_digit_char(a % 10, b % 10);
        law_digits_injective(a / 10, b / 10);
    } else {
        assert(digits(a).len() != digits(b).len());
    }
}

proof fn lemma_digits_first(n: nat)
    ensures
        digits(n).len() >= 1,
        digits(n)[0] != '-',
    decreases n,
{
    if n >= 10 {
        lemma_digits_first(n / 10);
        assert(digits(n)[0] == digits(n / 10)[0]);
    } else {
        assert(digits(n)[0] == ((n + 48) as u8) as char);
        assert(((n + 48) as u8) as char != '-') by {
            lemma_digit_char_not_minus(n);
        }
    }
}

proof fn lemma_digit_char_not_minus(n: nat)
    requires
        n < 10,
    ensures
        ((n + 48) as u8) as char != '-',
{
    assert(('-' as u32) == 45);
}

/// Different integers have different decimal notations.
pub proof fn law_decimal_injective(a: int, b: int)
    requires
        decimal(a) == decimal(b),
    ensures
        a == b,
{
    if a >= 0 && b >= 0 {
        law_digits_injective(a as nat, b as nat);
    } else if a < 0 && b < 0 {
        assert(decimal(a).drop_first() =~= digits((-a) as nat));
        assert(decimal(b).drop_first() =~= digits((-b) as nat));
        law_digits_injective((-a) as nat, (-b) as nat);
    } else if a < 0 {
        lemma_digits_first(b as nat);
        assert(decimal(a)[0] == '-');
    } else {
        lemma_digits_first(a as nat);
        assert(decimal(b)[0] == '-');
    }
}

/// The locations made for the `a`-th and the `b`-th box differ when `a` and
/// `b` do.
pub proof fn law_fresh_names_differ(a: int, b: int)
    requires
        a != b,
    ensures
        fresh_name(a) != fresh_name(b),
{
    if fresh_name(a) == fresh_name(b) {
        assert(fresh_name(a).drop_first() =~= decimal(a));
        assert(fresh_name(b).drop_first() =~= decimal(b));
        law_decimal_injective(a, b);
    }
}

/// Every location of the store named like the location of a box has a number
/// at most `num`.
pub open spec fn boxes_counted(st: StoreV, num: int) -> bool {
    forall|k: int| #[trigger] lookup(st, fresh_name(k)) is Some ==> k <= num
}

/// When every box-like location is numbered at most `num` (any count that
/// `fresh` accepts), the location made for the next box is not a location of
/// the store, differs from those made for the boxes before it, and storing the
/// box keeps the count.
pub proof fn law_fresh_location_is_new(st: StoreV, num: int, s: EvalSlotV)
    requires
        boxes_counted(st, num),
    ensures
        lookup(st, fresh_name(num + 1)) is None,
        forall|k: int| k <= num ==> fresh_name(num + 1) != #[trigger] fresh_name(k),
        boxes_counted(insert_entry(st, fresh_name(num + 1), s), num + 1),
{
    let n1 = num + 1;
    if lookup(st, fresh_name(n1)) is Some {
        assert(n1 <= num);
    }
    assert forall|k: int| k <= num implies fresh_name(num + 1) != #[trigger] fresh_name(k) by {
        law_fresh_names_differ(n1, k);
    }
    assert forall|k: int| #[trigger] lookup(insert_entry(st, fresh_name(n1), s), fresh_name(k)) is Some
        implies k <= num + 1 by {
        lemma_insert_lookup(st, fresh_name(n1), s, fresh_name(k));
        if k != n1 {
            law_fresh_names_differ(n1, k);
        }
    }
}

/// Evaluation never takes back a box number: the count of boxes made only grows.
pub proof fn law_eval_box_count_grows(c: EvalState, e: ExprV, l: nat)
    ensures
        eval_spec(c, e, l) matches Some((c2, _)) ==> c2.num >= c.num,
    decreases e,
{
    match e {
        ExprV::OBox(b) => law_eval_box_count_grows(c, *b, l),
        ExprV::Block(ss, b, l1) => {
            law_stmts_box_count_grows(c, ss, l1);
            if let Some(c2) = eval_stmts_spec(c, ss, l1) {
                law_eval_box_count_grows(c2, *b, l1);
            }
        },
        _ => {},
    }
}

/// Running statements never takes back a box number.
pub proof fn law_stmts_box_count_grows(c: EvalState, ss: Seq<StmtV>, l: nat)
    ensures
        eval_stmts_spec(c, ss, l) matches Some(c2) ==> c2.num >= c.num,
    decreases ss,
{
    if ss.len() > 0 {
        law_stmt_box_count_grows(c, ss[0], l);
        if let Some(c2) = eval_stmt_spec(c, ss[0], l) {
            law_stmts_box_count_grows(c2, ss.drop_first(), l);
        }
    }
}

/// Running a statement never takes back a box number.
pub proof fn law_stmt_box_count_grows(c: EvalState, s: StmtV, l: nat)
    ensures
        eval_stmt_spec(c, s, l) matches Some(c2) ==> c2.num >= c.num,
    decreases s,
{
    match s {
        StmtV::Assign(_, e) => law_eval_box_count_grows(c, e, l),
        StmtV::LetMut(_, e) => law_eval_box_count_grows(c, e, l),
        StmtV::Expr(e) => law_eval_box_count_grows(c, e, l),
    }
}

proof fn lemma_remove_unique(st: StoreV, i: int)
    requires
        names_unique(st),
        0 <= i < st.len(),
    ensures
        names_unique(st.remove(i)),
{
    let r = st.remove(i);
    assert forall|a: int, b: int| 0 <= a < b < r.len() implies #[trigger] r[a].0 != #[trigger] r[b].0 by {
        let a2 = if a < i { a } else { a + 1 };
        let b2 = if b < i { b } else { b + 1 };
        assert(r[a] == st[a2]);
        assert(r[b] == st[b2]);
        assert(st[a2].0 != st[b2].0);
    }
}

proof fn lemma_drop_level_unique(st: StoreV, vs: Seq<Option<ValueV>>)
    requires
        names_unique(st),
    ensures
        drop_level(st, vs) matches Some((st2, _)) ==> names_unique(st2),
    decreases vs.len(),
{
    if vs.len() > 0 {
        match vs[0] {
            Some(ValueV::Ref(loc, Owned::Yes)) => match find_from(st, loc, 0) {
                None => {},
                Some(i) => {
                    lemma_find_from(st, loc, 0);
                    lemma_remove_unique(st, i);
                    lemma_drop_level_unique(st.remove(i), vs.drop_first());
                },
            },
            _ => lemma_drop_level_unique(st, vs.drop_first()),
        }
    }
}

/// Dropping keeps the locations of the store unique.
pub proof fn law_drop_keeps_locations_unique(st: StoreV, vs: Seq<Option<ValueV>>)
    requires
        names_unique(st),
    ensures
        drop_spec(st, vs) matches Some(st2) ==> names_unique(st2),
    decreases st.len(),
{
    lemma_drop_level_unique(st, vs);
    if let Some((st2, res)) = drop_level(st, vs) {
        if res.len() > 0 {
            crate::eval::lemma_drop_level_len(st, vs);
            law_drop_keeps_locations_unique(st2, res);
        }
    }
}

proof fn lemma_eval_write_unique(st: StoreV, w: LvalV, v: Option<ValueV>)
    requires
        names_unique(st),
    ensures
        eval_write_spec(st, w, v) matches Some((st2, _)) ==> names_unique(st2),
{
    if let Some(loc) = locate_spec(st, w) {
        if let Some(old) = lookup(st, loc) {
            crate::entries::lemma_insert_unique(st, loc, EvalSlotV { value: v, lifetime: old.lifetime });
        }
    }
}

/// Evaluation keeps the locations of the store unique.
pub proof fn law_eval_keeps_locations_unique(c: EvalState, e: ExprV, l: nat)
    requires
        names_unique(c.store),
    ensures
        eval_spec(c, e, l) matches Some((c2, _)) ==> names_unique(c2.store),
    decreases e,
{
    match e {
        ExprV::Lv(w, Copyable::No) => lemma_eval_write_unique(c.store, w, None),
        ExprV::OBox(b) => {
            law_eval_keeps_locations_unique(c, *b, l);
            if let Some((c2, v)) = eval_spec(c, *b, l) {
                crate::entries::lemma_insert_unique(
                    c2.store,
                    fresh_name(c2.num + 1),
                    EvalSlotV { value: Some(v), lifetime: 0 },
                );
            }
        },
        ExprV::Block(ss, b, l1) => {
            law_stmts_keep_locations_unique(c, ss, l1);
            if let Some(c2) = eval_stmts_spec(c, ss, l1) {
                law_eval_keeps_locations_unique(c2, *b, l1);
                if let Some((c3, v)) = eval_spec(c2, *b, l1) {
                    law_drop_keeps_locations_unique(c3.store, locs_by_lifetime_spec(c3.store, l1));
                }
            }
        },
        _ => {},
    }
}

/// Running statements keeps the locations of the store unique.
pub proof fn law_stmts_keep_locations_unique(c: EvalState, ss: Seq<StmtV>, l: nat)
    requires
        names_unique(c.store),
    ensures
        eval_stmts_spec(c, ss, l) matches Some(c2) ==> names_unique(c2.store),
    decreases ss,
{
    if ss.len() > 0 {
        law_stmt_keeps_locations_unique(c, ss[0], l);
        if let Some(c2) = eval_stmt_spec(c, ss[0], l) {
            law_stmts_keep_locations_unique(c2, ss.drop_first(), l);
        }
    }
}

/// Running a statement keeps the locations of the store unique.
pub proof fn law_stmt_keeps_locations_unique(c: EvalState, s: StmtV, l: nat)
    requires
        names_unique(c.store),
    ensures
        eval_stmt_spec(c, s, l) matches Some(c2) ==> names_unique(c2.store),
    decreases s,
{
    match s {
        StmtV::Assign(w, e) => {
            law_eval_keeps_locations_unique(c, e, l);
            if let Some((c2, v)) = eval_spec(c, e, l) {
                if let Some(old) = read_spec(c2.store, w) {
                    law_drop_keeps_locations_unique(c2.store, seq![old.value]);
                    if let Some(st3) = drop_spec(c2.store, seq![old.value]) {
                        lemma_eval_write_unique(st3, w, Some(v));
                    }
                }
            }
        },
        StmtV::LetMut(x, e) => {
            law_eval_keeps_locations_unique(c, e, l);
            if let Some((c2, v)) = eval_spec(c, e, l) {
                crate::entries::lemma_insert_unique(c2.store, x, EvalSlotV { value: Some(v), lifetime: l });
            }
        },
        StmtV::Expr(e) => law_eval_keeps_locations_unique(c, e, l),
    }
}

// ---------------------------------------------------------------------------
// Dropping the locations of a lifetime
// ---------------------------------------------------------------------------

/// Every entry of `b` is the entry of its name in `a`.
pub open spec fn entries_from(a: StoreV, b: StoreV) -> bool {
    forall|j: int| 0 <= j < b.len() ==> lookup(a, #[trigger] b[j].0) == Some(b[j].1)
}

proof fn lemma_lookup_from(a: StoreV, b: StoreV, n: Seq<char>)
    requires
        entries_from(a, b),
        lookup(b, n) is Some,
    ensures
        lookup(a, n) == lookup(b, n),
{
    lemma_find_from(b, n, 0);
    let j = find_from(b, n, 0)->Some_0;
    assert(lookup(a, b[j].0) == Some(b[j].1));
}

proof fn lemma_entries_from_trans(a: StoreV, b: StoreV, c: StoreV)
    requires
        entries_from(a, b),
        entries_from(b, c),
    ensures
        entries_from(a, c),
{
    assert forall|j: int| 0 <= j < c.len() implies lookup(a, #[trigger] c[j].0) == Some(c[j].1) by {
        assert(lookup(b, c[j].0) == Some(c[j].1));
        lemma_lookup_from(a, b, c[j].0);
    }
}

proof fn lemma_entries_from_self(a: StoreV)
    requires
        names_unique(a),
    ensures
        entries_from(a, a),
{
    assert forall|j: int| 0 <= j < a.len() implies lookup(a, #[trigger] a[j].0) == Some(a[j].1) by {
        lemma_lookup_unique(a, j);
    }
}

/// Whether `vs` holds an owning reference to `loc`.
pub open spec fn owns(vs: Seq<Option<ValueV>>, loc: Seq<char>) -> bool {
    exists|k: int| 0 <= k < vs.len() && #[trigger] vs[k] == Some(ValueV::Ref(loc, Owned::Yes))
}

proof fn lemma_drop_level_sub(st: StoreV, vs: Seq<Option<ValueV>>)
    requires
        names_unique(st),
    ensures
        drop_level(st, vs) matches Some((st2, _)) ==> {
            &&& names_unique(st2)
            &&& entries_from(st, st2)
            &&& forall|loc: Seq<char>| owns(vs, loc) ==> #[trigger] lookup(st2, loc) is None
        },
    decreases vs.len(),
{
    if vs.len() == 0 {
        lemma_entries_from_self(st);
    } else {
        let rest = vs.drop_first();
        assert forall|loc: Seq<char>| owns(vs, loc) && vs[0] != Some(ValueV::Ref(loc, Owned::Yes))
            implies owns(rest, loc) by {
            let k = choose|k: int| 0 <= k < vs.len() && #[trigger] vs[k] == Some(ValueV::Ref(loc, Owned::Yes));
            assert(rest[k - 1] == vs[k]);
        }
        match vs[0] {
            Some(ValueV::Ref(loc0, Owned::Yes)) => match find_from(st, loc0, 0) {
                None => {},
                Some(i) => {
                    lemma_find_from(st, loc0, 0);
                    let st1 = st.remove(i);
                    lemma_remove_unique(st, i);
                    lemma_drop_level_sub(st1, rest);
                    assert(entries_from(st, st1)) by {
                        assert forall|j: int| 0 <= j < st1.len() implies lookup(st, #[trigger] st1[j].0)
                            == Some(st1[j].1) by {
                            let j2 = if j < i { j } else { j + 1 };
                            assert(st1[j] == st[j2]);
                            lemma_lookup_unique(st, j2);
                        }
                    }
                    assert(lookup(st1, loc0) is None) by {
                        lemma_find_from(st1, loc0, 0);
                        if let Some(j) = find_from(st1, loc0, 0) {
                            let j2 = if j < i { j } else { j + 1 };
                            assert(st1[j] == st[j2]);
                            if j2 < i {
                                assert(st[j2].0 != st[i].0);
                            } else {
                                assert(st[i].0 != st[j2].0);
                            }
                        }
                    }
                    if let Some((st2, res)) = drop_level(st1, rest) {
                        lemma_entries_from_trans(st, st1, st2);
                        assert forall|loc: Seq<char>| owns(vs, loc) implies #[trigger] lookup(st2, loc) is None by {
                            if loc == loc0 {
                                if lookup(st2, loc) is Some {
                                    lemma_lookup_from(st1, st2, loc);
                                }
                            }
                        }
                    }
                },
            },
            _ => {
                lemma_drop_level_sub(st, rest);
            },
        }
    }
}

proof fn lemma_drop_spec_sub(st: StoreV, vs: Seq<Option<ValueV>>)
    requires
        names_unique(st),
    ensures
        drop_spec(st, vs) matches Some(st2) ==> {
            &&& entries_from(st, st2)
            &&& forall|loc: Seq<char>| owns(vs, loc) ==> #[trigger] lookup(st2, loc) is None
        },
    decreases st.len(),
{
    lemma_drop_level_sub(st, vs);
    if let Some((st1, res)) = drop_level(st, vs) {
        if res.len() > 0 {
            crate::eval::lemma_drop_level_len(st, vs);
            lemma_drop_spec_sub(st1, res);
            if let Some(st2) = drop_spec(st1, res) {
                lemma_entries_from_trans(st, st1, st2);
                assert forall|loc: Seq<char>| owns(vs, loc) implies #[trigger] lookup(st2, loc) is None by {
                    if lookup(st2, loc) is Some {
                        lemma_lookup_from(st1, st2, loc);
                    }
                }
            }
        }
    }
}

proof fn lemma_locs_by_lifetime_owns(st: StoreV, l: nat)
    ensures
        forall|i: int| 0 <= i < st.len() && #[trigger] st[i].1.lifetime == l ==> owns(
            locs_by_lifetime_spec(st, l),
            st[i].0,
        ),
    decreases st.len(),
{
    if st.len() > 0 {
        let init = st.drop_last();
        lemma_locs_by_lifetime_owns(init, l);
        let r = locs_by_lifetime_spec(init, l);
        assert forall|i: int| 0 <= i < st.len() && #[trigger] st[i].1.lifetime == l implies owns(
            locs_by_lifetime_spec(st, l),
            st[i].0,
        ) by {
            if i < init.len() {
                assert(init[i] == st[i]);
                assert(owns(r, init[i].0));
                let k = choose|k: int| 0 <= k < r.len() && #[trigger] r[k] == Some(ValueV::Ref(init[i].0, Owned::Yes));
                if st.last().1.lifetime == l {
                    assert(r.push(Some(ValueV::Ref(st.last().0, Owned::Yes)))[k] == r[k]);
                }
            } else {
                let v = r.push(Some(ValueV::Ref(st.last().0, Owned::Yes)));
                assert(v[r.len() as int] == Some(ValueV::Ref(st[i].0, Owned::Yes)));
            }
        }
    }
}

/// Dropping the locations of lifetime `l` (and what they own) from a store with
/// unique locations leaves no location of lifetime `l`, and only slots that were
/// in the store.
pub proof fn law_drop_lifetime_locations(st: StoreV, l: nat)
    requires
        names_unique(st),
    ensures
        drop_spec(st, locs_by_lifetime_spec(st, l)) matches Some(st2) ==> {
            &&& names_unique(st2)
            &&& entries_from(st, st2)
            &&& forall|j: int| 0 <= j < st2.len() ==> #[trigger] st2[j].1.lifetime != l
        },
{
    let vs = locs_by_lifetime_spec(st, l);
    lemma_drop_spec_sub(st, vs);
    law_drop_keeps_locations_unique(st, vs);
    lemma_locs_by_lifetime_owns(st, l);
    if let Some(st2) = drop_spec(st, vs) {
        assert forall|j: int| 0 <= j < st2.len() implies #[trigger] st2[j].1.lifetime != l by {
            let n = st2[j].0;
            assert(lookup(st, n) == Some(st2[j].1));
            lemma_find_from(st, n, 0);
            let i = find_from(st, n, 0)->Some_0;
            if st2[j].1.lifetime == l {
                assert(st[i].1.lifetime == l);
                assert(owns(vs, st[i].0));
                lemma_find_from(st2, n, 0);
                assert(lookup(st2, n) is None);
            }
        }
    }
}

/// After a block runs from a store whose locations are unique, no location of
/// the block's lifetime is left in the store.
pub proof fn law_block_drops_its_locations(c: EvalState, ss: Seq<StmtV>, b: ExprV, l1: nat, l: nat)
    requires
        names_unique(c.store),
        eval_spec(c, ExprV::Block(ss, Box::new(b), l1), l) is Some,
    ensures
        forall|j: int| 0 <= j < eval_spec(c, ExprV::Block(ss, Box::new(b), l1), l).unwrap().0.store.len()
            ==> #[trigger] eval_spec(c, ExprV::Block(ss, Box::new(b), l1), l).unwrap().0.store[j].1.lifetime != l1,
{
    law_stmts_keep_locations_unique(c, ss, l1);
    let c2 = eval_stmts_spec(c, ss, l1).unwrap();
    law_eval_keeps_locations_unique(c2, b, l1);
    let c3 = eval_spec(c2, b, l1).unwrap().0;
    law_drop_lifetime_locations(c3.store, l1);
}

// ---------------------------------------------------------------------------
// What dropping removes, exactly
// ---------------------------------------------------------------------------

/// Location `o` holds an owning reference to `l`.
pub open spec fn holds_owning(st: StoreV, o: Seq<char>, l: Seq<char>) -> bool {
    lookup(st, o) matches Some(s) && s.value == Some(ValueV::Ref(l, Owned::Yes))
}

/// `p` is a chain of ownership from `vs`: `vs` owns `p[0]`, and each location
/// of `p` holds an owning reference to the next.
pub open spec fn owning_chain(st: StoreV, vs: Seq<Option<ValueV>>, p: Seq<Seq<char>>) -> bool {
    &&& p.len() > 0
    &&& owns(vs, p[0])
    &&& forall|i: int| 0 <= i < p.len() - 1 ==> #[trigger] holds_owning(st, p[i], p[i + 1])
}

/// `x` is owned by `vs`, directly or through what it owns.
pub open spec fn owned_from(st: StoreV, vs: Seq<Option<ValueV>>, x: Seq<char>) -> bool {
    exists|p: Seq<Seq<char>>| #[trigger] owning_chain(st, vs, p) && p.last() == x
}

proof fn lemma_owns_cons(vs: Seq<Option<ValueV>>)
    requires
        vs.len() > 0,
    ensures
        forall|y: Seq<char>| #[trigger] owns(vs, y) <==> (vs[0] == Some(ValueV::Ref(y, Owned::Yes)) || owns(
            vs.drop_first(),
            y,
        )),
{
    let r = vs.drop_first();
    assert forall|y: Seq<char>| #[trigger] owns(vs, y) <==> (vs[0] == Some(ValueV::Ref(y, Owned::Yes))
        || owns(r, y)) by {
        if owns(vs, y) && vs[0] != Some(ValueV::Ref(y, Owned::Yes)) {
            let k = choose|k: int| 0 <= k < vs.len() && #[trigger] vs[k] == Some(ValueV::Ref(y, Owned::Yes));
            assert(r[k - 1] == vs[k]);
        }
        if owns(r, y) {
            let k = choose|k: int| 0 <= k < r.len() && #[trigger] r[k] == Some(ValueV::Ref(y, Owned::Yes));
            assert(vs[k + 1] == r[k]);
        }
        if vs[0] == Some(ValueV::Ref(y, Owned::Yes)) {
            assert(owns(vs, y));
        }
    }
}

proof fn lemma_remove_lookup(st: StoreV, i: int)
    requires
        names_unique(st),
        0 <= i < st.len(),
    ensures
        names_unique(st.remove(i)),
        forall|y: Seq<char>| #[trigger] lookup(st.remove(i), y) == (if y == st[i].0 {
            None
        } else {
            lookup(st, y)
        }),
{
    let r = st.remove(i);
    lemma_remove_unique(st, i);
    assert forall|y: Seq<char>| #[trigger] lookup(r, y) == (if y == st[i].0 {
        None
    } else {
        lookup(st, y)
    }) by {
        lemma_find_from(r, y, 0);
        lemma_find_from(st, y, 0);
        if let Some(j) = find_from(r, y, 0) {
            let j2 = if j < i { j } else { j + 1 };
            assert(r[j] == st[j2]);
            lemma_lookup_unique(st, j2);
            if y == st[i].0 {
                if j2 < i {
                    assert(st[j2].0 != st[i].0);
                } else {
                    assert(st[i].0 != st[j2].0);
                }
            }
        } else if y != st[i].0 {
            if let Some(j) = find_from(st, y, 0) {
                let j1 = if j < i { j } else { j - 1 };
                assert(r[j1] == st[j]);
            }
        }
    }
}

proof fn lemma_drop_level_exact(st: StoreV, vs: Seq<Option<ValueV>>)
    requires
        names_unique(st),
    ensures
        drop_level(st, vs) matches Some((st1, res)) ==> {
            &&& names_unique(st1)
            &&& forall|y: Seq<char>| #[trigger] lookup(st1, y) == (if owns(vs, y) {
                None
            } else {
                lookup(st, y)
            })
            &&& forall|o: Seq<char>| #[trigger] owns(vs, o) ==> lookup(st, o) is Some
            &&& forall|o: Seq<char>, l: Seq<char>| owns(vs, o) && #[trigger] holds_owning(st, o, l) ==> owns(res, l)
            &&& forall|l: Seq<char>| #[trigger] owns(res, l) ==> exists|o: Seq<char>| owns(vs, o) && #[trigger] holds_owning(st, o, l)
        },
    decreases vs.len(),
{
    if vs.len() == 0 {
        assert forall|y: Seq<char>| !#[trigger] owns(vs, y) by {}
        assert forall|l: Seq<char>| !#[trigger] owns(Seq::<Option<ValueV>>::empty(), l) by {}
    } else {
        let rest = vs.drop_first();
        lemma_owns_cons(vs);
        match vs[0] {
            Some(ValueV::Ref(loc0, Owned::Yes)) => match find_from(st, loc0, 0) {
                None => {},
                Some(i) => {
                    lemma_find_from(st, loc0, 0);
                    let st1 = st.remove(i);
                    lemma_remove_lookup(st, i);
                    lemma_lookup_unique(st, i);
                    lemma_drop_level_exact(st1, rest);
                    if let Some((st2, res1)) = drop_level(st1, rest) {
                        let res = seq![st[i].1.value] + res1;
                        assert(drop_level(st, vs) == Some((st2, res)));
                        assert(res.drop_first() =~= res1);
                        assert(res[0] == st[i].1.value);
                        lemma_owns_cons(res);
                        assert forall|o: Seq<char>| #[trigger] owns(vs, o) implies lookup(st, o) is Some by {
                            if o != loc0 {
                                assert(owns(rest, o));
                                assert(lookup(st1, o) is Some);
                            }
                        }
                        assert forall|o: Seq<char>, l: Seq<char>| owns(vs, o) && #[trigger] holds_owning(st, o, l)
                            implies owns(res, l) by {
                            if o != loc0 {
                                assert(owns(rest, o));
                                assert(lookup(st1, o) is Some);
                                assert(holds_owning(st1, o, l));
                            }
                        }
                        assert forall|l: Seq<char>| #[trigger] owns(res, l) implies exists|o: Seq<char>| owns(vs, o)
                            && #[trigger] holds_owning(st, o, l) by {
                            if res[0] == Some(ValueV::Ref(l, Owned::Yes)) {
                                assert(owns(vs, loc0) && holds_owning(st, loc0, l));
                            } else {
                                assert(owns(res1, l));
                                let o = choose|o: Seq<char>| owns(rest, o) && #[trigger] holds_owning(st1, o, l);
                                assert(o != loc0);
                                assert(owns(vs, o) && holds_owning(st, o, l));
                            }
                        }
                    }
                },
            },
            _ => {
                lemma_drop_level_exact(st, rest);
            },
        }
    }
}

proof fn lemma_last_owned(vs: Seq<Option<ValueV>>, p: Seq<Seq<char>>, k: int) -> (j: int)
    requires
        0 <= k < p.len(),
        owns(vs, p[0]),
    ensures
        0 <= j <= k,
        owns(vs, p[j]),
        forall|m: int| j < m <= k ==> !owns(vs, #[trigger] p[m]),
    decreases k,
{
    if k == 0 || owns(vs, p[k]) {
        k
    } else {
        lemma_last_owned(vs, p, k - 1)
    }
}

/// Dropping the locations owned by `vs` from a store whose locations are
/// unique removes exactly the locations that `vs` owns, directly or through what
/// they own, and keeps every other location with its slot.
pub proof fn law_drop_exact(st: StoreV, vs: Seq<Option<ValueV>>)
    requires
        names_unique(st),
        drop_spec(st, vs) is Some,
    ensures
        names_unique(drop_spec(st, vs)->Some_0),
        forall|x: Seq<char>| #[trigger] lookup(drop_spec(st, vs)->Some_0, x) == (if owned_from(st, vs, x) {
            None
        } else {
            lookup(st, x)
        }),
    decreases st.len(),
{
    lemma_drop_level_exact(st, vs);
    law_drop_keeps_locations_unique(st, vs);
    let (st1, res) = drop_level(st, vs)->Some_0;
    let st2 = drop_spec(st, vs)->Some_0;
    assert forall|x: Seq<char>| owns(vs, x) implies owned_from(st, vs, x) by {
        let p = seq![x];
        assert(owning_chain(st, vs, p));
    }
    if res.len() == 0 {
        assert forall|x: Seq<char>| #[trigger] lookup(st2, x) == (if owned_from(st, vs, x) {
            None
        } else {
            lookup(st, x)
        }) by {
            if owned_from(st, vs, x) {
                let p = choose|p: Seq<Seq<char>>| #[trigger] owning_chain(st, vs, p) && p.last() == x;
                if p.len() > 1 {
                    assert(holds_owning(st, p[0], p[1]));
                    assert(owns(res, p[1]));
                }
            }
        }
    } else {
        crate::eval::lemma_drop_level_len(st, vs);
        law_drop_exact(st1, res);
        assert(st2 == drop_spec(st1, res)->Some_0);
        assert forall|x: Seq<char>| owned_from(st1, res, x) implies owned_from(st, vs, x) by {
            let q = choose|q: Seq<Seq<char>>| #[trigger] owning_chain(st1, res, q) && q.last() == x;
            let o = choose|o: Seq<char>| owns(vs, o) && #[trigger] holds_owning(st, o, q[0]);
            let p = seq![o] + q;
            assert forall|i: int| 0 <= i < p.len() - 1 implies #[trigger] holds_owning(st, p[i], p[i + 1]) by {
                if i == 0 {
                    assert(p[0] == o && p[1] == q[0]);
                } else {
                    let k = i - 1;
                    assert(p[i] == q[k] && p[i + 1] == q[k + 1]);
                    assert(holds_owning(st1, q[k], q[k + 1]));
                }
            }
            assert(p[0] == o);
            assert(owning_chain(st, vs, p));
            assert(p.last() == x);
        }
        assert forall|x: Seq<char>| owned_from(st, vs, x) && !owns(vs, x) implies owned_from(st1, res, x) by {
            let p = choose|p: Seq<Seq<char>>| #[trigger] owning_chain(st, vs, p) && p.last() == x;
            let j = lemma_last_owned(vs, p, p.len() - 1);
            assert(j < p.len() - 1);
            assert(holds_owning(st, p[j], p[j + 1]));
            let q = p.subrange(j + 1, p.len() as int);
            assert(q[0] == p[j + 1]);
            assert forall|i: int| 0 <= i < q.len() - 1 implies #[trigger] holds_owning(st1, q[i], q[i + 1]) by {
                let k = j + 1 + i;
                assert(q[i] == p[k] && q[i + 1] == p[k + 1]);
                assert(holds_owning(st, p[k], p[k + 1]));
                assert(!owns(vs, p[k]));
            }
            assert(owning_chain(st1, res, q));
            assert(q.last() == x);
        }
        assert forall|x: Seq<char>| #[trigger] lookup(st2, x) == (if owned_from(st, vs, x) {
            None
        } else {
            lookup(st, x)
        }) by {
            assert(lookup(st2, x) == (if owned_from(st1, res, x) {
                None
            } else {
                lookup(st1, x)
            }));
        }
    }
}

/// At the end of a block, exactly the locations of the block's lifetime and
/// what they own, directly or through what they own, leave the store: the
/// block's value is that of its result expression, evaluated after its
/// statements in the block's own lifetime, whatever the outer lifetime.
pub proof fn law_block_end_drops_exactly(c: EvalState, ss: Seq<StmtV>, b: ExprV, l1: nat, l: nat)
    requires
        names_unique(c.store),
        eval_spec(c, ExprV::Block(ss, Box::new(b), l1), l) is Some,
    ensures
        eval_stmts_spec(c, ss, l1) is Some,
        eval_spec(eval_stmts_spec(c, ss, l1)->Some_0, b, l1) is Some,
        ({
            let (c3, v) = eval_spec(eval_stmts_spec(c, ss, l1)->Some_0, b, l1)->Some_0;
            let (c4, v4) = eval_spec(c, ExprV::Block(ss, Box::new(b), l1), l)->Some_0;
            &&& v4 == v
            &&& c4.num == c3.num
            &&& names_unique(c4.store)
            &&& forall|x: Seq<char>| #[trigger] lookup(c4.store, x) == (if owned_from(
                c3.store,
                locs_by_lifetime_spec(c3.store, l1),
                x,
            ) {
                None
            } else {
                lookup(c3.store, x)
            })
        }),
{
    law_stmts_keep_locations_unique(c, ss, l1);
    let c2 = eval_stmts_spec(c, ss, l1).unwrap();
    law_eval_keeps_locations_unique(c2, b, l1);
    let c3 = eval_spec(c2, b, l1).unwrap().0;
    law_drop_exact(c3.store, locs_by_lifetime_spec(c3.store, l1));
}

proof fn lemma_locate_same(st: StoreV, t: StoreV, x: Seq<char>, k: nat)
    requires
        forall|y: Seq<char>| #[trigger] visits(st, x, k, y) ==> lookup(t, y) == lookup(st, y),
    ensures
        locate_from(t, x, k) == locate_from(st, x, k),
    decreases k,
{
    if k > 0 {
        assert(visits(st, x, k, x));
        if let Some(sl) = lookup(st, x) {
            if let Some(ValueV::Ref(next, _)) = sl.value {
                assert forall|y: Seq<char>| #[trigger] visits(st, next, (k - 1) as nat, y) implies lookup(t, y)
                    == lookup(st, y) by {
                    assert(visits(st, x, k, y));
                }
                lemma_locate_same(st, t, next, (k - 1) as nat);
            }
        }
    }
}

/// An assignment `w = e` evaluates `e`, then drops exactly what the old value at
/// `w` owned, directly or through what it owns. When neither the location of
/// `w` nor any location on the way to it is among those, the new value is then
/// stored at that location, which keeps its lifetime, and every other location
/// keeps its slot.
pub proof fn law_assign_drops_exactly(c: EvalState, w: LvalV, e: ExprV, l: nat)
    requires
        names_unique(c.store),
        eval_stmt_spec(c, StmtV::Assign(w, e), l) is Some,
    ensures
        eval_spec(c, e, l) is Some,
        ({
            let (c2, v) = eval_spec(c, e, l)->Some_0;
            let s = c2.store;
            let olds = seq![read_spec(s, w)->Some_0.value];
            let loc = locate_spec(s, w)->Some_0;
            let c5 = eval_stmt_spec(c, StmtV::Assign(w, e), l)->Some_0;
            &&& read_spec(s, w) is Some
            &&& drop_spec(s, olds) is Some
            &&& c5.num == c2.num
            &&& forall|x: Seq<char>| #[trigger] lookup(drop_spec(s, olds)->Some_0, x) == (if owned_from(s, olds, x) {
                None
            } else {
                lookup(s, x)
            })
            &&& (forall|y: Seq<char>| #[trigger] visits(s, w.ident, w.derefs, y) ==> !owned_from(s, olds, y))
                && !owned_from(s, olds, loc) ==> forall|x: Seq<char>| #[trigger] lookup(c5.store, x) == (if x
                == loc {
                Some(EvalSlotV { value: Some(v), lifetime: lookup(s, loc)->Some_0.lifetime })
            } else if owned_from(s, olds, x) {
                None
            } else {
                lookup(s, x)
            })
        }),
{
    law_eval_keeps_locations_unique(c, e, l);
    let (c2, v) = eval_spec(c, e, l)->Some_0;
    let s = c2.store;
    let olds = seq![read_spec(s, w)->Some_0.value];
    law_drop_exact(s, olds);
    let st3 = drop_spec(s, olds)->Some_0;
    let loc = locate_spec(s, w)->Some_0;
    if (forall|y: Seq<char>| #[trigger] visits(s, w.ident, w.derefs, y) ==> !owned_from(s, olds, y))
        && !owned_from(s, olds, loc) {
        assert forall|y: Seq<char>| #[trigger] visits(s, w.ident, w.derefs, y) implies lookup(st3, y) == lookup(
            s,
            y,
        ) by {
            assert(!owned_from(s, olds, y));
        }
        lemma_locate_same(s, st3, w.ident, w.derefs);
        assert(lookup(st3, loc) == lookup(s, loc));
        let slot = EvalSlotV { value: Some(v), lifetime: lookup(s, loc)->Some_0.lifetime };
        assert forall|x: Seq<char>| #[trigger] lookup(insert_entry(st3, loc, slot), x) == (if x == loc {
            Some(slot)
        } else if owned_from(s, olds, x) {
            None
        } else {
            lookup(s, x)
        }) by {
            lemma_insert_lookup(st3, loc, slot, x);
        }
    }
}

/// An expression statement has the effect of evaluating its expression, whose
/// value is discarded.
pub proof fn law_expression_statement(c: EvalState, e: ExprV, l: nat)
    ensures
        eval_stmt_spec(c, StmtV::Expr(e), l) == (match eval_spec(c, e, l) {
            Some((c2, _)) => Some(c2),
            None => None,
        }),
{
}

// ---------------------------------------------------------------------------
// Block lifetimes given by the parser
// ---------------------------------------------------------------------------

/// The lifetimes of the blocks in `e`, inner blocks first.
pub open spec fn expr_lts(e: ExprV) -> Seq<nat>
    decreases e,
{
    match e {
        ExprV::OBox(b) => expr_lts(*b),
        ExprV::Block(ss, b, l) => stmts_lts(ss) + expr_lts(*b) + seq![l],
        _ => Seq::empty(),
    }
}

pub open spec fn stmt_lts(s: StmtV) -> Seq<nat>
    decreases s,
{
    match s {
        StmtV::Assign(_, e) => expr_lts(e),
        StmtV::LetMut(_, e) => expr_lts(e),
        StmtV::Expr(e) => expr_lts(e),
    }
}

pub open spec fn stmts_lts(ss: Seq<StmtV>) -> Seq<nat>
    decreases ss,
{
    if ss.len() == 0 {
        Seq::empty()
    } else {
        stmt_lts(ss[0]) + stmts_lts(ss.drop_first())
    }
}

/// No lifetime occurs twice, and each lies in `lo + 1 ..= hi`.
pub open spec fn fresh_in(xs: Seq<nat>, lo: nat, hi: nat) -> bool {
    &&& xs.no_duplicates()
    &&& forall|i: int| 0 <= i < xs.len() ==> lo < #[trigger] xs[i] <= hi
}

proof fn lemma_fresh_concat(a: Seq<nat>, b: Seq<nat>, lo: nat, mid: nat, hi: nat)
    requires
        lo <= mid <= hi,
        fresh_in(a, lo, mid),
        fresh_in(b, mid, hi),
    ensures
        fresh_in(a + b, lo, hi),
{
    let c = a + b;
    assert forall|i: int| 0 <= i < c.len() implies lo < #[trigger] c[i] <= hi by {
        if i < a.len() {
            assert(c[i] == a[i]);
            assert(lo < a[i] <= mid);
        } else {
            assert(c[i] == b[i - a.len()]);
            assert(mid < b[i - a.len()] <= hi);
        }
    }
    assert forall|i: int, j: int| 0 <= i < c.len() && 0 <= j < c.len() && i != j implies c[i] != c[j] by {
        if i < a.len() && j < a.len() {
            assert(c[i] == a[i] && c[j] == a[j]);
        } else if i >= a.len() && j >= a.len() {
            assert(c[i] == b[i - a.len()] && c[j] == b[j - a.len()]);
        } else if i < a.len() {
            assert(c[i] == a[i] && c[j] == b[j - a.len()]);
            assert(a[i] <= mid && mid < b[j - a.len()]);
        } else {
            assert(c[j] == a[j] && c[i] == b[i - a.len()]);
            assert(a[j] <= mid && mid < b[i - a.len()]);
        }
    }
}

proof fn lemma_fresh_widen(a: Seq<nat>, lo: nat, hi: nat, lo2: nat, hi2: nat)
    requires
        fresh_in(a, lo, hi),
        lo2 <= lo,
        hi <= hi2,
    ensures
        fresh_in(a, lo2, hi2),
{
}

proof fn lemma_stmts_lts_push(ss: Seq<StmtV>, x: StmtV)
    ensures
        stmts_lts(ss.push(x)) == stmts_lts(ss) + stmt_lts(x),
    decreases ss.len(),
{
    if ss.len() == 0 {
        assert(ss.push(x).drop_first() =~= Seq::<StmtV>::empty());
        assert(ss.push(x)[0] == x);
        assert(stmts_lts(Seq::<StmtV>::empty()) == Seq::<nat>::empty());
        assert(stmts_lts(ss.push(x)) =~= stmt_lts(x) + Seq::<nat>::empty());
        assert(stmts_lts(ss) + stmt_lts(x) =~= stmt_lts(x));
    } else {
        lemma_stmts_lts_push(ss.drop_first(), x);
        assert(ss.push(x).drop_first() =~= ss.drop_first().push(x));
        assert(ss.push(x)[0] == ss[0]);
        assert(stmts_lts(ss.push(x)) =~= stmt_lts(ss[0]) + (stmts_lts(ss.drop_first()) + stmt_lts(x)));
        assert(stmts_lts(ss) + stmt_lts(x) =~= stmt_lts(ss[0]) + stmts_lts(ss.drop_first()) + stmt_lts(x));
    }
}

proof fn lemma_block_end_lts(st: Stream, s: PS, stmts: Seq<StmtV>, lo: nat)
    requires
        lo <= s.lt,
        fresh_in(stmts_lts(stmts), lo, s.lt),
    ensures
        p_block_end(st, s, stmts) matches Some((s2, r)) ==> s2.lt >= s.lt && s2.pos >= s.pos && (r matches Ok(
            e,
        ) ==> fresh_in(expr_lts(e), lo, s2.lt) && s2.lt == s.lt + 1 && expr_lts(e).len() == stmts_lts(
            stmts,
        ).len() + 1 && (e matches ExprV::Block(_, _, l) && l == s2.lt)),
{
    if let Some((s3, Ok(_))) = next_match(st, s, TokenV::Rbracket) {
        let l = s3.lt + 1;
        assert(fresh_in(seq![l], s3.lt, l));
        lemma_fresh_widen(stmts_lts(stmts), lo, s.lt, lo, s3.lt);
        lemma_fresh_concat(stmts_lts(stmts), seq![l], lo, s3.lt, l);
        let s4 = PS { pos: s3.pos, lt: l };
        if stmts.len() > 0 && stmts.last() is Expr {
            let last = stmts.last()->Expr_0;
            let init = stmts.drop_last();
            lemma_stmts_lts_push(init, stmts.last());
            assert(init.push(stmts.last()) =~= stmts);
            assert(stmts_lts(stmts) == stmts_lts(init) + expr_lts(last));
            let e = ExprV::Block(init, Box::new(last), l);
            assert(expr_lts(e) == stmts_lts(init) + expr_lts(last) + seq![l]);
            assert(expr_lts(e) =~= stmts_lts(stmts) + seq![l]);
            assert(p_block_end(st, s, stmts) == Some((s4, Ok::<ExprV, crate::parser::ErrorV>(e))));
        } else {
            let e = ExprV::Block(stmts, Box::new(ExprV::Unit), l);
            assert(expr_lts(ExprV::Unit) == Seq::<nat>::empty());
            assert(expr_lts(e) =~= stmts_lts(stmts) + seq![l]);
            assert(p_block_end(st, s, stmts) == Some((s4, Ok::<ExprV, crate::parser::ErrorV>(e))));
        }
    }
}

/// Parsing a block gives it the next lifetime after those of the blocks inside
/// it: the lifetimes of all blocks parsed are distinct, above the last one given
/// before (so none is the global lifetime), the counter rises by exactly the
/// number of blocks parsed, and the last one given after is the block's own.
pub proof fn law_block_lifetimes(st: Stream, s: PS)
    ensures
        p_block(st, s) matches Some((s2, r)) ==> s2.lt >= s.lt && s2.pos >= s.pos && (r matches Ok(e) ==> {
            &&& (fresh_in(expr_lts(e), s.lt, s2.lt) && s2.lt == s.lt + expr_lts(e).len())
            &&& e matches ExprV::Block(_, _, l) && l == s2.lt
        }),
    decreases st.toks.len() - s.pos, 1int,
{
    if s.pos <= st.toks.len() {
        if let Some((s1, Ok(_))) = next_match(st, s, TokenV::Lbracket) {
            law_statements_lifetimes(st, s1, Seq::empty(), s.lt);
            assert(stmts_lts(Seq::<StmtV>::empty()) == Seq::<nat>::empty());
            if let Some((s2, Ok(stmts))) = p_stmts(st, s1, Seq::empty()) {
                lemma_block_end_lts(st, s2, stmts, s.lt);
            }
        }
    }
}

/// Parsing statements never lowers the last lifetime given; when the blocks of
/// the statements `acc` already parsed have distinct lifetimes above `lo`, so do
/// those of all the statements parsed, up to the last lifetime given after.
pub proof fn law_statements_lifetimes(st: Stream, s: PS, acc: Seq<StmtV>, lo: nat)
    requires
        lo <= s.lt,
        fresh_in(stmts_lts(acc), lo, s.lt),
    ensures
        p_stmts(st, s, acc) matches Some((s2, r)) ==> s2.lt >= s.lt && s2.pos >= s.pos && (r matches Ok(ss)
            ==> fresh_in(stmts_lts(ss), lo, s2.lt) && s2.lt + stmts_lts(acc).len() == s.lt + stmts_lts(
            ss,
        ).len()),
    decreases st.toks.len() - s.pos, 5int,
{
    if s.pos <= st.toks.len() {
        if let Some(Ok(t)) = peek(st, s) {
            if t != TokenV::Rbracket {
                law_statement_lifetimes(st, s);
                if let Some((s2, Ok(stmt))) = p_stmt(st, s) {
                    if s.pos < s2.pos <= st.toks.len() {
                        lemma_stmts_lts_push(acc, stmt);
                        lemma_fresh_concat(stmts_lts(acc), stmt_lts(stmt), lo, s.lt, s2.lt);
                        law_statements_lifetimes(st, s2, acc.push(stmt), lo);
                    }
                }
            }
        }
    }
}

/// Parsing a statement never lowers the last lifetime given, and the blocks in
/// it get distinct lifetimes above it.
pub proof fn law_statement_lifetimes(st: Stream, s: PS)
    ensures
        p_stmt(st, s) matches Some((s2, r)) ==> s2.lt >= s.lt && s2.pos >= s.pos && (r matches Ok(x) ==> (fresh_in(stmt_lts(x), s.lt, s2.lt) && s2.lt == s.lt + stmt_lts(x).len())),
    decreases st.toks.len() - s.pos, 4int,
{
    if s.pos <= st.toks.len() {
        if let Some(Ok(t)) = peek(st, s) {
            match t {
                TokenV::Star | TokenV::Var(_) => lemma_stmt_lval_lts(st, s),
                TokenV::Semicolon => {},
                TokenV::Let => lemma_stmt_let_lts(st, s),
                _ => lemma_stmt_expr_lts(st, s),
            }
        }
    }
}

proof fn lemma_stmt_lval_lts(st: Stream, s: PS)
    ensures
        p_stmt_lval(st, s) matches Some((s2, r)) ==> s2.lt >= s.lt && s2.pos >= s.pos && (r matches Ok(x)
            ==> (fresh_in(stmt_lts(x), s.lt, s2.lt) && s2.lt == s.lt + stmt_lts(x).len())),
    decreases st.toks.len() - s.pos, 3int,
{
    if s.pos <= st.toks.len() {
        crate::parser::lemma_p_lval(st, s);
        if let Some((s1, Ok(lv))) = p_lval(st, s) {
            if let Some(Ok(t1)) = peek(st, s1) {
                if t1 == TokenV::Eq {
                    let s2 = PS { pos: s1.pos + 1, lt: s1.lt };
                    law_expression_lifetimes(st, s2);
                }
            }
        }
    }
}

proof fn lemma_stmt_let_lts(st: Stream, s: PS)
    ensures
        p_stmt_let(st, s) matches Some((s2, r)) ==> s2.lt >= s.lt && s2.pos >= s.pos && (r matches Ok(x)
            ==> (fresh_in(stmt_lts(x), s.lt, s2.lt) && s2.lt == s.lt + stmt_lts(x).len())),
    decreases st.toks.len() - s.pos, 3int,
{
    if s.pos < st.toks.len() {
        let s1 = PS { pos: s.pos + 1, lt: s.lt };
        if let Some((s2, Ok(_))) = next_match(st, s1, TokenV::Mut) {
            if let Some((s3, Ok(x))) = next_var(st, s2) {
                if let Some((s4, Ok(_))) = next_match(st, s3, TokenV::Eq) {
                    lemma_stmt_let_rest_lts(st, s4, x);
                }
            }
        }
    }
}

proof fn lemma_stmt_let_rest_lts(st: Stream, s: PS, x: Seq<char>)
    ensures
        p_stmt_let_rest(st, s, x) matches Some((s2, r)) ==> s2.lt >= s.lt && s2.pos >= s.pos && (r matches Ok(
            y,
        ) ==> (fresh_in(stmt_lts(y), s.lt, s2.lt) && s2.lt == s.lt + stmt_lts(y).len())),
    decreases st.toks.len() - s.pos, 3int,
{
    if s.pos <= st.toks.len() {
        law_expression_lifetimes(st, s);
    }
}

proof fn lemma_stmt_expr_lts(st: Stream, s: PS)
    ensures
        p_stmt_expr(st, s) matches Some((s2, r)) ==> s2.lt >= s.lt && s2.pos >= s.pos && (r matches Ok(x)
            ==> (fresh_in(stmt_lts(x), s.lt, s2.lt) && s2.lt == s.lt + stmt_lts(x).len())),
    decreases st.toks.len() - s.pos, 3int,
{
    if s.pos <= st.toks.len() {
        law_expression_lifetimes(st, s);
    }
}

proof fn lemma_box_lts(st: Stream, s: PS)
    ensures
        p_box(st, s) matches Some((s2, r)) ==> s2.lt >= s.lt && s2.pos >= s.pos && (r matches Ok(e) ==> (fresh_in(expr_lts(e), s.lt, s2.lt) && s2.lt == s.lt + expr_lts(e).len())),
    decreases st.toks.len() - s.pos, 1int,
{
    if s.pos <= st.toks.len() {
        if let Some((s1, Ok(_))) = next_match(st, s, TokenV::Box) {
            if let Some((s2, Ok(_))) = next_match(st, s1, TokenV::Lparen) {
                law_expression_lifetimes(st, s2);
            }
        }
    }
}

/// Parsing an expression never lowers the last lifetime given, and the blocks
/// in it get distinct lifetimes above it.
pub proof fn law_expression_lifetimes(st: Stream, s: PS)
    ensures
        p_expr(st, s) matches Some((s2, r)) ==> s2.lt >= s.lt && s2.pos >= s.pos && (r matches Ok(e) ==> (fresh_in(expr_lts(e), s.lt, s2.lt) && s2.lt == s.lt + expr_lts(e).len())),
    decreases st.toks.len() - s.pos, 2int,
{
    if s.pos <= st.toks.len() {
        if let Some(Ok(t)) = peek(st, s) {
            match t {
                TokenV::Var(_) | TokenV::Star => crate::parser::lemma_p_lval(st, s),
                TokenV::Box => lemma_box_lts(st, s),
                TokenV::Ampersand => {
                    let s1 = PS { pos: s.pos + 1, lt: s.lt };
                    if let Some(Ok(t1)) = peek(st, s1) {
                        let s2 = if t1 == TokenV::Mut {
                            PS { pos: s1.pos + 1, lt: s1.lt }
                        } else {
                            s1
                        };
                        if s2.pos <= st.toks.len() {
                            crate::parser::lemma_p_lval(st, s2);
                        }
                    }
                },
                TokenV::Lbracket => law_block_lifetimes(st, s),
                _ => {},
            }
        }
    }
}

/// In a parsed program, every block has its own lifetime, above the one the
/// parser started from and at most the last one it gave; the counter rises by
/// exactly the number of blocks.
pub proof fn law_program_lifetimes(st: Stream, s: PS)
    ensures
        p_program(st, s) matches Some((s2, Ok(e))) ==> (fresh_in(expr_lts(e), s.lt, s2.lt) && s2.lt == s.lt + expr_lts(e).len()),
{
    if let Some((s1, Ok(_))) = next_match(st, s, TokenV::Fn) {
        if let Some((s2, Ok(t))) = next_tok(st, s1) {
            if let Some((s3, Ok(_))) = next_match(st, s2, TokenV::Lparen) {
                if let Some((s4, Ok(_))) = next_match(st, s3, TokenV::Rparen) {
                    law_block_lifetimes(st, s4);
                    if let Some((s5, out)) = p_block(st, s4) {
                        if let Some(Ok(_)) = peek(st, s5) {
                            if let Some((s6, _)) = next_tok(st, s5) {
                                assert(s6.lt == s5.lt);
                            }
                        }
                    }
                }
            }
            law_block_lifetimes(st, s2);
        }
    }
}

// ---------------------------------------------------------------------------
// Parsing fails only where lexing fails
// ---------------------------------------------------------------------------

/// The tokens end otherwise than by a failure of lexing.
pub open spec fn lexed(st: Stream) -> bool {
    st.end != End::Crash
}

proof fn lemma_total_stars(st: Stream, s: PS, k: nat)
    ensures
        s.pos <= st.toks.len() && lexed(st) ==> p_stars(st, s, k) is Some,
        p_stars(st, s, k) matches Some((s2, _)) ==> s.pos <= s2.pos <= st.toks.len(),
    decreases st.toks.len() - s.pos,
{
    if s.pos <= st.toks.len() {
        if let Some(Ok(t)) = peek(st, s) {
            if t == TokenV::Star {
                lemma_total_stars(st, PS { pos: s.pos + 1, lt: s.lt }, k + 1);
            }
        }
    }
}

proof fn lemma_total_lval(st: Stream, s: PS)
    ensures
        s.pos <= st.toks.len() && lexed(st) ==> p_lval(st, s) is Some,
        p_lval(st, s) matches Some((s2, _)) ==> s.pos <= s2.pos <= st.toks.len(),
{
    lemma_total_stars(st, s, 0);
}

pub(crate) proof fn lemma_total_block(st: Stream, s: PS)
    ensures
        s.pos <= st.toks.len() && lexed(st) ==> p_block(st, s) is Some,
        p_block(st, s) matches Some((s2, _)) ==> s.pos <= s2.pos <= st.toks.len(),
    decreases st.toks.len() - s.pos, 1int,
{
    if s.pos <= st.toks.len() {
        if let Some((s1, Ok(_))) = next_match(st, s, TokenV::Lbracket) {
            lemma_total_stmts(st, s1, Seq::empty());
        }
    }
}

proof fn lemma_total_stmts(st: Stream, s: PS, acc: Seq<StmtV>)
    ensures
        s.pos <= st.toks.len() && lexed(st) ==> p_stmts(st, s, acc) is Some,
        p_stmts(st, s, acc) matches Some((s2, _)) ==> s.pos <= s2.pos <= st.toks.len(),
    decreases st.toks.len() - s.pos, 5int,
{
    if s.pos <= st.toks.len() {
        if let Some(Ok(t)) = peek(st, s) {
            if t != TokenV::Rbracket {
                lemma_total_stmt(st, s);
                if let Some((s2, Ok(stmt))) = p_stmt(st, s) {
                    lemma_total_stmts(st, s2, acc.push(stmt));
                }
            }
        }
    }
}

proof fn lemma_total_stmt(st: Stream, s: PS)
    ensures
        s.pos <= st.toks.len() && lexed(st) ==> p_stmt(st, s) is Some,
        p_stmt(st, s) matches Some((s2, r)) ==> s.pos <= s2.pos <= st.toks.len() && (r is Ok ==> s.pos
            < s2.pos),
    decreases st.toks.len() - s.pos, 4int,
{
    if s.pos <= st.toks.len() {
        if let Some(Ok(t)) = peek(st, s) {
            match t {
                TokenV::Star | TokenV::Var(_) => {
                    crate::parser::lemma_p_lval(st, s);
                    lemma_total_lval(st, s);
                    if let Some((s1, Ok(_))) = p_lval(st, s) {
                        if let Some(Ok(t1)) = peek(st, s1) {
                            if t1 == TokenV::Eq {
                                lemma_total_expr(st, PS { pos: s1.pos + 1, lt: s1.lt });
                            }
                        }
                    }
                },
                TokenV::Semicolon => {},
                TokenV::Let => {
                    let s1 = PS { pos: s.pos + 1, lt: s.lt };
                    if let Some((s2, Ok(_))) = next_match(st, s1, TokenV::Mut) {
                        if let Some((s3, Ok(x))) = next_var(st, s2) {
                            if let Some((s4, Ok(_))) = next_match(st, s3, TokenV::Eq) {
                                lemma_total_expr(st, s4);
                            }
                        }
                    }
                },
                _ => lemma_total_expr(st, s),
            }
        }
    }
}

proof fn lemma_total_expr(st: Stream, s: PS)
    ensures
        s.pos <= st.toks.len() && lexed(st) ==> p_expr(st, s) is Some,
        p_expr(st, s) matches Some((s2, _)) ==> s.pos <= s2.pos <= st.toks.len(),
    decreases st.toks.len() - s.pos, 2int,
{
    if s.pos <= st.toks.len() {
        if let Some(Ok(t)) = peek(st, s) {
            match t {
                TokenV::Var(_) | TokenV::Star => lemma_total_lval(st, s),
                TokenV::Box => {
                    if let Some((s1, Ok(_))) = next_match(st, s, TokenV::Box) {
                        if let Some((s2, Ok(_))) = next_match(st, s1, TokenV::Lparen) {
                            lemma_total_expr(st, s2);
                        }
                    }
                },
                TokenV::Ampersand => {
                    let s1 = PS { pos: s.pos + 1, lt: s.lt };
                    if let Some(Ok(t1)) = peek(st, s1) {
                        let s2 = if t1 == TokenV::Mut {
                            PS { pos: s1.pos + 1, lt: s1.lt }
                        } else {
                            s1
                        };
                        lemma_total_lval(st, s2);
                    }
                },
                TokenV::Lbracket => lemma_total_block(st, s),
                _ => {},
            }
        }
    }
}

/// Parsing a program fails only where lexing fails: when the tokens do not end
/// in a failure of lexing, the parser gives a program or an error.
pub proof fn law_parse_defined(st: Stream, s: PS)
    requires
        s.pos <= st.toks.len(),
        lexed(st),
    ensures
        p_program(st, s) is Some,
{
    if let Some((s1, Ok(_))) = next_match(st, s, TokenV::Fn) {
        if let Some((s2, Ok(t))) = next_tok(st, s1) {
            lemma_total_block(st, s2);
            if let Some((s3, Ok(_))) = next_match(st, s2, TokenV::Lparen) {
                if let Some((s4, Ok(_))) = next_match(st, s3, TokenV::Rparen) {
                    lemma_total_block(st, s4);
                }
            }
        }
    }
}

// ---------------------------------------------------------------------------
// Where the parse meets a failure of lexing
// ---------------------------------------------------------------------------

/// A parse outcome that reports the end of the text.
pub open spec fn ends_at_eof<T>(r: Option<(PS, Result<T, ErrorV>)>) -> bool {
    r matches Some((_, Err(ErrorV::EndOfFile)))
}

/// What a parse gives on tokens that end in a failure of lexing, from what it
/// gives when that failure reads as the end of the text: it fails exactly when
/// it meets the end.
pub open spec fn at_failure<T>(r: Option<(PS, Result<T, ErrorV>)>) -> Option<(PS, Result<T, ErrorV>)> {
    if ends_at_eof(r) {
        None
    } else {
        r
    }
}

proof fn lemma_fail_stars(raw: Stream, s: PS, k: nat)
    requires
        raw.end == End::Crash,
    ensures
        p_stars(raw, s, k) == at_failure(p_stars(seen(true, raw), s, k)),
    decreases raw.toks.len() - s.pos,
{
    if s.pos <= raw.toks.len() {
        if let Some(Ok(t)) = peek(raw, s) {
            if t == TokenV::Star {
                lemma_fail_stars(raw, PS { pos: s.pos + 1, lt: s.lt }, k + 1);
            }
        }
    }
}

proof fn lemma_fail_lval(raw: Stream, s: PS)
    requires
        raw.end == End::Crash,
    ensures
        p_lval(raw, s) == at_failure(p_lval(seen(true, raw), s)),
{
    lemma_fail_stars(raw, s, 0);
}

pub(crate) proof fn lemma_fail_block(raw: Stream, s: PS)
    requires
        raw.end == End::Crash,
    ensures
        p_block(raw, s) == at_failure(p_block(seen(true, raw), s)),
    decreases raw.toks.len() - s.pos, 1int,
{
    if s.pos <= raw.toks.len() {
        if let Some((s1, Ok(_))) = next_match(raw, s, TokenV::Lbracket) {
            lemma_fail_stmts(raw, s1, Seq::empty());
        }
    }
}

proof fn lemma_fail_stmts(raw: Stream, s: PS, acc: Seq<StmtV>)
    requires
        raw.end == End::Crash,
    ensures
        p_stmts(raw, s, acc) == at_failure(p_stmts(seen(true, raw), s, acc)),
    decreases raw.toks.len() - s.pos, 5int,
{
    if s.pos <= raw.toks.len() {
        if let Some(Ok(t)) = peek(raw, s) {
            if t != TokenV::Rbracket {
                lemma_fail_stmt(raw, s);
                if let Some((s2, Ok(stmt))) = p_stmt(raw, s) {
                    if s.pos < s2.pos <= raw.toks.len() {
                        lemma_fail_stmts(raw, s2, acc.push(stmt));
                    }
                }
            }
        }
    }
}

proof fn lemma_fail_stmt(raw: Stream, s: PS)
    requires
        raw.end == End::Crash,
    ensures
        p_stmt(raw, s) == at_failure(p_stmt(seen(true, raw), s)),
    decreases raw.toks.len() - s.pos, 4int,
{
    if s.pos <= raw.toks.len() {
        if let Some(Ok(t)) = peek(raw, s) {
            match t {
                TokenV::Star | TokenV::Var(_) => lemma_fail_stmt_lval(raw, s),
                TokenV::Semicolon => {},
                TokenV::Let => lemma_fail_stmt_let(raw, s),
                _ => lemma_fail_stmt_expr(raw, s),
            }
        }
    }
}

proof fn lemma_fail_stmt_lval(raw: Stream, s: PS)
    requires
        raw.end == End::Crash,
    ensures
        p_stmt_lval(raw, s) == at_failure(p_stmt_lval(seen(true, raw), s)),
    decreases raw.toks.len() - s.pos, 3int,
{
    if s.pos <= raw.toks.len() {
        crate::parser::lemma_p_lval(raw, s);
        lemma_fail_lval(raw, s);
        if let Some((s1, Ok(lv))) = p_lval(raw, s) {
            if let Some(Ok(t1)) = peek(raw, s1) {
                if t1 == TokenV::Eq {
                    lemma_fail_expr(raw, PS { pos: s1.pos + 1, lt: s1.lt });
                }
            }
        }
    }
}

proof fn lemma_fail_stmt_let(raw: Stream, s: PS)
    requires
        raw.end == End::Crash,
    ensures
        p_stmt_let(raw, s) == at_failure(p_stmt_let(seen(true, raw), s)),
    decreases raw.toks.len() - s.pos, 3int,
{
    if s.pos < raw.toks.len() {
        let s1 = PS { pos: s.pos + 1, lt: s.lt };
        if let Some((s2, Ok(_))) = next_match(raw, s1, TokenV::Mut) {
            if let Some((s3, Ok(x))) = next_var(raw, s2) {
                if let Some((s4, Ok(_))) = next_match(raw, s3, TokenV::Eq) {
                    lemma_fail_stmt_let_rest(raw, s4, x);
                }
            }
        }
    }
}

proof fn lemma_fail_stmt_let_rest(raw: Stream, s: PS, x: Seq<char>)
    requires
        raw.end == End::Crash,
    ensures
        p_stmt_let_rest(raw, s, x) == at_failure(p_stmt_let_rest(seen(true, raw), s, x)),
    decreases raw.toks.len() - s.pos, 3int,
{
    if s.pos <= raw.toks.len() {
        lemma_fail_expr(raw, s);
    }
}

proof fn lemma_fail_stmt_expr(raw: Stream, s: PS)
    requires
        raw.end == End::Crash,
    ensures
        p_stmt_expr(raw, s) == at_failure(p_stmt_expr(seen(true, raw), s)),
    decreases raw.toks.len() - s.pos, 3int,
{
    if s.pos <= raw.toks.len() {
        lemma_fail_expr(raw, s);
    }
}

proof fn lemma_fail_box(raw: Stream, s: PS)
    requires
        raw.end == End::Crash,
    ensures
        p_box(raw, s) == at_failure(p_box(seen(true, raw), s)),
    decreases raw.toks.len() - s.pos, 1int,
{
    if s.pos <= raw.toks.len() {
        if let Some((s1, Ok(_))) = next_match(raw, s, TokenV::Box) {
            if let Some((s2, Ok(_))) = next_match(raw, s1, TokenV::Lparen) {
                lemma_fail_expr(raw, s2);
            }
        }
    }
}

proof fn lemma_fail_expr(raw: Stream, s: PS)
    requires
        raw.end == End::Crash,
    ensures
        p_expr(raw, s) == at_failure(p_expr(seen(true, raw), s)),
    decreases raw.toks.len() - s.pos, 2int,
{
    if s.pos <= raw.toks.len() {
        if let Some(Ok(t)) = peek(raw, s) {
            match t {
                TokenV::Var(_) | TokenV::Star => lemma_fail_lval(raw, s),
                TokenV::Box => lemma_fail_box(raw, s),
                TokenV::Ampersand => {
                    let s1 = PS { pos: s.pos + 1, lt: s.lt };
                    if let Some(Ok(t1)) = peek(raw, s1) {
                        let s2 = if t1 == TokenV::Mut {
                            PS { pos: s1.pos + 1, lt: s1.lt }
                        } else {
                            s1
                        };
                        lemma_fail_lval(raw, s2);
                    }
                },
                TokenV::Lbracket => lemma_fail_block(raw, s),
                _ => {},
            }
        }
    }
}

// ---------------------------------------------------------------------------
// Copies, moves, borrows, compatibility and lifetimes, stated on the types
// ---------------------------------------------------------------------------

/// No part of `t` reached through its boxes is marked moved out.
proof fn lemma_defined_boxes(t: TypeV, k: nat)
    requires
        crate::types::is_defined(t),
    ensures
        !(box_at(t, k) is Undefined),
    decreases k,
{
    if k > 0 {
        if let TypeV::TBox(b) = t {
            lemma_defined_boxes(*b, (k - 1) as nat);
        }
    }
}

/// A reference found inside the boxes of `t` is what `t` holds.
proof fn lemma_box_at_ref(t: TypeV, k: nat)
    requires
        box_at(t, k) is Ref,
    ensures
        crate::types::contained_spec(t) == Some(box_at(t, k)),
    decreases k,
{
    if k > 0 {
        if let TypeV::TBox(b) = t {
            lemma_box_at_ref(*b, (k - 1) as nat);
        }
    }
}

/// Using lvalue `w`: a value of type unit, int or shared reference is copied
/// (the use is marked copyable and the context is unchanged); any other value,
/// a mutable reference or a box, is moved (the use is marked not copyable and
/// `w` is afterwards typed as moved out, in the same lifetime). Either way the
/// use has the type of `w`, and no part of that type was moved out before.
pub proof fn law_lvalue_copy_or_move(c: CtxV, w: LvalV, cp: Copyable, k: nat)
    requires
        tc_expr(c, ExprV::Lv(w, cp)) matches Some((_, _, Ok(_))),
    ensures
        lval_resolves(c.env, w),
        type_lval_spec(c.env, w) is Ok,
        ({
            let s = type_lval_spec(c.env, w)->Ok_0;
            let (c2, e2, r) = tc_expr(c, ExprV::Lv(w, cp))->Some_0;
            &&& r == Ok::<TypeV, crate::types::ErrorV>(s.tipe)
            &&& !(box_at(s.tipe, k) is Undefined)
            &&& (s.tipe == TypeV::Unit || s.tipe == TypeV::Int || s.tipe matches TypeV::Ref(_, Mutable::No))
                ==> e2 == ExprV::Lv(w, Copyable::Yes) && c2 == c
            &&& !(s.tipe == TypeV::Unit || s.tipe == TypeV::Int || s.tipe matches TypeV::Ref(_, Mutable::No))
                ==> {
                &&& e2 == ExprV::Lv(w, Copyable::No)
                &&& c2.lifetime == c.lifetime
                &&& lval_resolves(c2.env, w)
                &&& type_lval_spec(c2.env, w) == Ok::<SlotV, crate::types::ErrorV>(
                    SlotV { tipe: TypeV::Undefined(Box::new(s.tipe)), lifetime: s.lifetime },
                )
            }
        }),
{
    let s = type_lval_spec(c.env, w)->Ok_0;
    lemma_defined_boxes(s.tipe, k);
    if let Ok(env2) = moove_spec(c.env, w) {
        law_move_then_type(c.env, w, w.ident);
    }
}

/// Borrowing `w` (shared or mutable) type checks only when no part of the type
/// at `w`, through its boxes, was moved out; the borrow then has the type of a
/// reference to `w` of the same mutability, and leaves the context unchanged.
pub proof fn law_borrow_needs_defined_place(c: CtxV, w: LvalV, m: Mutable, k: nat)
    requires
        tc_expr(c, ExprV::Borrow(w, m)) matches Some((_, _, Ok(_))),
    ensures
        lval_resolves(c.env, w),
        type_lval_spec(c.env, w) is Ok,
        !(box_at(type_lval_spec(c.env, w)->Ok_0.tipe, k) is Undefined),
        tc_expr(c, ExprV::Borrow(w, m)) == Some(
            (c, ExprV::Borrow(w, m), Ok::<TypeV, crate::types::ErrorV>(TypeV::Ref(w, m))),
        ),
{
    lemma_defined_boxes(type_lval_spec(c.env, w)->Ok_0.tipe, k);
}

/// References of different mutability are never compatible.
pub proof fn law_refs_of_different_mutability(env: EnvV, u1: LvalV, m1: Mutable, u2: LvalV, m2: Mutable)
    requires
        m1 != m2,
    ensures
        crate::types::compat_resolves(env, TypeV::Ref(u1, m1), TypeV::Ref(u2, m2)),
        !crate::types::compatible_spec(env, TypeV::Ref(u1, m1), TypeV::Ref(u2, m2)),
{
    assert(crate::types::compat(env, TypeV::Ref(u1, m1), TypeV::Ref(u2, m2), 0) is Some);
}

/// An assignment of a reference to a place holding a reference type checks only
/// when both references have the same mutability.
pub proof fn law_assign_keeps_mutability(c: CtxV, w: LvalV, e: ExprV)
    requires
        tc_stmt(c, StmtV::Assign(w, e)) matches Some((_, _, Ok(()))),
        type_lval_spec(c.env, w) matches Ok(s1) && s1.tipe is Ref,
        tc_expr(c, e) matches Some((_, _, Ok(t2))) && t2 is Ref,
    ensures
        type_lval_spec(c.env, w)->Ok_0.tipe->Ref_1 == tc_expr(c, e)->Some_0.2->Ok_0->Ref_1,
{
    let s1 = type_lval_spec(c.env, w)->Ok_0;
    let (c2, e2, r2) = tc_expr(c, e)->Some_0;
    let t2 = r2->Ok_0;
    if s1.tipe->Ref_1 != t2->Ref_1 {
        law_refs_of_different_mutability(c2.env, s1.tipe->Ref_0, s1.tipe->Ref_1, t2->Ref_0, t2->Ref_1);
    }
}

/// A block that type checks has a result that borrows nothing shorter-lived
/// than the context it is in: every reference its type holds, through any
/// number of boxes, borrows a place (typed before the block's own variables are
/// dropped) whose lifetime is at least the context's.
pub proof fn law_block_result_outlives(c: CtxV, ss: Seq<StmtV>, b: ExprV, l: nat, k: nat)
    requires
        tc_expr(c, ExprV::Block(ss, Box::new(b), l)) matches Some((_, _, Ok(t))) && box_at(t, k) is Ref,
    ensures
        ({
            let c2 = tc_stmts(crate::types::with_lifetime(c, l), ss)->Some_0.0;
            let c3 = tc_expr(c2, b)->Some_0.0;
            let t = tc_expr(c, ExprV::Block(ss, Box::new(b), l))->Some_0.2->Ok_0;
            let u = box_at(t, k)->Ref_0;
            &&& lval_resolves(c3.env, u)
            &&& type_lval_spec(c3.env, u) matches Ok(su) && su.lifetime <= c.lifetime
        }),
{
    let t = tc_expr(c, ExprV::Block(ss, Box::new(b), l))->Some_0.2->Ok_0;
    lemma_box_at_ref(t, k);
}

/// A declaration that type checks stores a value that borrows nothing
/// shorter-lived than the declared variable: every reference the value's type
/// holds, through any number of boxes, borrows a place whose lifetime is at
/// least the context's.
pub proof fn law_declaration_outlives(c: CtxV, x: Seq<char>, e: ExprV, k: nat)
    requires
        tc_stmt(c, StmtV::LetMut(x, e)) matches Some((_, _, Ok(()))),
        tc_expr(c, e) matches Some((_, _, Ok(t))) && box_at(t, k) is Ref,
    ensures
        ({
            let (c2, _, r) = tc_expr(c, e)->Some_0;
            let u = box_at(r->Ok_0, k)->Ref_0;
            &&& lval_resolves(c2.env, u)
            &&& type_lval_spec(c2.env, u) matches Ok(su) && su.lifetime <= c.lifetime
        }),
{
    let t = tc_expr(c, e)->Some_0.2->Ok_0;
    lemma_box_at_ref(t, k);
}

/// An assignment that type checks stores a value that borrows nothing
/// shorter-lived than the place assigned: every reference the value's type
/// holds, through any number of boxes, borrows a place whose lifetime is at
/// least that of the variable holding the place.
pub proof fn law_assignment_outlives(c: CtxV, w: LvalV, e: ExprV, k: nat)
    requires
        tc_stmt(c, StmtV::Assign(w, e)) matches Some((_, _, Ok(()))),
        tc_expr(c, e) matches Some((_, _, Ok(t))) && box_at(t, k) is Ref,
    ensures
        type_lval_spec(c.env, w) is Ok,
        ({
            let (c2, _, r) = tc_expr(c, e)->Some_0;
            let u = box_at(r->Ok_0, k)->Ref_0;
            &&& lval_resolves(c2.env, u)
            &&& type_lval_spec(c2.env, u) matches Ok(su) && su.lifetime <= type_lval_spec(c.env, w)->Ok_0.lifetime
        }),
{
    let t = tc_expr(c, e)->Some_0.2->Ok_0;
    lemma_box_at_ref(t, k);
}

// ---------------------------------------------------------------------------
// Compatibility of types
// ---------------------------------------------------------------------------

proof fn lemma_compat_fuel(env: EnvV, t1: TypeV, t2: TypeV, f1: nat, f2: nat)
    requires
        crate::types::compat(env, t1, t2, f1) is Some,
        f1 <= f2,
    ensures
        crate::types::compat(env, t1, t2, f2) == crate::types::compat(env, t1, t2, f1),
    decreases f1, t1, t2,
{
    match (t1, t2) {
        (TypeV::Undefined(a), _) => lemma_compat_fuel(env, *a, t2, f1, f2),
        (_, TypeV::Undefined(b)) => lemma_compat_fuel(env, t1, *b, f1, f2),
        (TypeV::TBox(a), TypeV::TBox(b)) => lemma_compat_fuel(env, *a, *b, f1, f2),
        (TypeV::Ref(u1, m1), TypeV::Ref(u2, m2)) => {
            if m1 == m2 && lval_resolves(env, u1) && lval_resolves(env, u2) {
                if let (Ok(s1), Ok(s2)) = (type_lval_spec(env, u1), type_lval_spec(env, u2)) {
                    lemma_compat_fuel(env, s1.tipe, s2.tipe, (f1 - 1) as nat, (f2 - 1) as nat);
                }
            }
        },
        _ => {},
    }
}

/// Compatibility does not depend on the fuel used to decide it.
proof fn lemma_compat_any_fuel(env: EnvV, t1: TypeV, t2: TypeV, f: nat)
    requires
        crate::types::compat(env, t1, t2, f) is Some,
    ensures
        crate::types::compat_resolves(env, t1, t2),
        crate::types::compatible_spec(env, t1, t2) == crate::types::compat(env, t1, t2, f)->Some_0,
{
    let g = choose|g: nat| #[trigger] crate::types::compat(env, t1, t2, g) is Some;
    if f <= g {
        lemma_compat_fuel(env, t1, t2, f, g);
    } else {
        lemma_compat_fuel(env, t1, t2, g, f);
    }
}

/// A type is compatible with another exactly when it is once a moved-out mark
/// is taken off either.
pub proof fn law_compatible_ignores_moves(env: EnvV, a: TypeV, t: TypeV)
    ensures
        crate::types::compat_resolves(env, TypeV::Undefined(Box::new(a)), t) <==> crate::types::compat_resolves(env, a, t),
        crate::types::compat_resolves(env, a, t) ==> crate::types::compatible_spec(env, TypeV::Undefined(Box::new(a)), t)
            == crate::types::compatible_spec(env, a, t),
        crate::types::compat_resolves(env, t, TypeV::Undefined(Box::new(a))) <==> crate::types::compat_resolves(env, t, a),
        crate::types::compat_resolves(env, t, a) && !(t is Undefined) ==> crate::types::compatible_spec(
            env,
            t,
            TypeV::Undefined(Box::new(a)),
        ) == crate::types::compatible_spec(env, t, a),
{
    let u = TypeV::Undefined(Box::new(a));
    if crate::types::compat_resolves(env, a, t) {
        let f = choose|f: nat| #[trigger] crate::types::compat(env, a, t, f) is Some;
        assert(crate::types::compat(env, u, t, f) == crate::types::compat(env, a, t, f));
        lemma_compat_any_fuel(env, a, t, f);
        lemma_compat_any_fuel(env, u, t, f);
    }
    if crate::types::compat_resolves(env, u, t) {
        let f = choose|f: nat| #[trigger] crate::types::compat(env, u, t, f) is Some;
        assert(crate::types::compat(env, u, t, f) == crate::types::compat(env, a, t, f));
    }
    if crate::types::compat_resolves(env, t, a) {
        let f = choose|f: nat| #[trigger] crate::types::compat(env, t, a, f) is Some;
        if t is Undefined {
            let a2 = *(t->Undefined_0);
            assert(crate::types::compat(env, t, u, f) == crate::types::compat(env, a2, u, f));
            assert(crate::types::compat(env, t, a, f) == crate::types::compat(env, a2, a, f));
            lemma_compat_undefined_right(env, a2, a, f);
        } else {
            assert(crate::types::compat(env, t, u, f) == crate::types::compat(env, t, a, f));
            lemma_compat_any_fuel(env, t, a, f);
            lemma_compat_any_fuel(env, t, u, f);
        }
    }
    if crate::types::compat_resolves(env, t, u) {
        let f = choose|f: nat| #[trigger] crate::types::compat(env, t, u, f) is Some;
        lemma_compat_undefined_right(env, t, a, f);
    }
}

proof fn lemma_compat_undefined_right(env: EnvV, t: TypeV, a: TypeV, f: nat)
    ensures
        crate::types::compat(env, t, TypeV::Undefined(Box::new(a)), f) == crate::types::compat(env, t, a, f),
    decreases t,
{
    if let TypeV::Undefined(b) = t {
        lemma_compat_undefined_right(env, *b, a, f);
    }
}

/// Types compatible once moved-out marks are ignored have the same shape: both
/// unit, both int, both boxes of compatible contents, or both references of the
/// same mutability to places of compatible types.
pub proof fn law_compatible_shapes(env: EnvV, t1: TypeV, t2: TypeV)
    requires
        crate::types::compat_resolves(env, t1, t2),
        crate::types::compatible_spec(env, t1, t2),
        !(t1 is Undefined),
        !(t2 is Undefined),
    ensures
        t1 == TypeV::Unit <==> t2 == TypeV::Unit,
        t1 == TypeV::Int <==> t2 == TypeV::Int,
        t1 is TBox <==> t2 is TBox,
        t1 is Ref <==> t2 is Ref,
        t1 is TBox ==> crate::types::compat_resolves(env, *(t1->TBox_0), *(t2->TBox_0))
            && crate::types::compatible_spec(env, *(t1->TBox_0), *(t2->TBox_0)),
        t1 is Ref ==> {
            let (u1, m1) = (t1->Ref_0, t1->Ref_1);
            let (u2, m2) = (t2->Ref_0, t2->Ref_1);
            &&& m1 == m2
            &&& lval_resolves(env, u1) && lval_resolves(env, u2)
            &&& type_lval_spec(env, u1) is Ok && type_lval_spec(env, u2) is Ok
            &&& crate::types::compat_resolves(env, type_lval_spec(env, u1)->Ok_0.tipe, type_lval_spec(env, u2)->Ok_0.tipe)
            &&& crate::types::compatible_spec(env, type_lval_spec(env, u1)->Ok_0.tipe, type_lval_spec(env, u2)->Ok_0.tipe)
        },
{
    let f = choose|f: nat| #[trigger] crate::types::compat(env, t1, t2, f) is Some;
    assert(crate::types::compat(env, t1, t2, f) == Some(true));
    match (t1, t2) {
        (TypeV::TBox(a), TypeV::TBox(b)) => {
            lemma_compat_any_fuel(env, *a, *b, f);
        },
        (TypeV::Ref(u1, m1), TypeV::Ref(u2, m2)) => {
            let s1 = type_lval_spec(env, u1)->Ok_0;
            let s2 = type_lval_spec(env, u2)->Ok_0;
            lemma_compat_any_fuel(env, s1.tipe, s2.tipe, (f - 1) as nat);
        },
        _ => {},
    }
}

/// A box has the type of a box of its content, in the context its content
/// leaves.
pub proof fn law_typing_box(c: CtxV, e: ExprV)
    requires
        tc_expr(c, ExprV::OBox(Box::new(e))) matches Some((_, _, Ok(_))),
    ensures
        tc_expr(c, e) matches Some((_, _, Ok(_))),
        tc_expr(c, ExprV::OBox(Box::new(e)))->Some_0.2 == Ok::<TypeV, crate::types::ErrorV>(
            TypeV::TBox(Box::new(tc_expr(c, e)->Some_0.2->Ok_0)),
        ),
        tc_expr(c, ExprV::OBox(Box::new(e)))->Some_0.0 == tc_expr(c, e)->Some_0.0,
{
}

/// A declaration of `x` type checks only when `x` is not bound yet; it then
/// binds `x` to the type of its expression in the current lifetime, and leaves
/// every other variable as the expression left it.
pub proof fn law_declaration_binds(c: CtxV, x: Seq<char>, e: ExprV, y: Seq<char>)
    requires
        tc_stmt(c, StmtV::LetMut(x, e)) matches Some((_, _, Ok(()))),
    ensures
        lookup(c.env, x) is None,
        tc_expr(c, e) matches Some((_, _, Ok(_))),
        ({
            let (c2, _, r) = tc_expr(c, e)->Some_0;
            let c3 = tc_stmt(c, StmtV::LetMut(x, e))->Some_0.0;
            &&& lookup(c3.env, x) == Some(SlotV { tipe: r->Ok_0, lifetime: c.lifetime })
            &&& y != x ==> lookup(c3.env, y) == lookup(c2.env, y)
            &&& c3.lifetime == c2.lifetime
        }),
{
    let (c2, _, r) = tc_expr(c, e)->Some_0;
    let sl = SlotV { tipe: r->Ok_0, lifetime: c.lifetime };
    lemma_insert_lookup(c2.env, x, sl, x);
    lemma_insert_lookup(c2.env, x, sl, y);
}

// ---------------------------------------------------------------------------
// Where a borrow points at run time
// ---------------------------------------------------------------------------

proof fn lemma_locate_last(st: StoreV, x: Seq<char>, k: nat)
    ensures
        locate_from(st, x, k + 1) == (match locate_from(st, x, k) {
            Some(l1) => match lookup(st, l1) {
                Some(sl) => match sl.value {
                    Some(ValueV::Ref(l2, _)) => Some(l2),
                    _ => None,
                },
                None => None,
            },
            None => None,
        }),
    decreases k,
{
    reveal_with_fuel(locate_from, 2);
    if k > 0 {
        if let Some(sl) = lookup(st, x) {
            if let Some(ValueV::Ref(next, _)) = sl.value {
                lemma_locate_last(st, next, (k - 1) as nat);
            }
        }
    }
}

/// Evaluating a borrow leaves the state as it is and gives a non-owning
/// reference: a borrow of a variable refers to the variable's own location, and
/// a borrow of `*...*x` with one more dereference refers to the location that
/// the reference held at the place of the shorter one points to.
pub proof fn law_borrow_points_to_place(c: EvalState, x: Seq<char>, k: nat, m: Mutable, l: nat)
    ensures
        eval_spec(c, ExprV::Borrow(LvalV { ident: x, derefs: 0 }, m), l) == Some((c, ValueV::Ref(x, Owned::No))),
        eval_spec(c, ExprV::Borrow(LvalV { ident: x, derefs: k + 1 }, m), l) == (match eval_spec(
            c,
            ExprV::Borrow(LvalV { ident: x, derefs: k }, m),
            l,
        ) {
            Some((_, ValueV::Ref(l1, _))) => match lookup(c.store, l1) {
                Some(sl) => match sl.value {
                    Some(ValueV::Ref(l2, _)) => Some((c, ValueV::Ref(l2, Owned::No))),
                    _ => None,
                },
                None => None,
            },
            _ => None,
        }),
{
    lemma_locate_last(c.store, x, k);
}

/// Copying `w` leaves the state as it is and gives the value held at the
/// location that a borrow of `w` refers to.
pub proof fn law_eval_copy(c: EvalState, w: LvalV, m: Mutable, l: nat)
    requires
        eval_spec(c, ExprV::Lv(w, Copyable::Yes), l) is Some,
    ensures
        eval_spec(c, ExprV::Borrow(w, m), l) matches Some((c1, ValueV::Ref(loc, Owned::No))) && c1 == c && {
            let (c2, v) = eval_spec(c, ExprV::Lv(w, Copyable::Yes), l)->Some_0;
            &&& c2 == c
            &&& lookup(c.store, loc) matches Some(sl) && sl.value == Some(v)
        },
{
}

/// Moving out of `w` gives the value held at the location that a borrow of `w`
/// refers to, leaves that location empty in its lifetime, and keeps every other
/// location and the count of boxes.
pub proof fn law_eval_move(c: EvalState, w: LvalV, m: Mutable, l: nat, y: Seq<char>)
    requires
        eval_spec(c, ExprV::Lv(w, Copyable::No), l) is Some,
    ensures
        eval_spec(c, ExprV::Borrow(w, m), l) matches Some((c1, ValueV::Ref(loc, Owned::No))) && c1 == c && {
            let (c2, v) = eval_spec(c, ExprV::Lv(w, Copyable::No), l)->Some_0;
            &&& lookup(c.store, loc) matches Some(sl) && sl.value == Some(v)
            &&& lookup(c2.store, loc) == Some(EvalSlotV { value: None, lifetime: lookup(c.store, loc)->Some_0.lifetime })
            &&& y != loc ==> lookup(c2.store, y) == lookup(c.store, y)
            &&& c2.num == c.num
        },
{
    let loc = locate_spec(c.store, w)->Some_0;
    let s = EvalSlotV { value: None, lifetime: lookup(c.store, loc)->Some_0.lifetime };
    lemma_insert_lookup(c.store, loc, s, loc);
    lemma_insert_lookup(c.store, loc, s, y);
}

/// A box evaluates its content first, then stores it at the location made for
/// the next box, in the global lifetime, and gives an owning reference to it;
/// every other location keeps its slot.
pub proof fn law_eval_box(c: EvalState, e: ExprV, l: nat, y: Seq<char>)
    requires
        eval_spec(c, ExprV::OBox(Box::new(e)), l) is Some,
    ensures
        eval_spec(c, e, l) is Some,
        ({
            let (c2, v) = eval_spec(c, e, l)->Some_0;
            let (c3, r) = eval_spec(c, ExprV::OBox(Box::new(e)), l)->Some_0;
            let loc = fresh_name(c2.num + 1);
            &&& r == ValueV::Ref(loc, Owned::Yes)
            &&& c3.num == c2.num + 1
            &&& lookup(c3.store, loc) == Some(EvalSlotV { value: Some(v), lifetime: 0 })
            &&& y != loc ==> lookup(c3.store, y) == lookup(c2.store, y)
        }),
{
    let (c2, v) = eval_spec(c, e, l)->Some_0;
    let loc = fresh_name(c2.num + 1);
    let s = EvalSlotV { value: Some(v), lifetime: 0 };
    lemma_insert_lookup(c2.store, loc, s, loc);
    lemma_insert_lookup(c2.store, loc, s, y);
}

/// A declaration binds the variable to the value of its expression, in the
/// lifetime the statement runs in; every other location keeps its slot.
pub proof fn law_eval_declare(c: EvalState, x: Seq<char>, e: ExprV, l: nat, y: Seq<char>)
    requires
        eval_stmt_spec(c, StmtV::LetMut(x, e), l) is Some,
    ensures
        eval_spec(c, e, l) is Some,
        ({
            let (c2, v) = eval_spec(c, e, l)->Some_0;
            let c3 = eval_stmt_spec(c, StmtV::LetMut(x, e), l)->Some_0;
            &&& lookup(c3.store, x) == Some(EvalSlotV { value: Some(v), lifetime: l })
            &&& y != x ==> lookup(c3.store, y) == lookup(c2.store, y)
            &&& c3.num == c2.num
        }),
{
    let (c2, v) = eval_spec(c, e, l)->Some_0;
    let s = EvalSlotV { value: Some(v), lifetime: l };
    lemma_insert_lookup(c2.store, x, s, x);
    lemma_insert_lookup(c2.store, x, s, y);
}

} // verus!
