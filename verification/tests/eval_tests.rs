use truck::eval::{Context, Slot, Store};
use truck::parser::Parser;
use truck::types;
use truck::utils::{Copyable, Expr, Lifetime, Lval, Owned, Stmt, Type, Value};

fn owned(loc: &str) -> Option<Value> {
    Some(Value::Ref(loc.to_string(), Owned::Yes))
}

#[test]
fn store_insert_read() {
    let mut st = Store::default();
    st.insert("a", Some(Value::Int(7)), Lifetime(2));
    st.insert("b", Some(Value::Unit), Lifetime(3));
    assert_eq!(*st.read(&Lval::var("a")), Slot { value: Some(Value::Int(7)), lifetime: Lifetime(2) });
    assert_eq!(*st.read(&Lval::var("b")), Slot { value: Some(Value::Unit), lifetime: Lifetime(3) });
    // Inserting again replaces the slot in place.
    st.insert("a", Some(Value::Int(8)), Lifetime(4));
    assert_eq!(st.0.len(), 2);
    assert_eq!(*st.read(&Lval::var("a")), Slot { value: Some(Value::Int(8)), lifetime: Lifetime(4) });
}

#[test]
fn store_locate_through_references() {
    let mut st = Store::default();
    st.insert("c", Some(Value::Int(1)), Lifetime(1));
    st.insert("b", Some(Value::Ref("c".to_string(), Owned::No)), Lifetime(1));
    st.insert("a", Some(Value::Ref("b".to_string(), Owned::Yes)), Lifetime(1));
    assert_eq!(st.locate(&Lval::new("a", 0)), "a");
    assert_eq!(st.locate(&Lval::new("a", 1)), "b");
    assert_eq!(st.locate(&Lval::new("a", 2)), "c");
    assert_eq!(st.read(&Lval::new("a", 2)).value, Some(Value::Int(1)));
}

#[test]
fn store_write_returns_old_value() {
    let mut st = Store::default();
    st.insert("c", Some(Value::Int(1)), Lifetime(5));
    st.insert("a", Some(Value::Ref("c".to_string(), Owned::No)), Lifetime(1));
    let old = st.write(&Lval::new("a", 1), Some(Value::Int(9)));
    assert_eq!(old, Some(Value::Int(1)));
    // The lifetime of the place is kept.
    assert_eq!(*st.read(&Lval::var("c")), Slot { value: Some(Value::Int(9)), lifetime: Lifetime(5) });
    let moved = st.write(&Lval::var("c"), None);
    assert_eq!(moved, Some(Value::Int(9)));
    assert_eq!(st.read(&Lval::var("c")).value, None);
}

#[test]
fn store_locs_by_lifetime() {
    let mut st = Store::default();
    st.insert("a", Some(Value::Int(1)), Lifetime(1));
    st.insert("b", Some(Value::Int(2)), Lifetime(2));
    st.insert("c", Some(Value::Int(3)), Lifetime(1));
    assert_eq!(st.locs_by_lifetime(Lifetime(1)), vec![owned("a"), owned("c")]);
    assert_eq!(st.locs_by_lifetime(Lifetime(3)), vec![]);
}

#[test]
fn store_drop_follows_ownership() {
    let mut st = Store::default();
    st.insert("x1", Some(Value::Int(5)), Lifetime(0));
    st.insert("x2", owned("x1"), Lifetime(0));
    st.insert("y", Some(Value::Int(6)), Lifetime(0));
    st.insert("a", owned("x2"), Lifetime(1));
    st.insert("b", Some(Value::Ref("y".to_string(), Owned::No)), Lifetime(1));
    let locs = st.locs_by_lifetime(Lifetime(1));
    st.drop(locs);
    // `a` owned `x2`, which owned `x1`; `b` only borrowed `y`.
    let mut expected = Store::default();
    expected.insert("y", Some(Value::Int(6)), Lifetime(0));
    assert_eq!(st, expected);
}

#[test]
fn store_drop_ignores_unowned() {
    let mut st = Store::default();
    st.insert("a", Some(Value::Int(1)), Lifetime(1));
    st.drop(vec![Some(Value::Ref("a".to_string(), Owned::No)), Some(Value::Int(3)), None]);
    assert_eq!(st.0.len(), 1);
}

#[test]
fn fresh_locations() {
    let mut c = Context::default();
    assert_eq!(c.fresh(), "x1");
    assert_eq!(c.fresh(), "x2");
    assert_eq!(c.num, 2);
    c.num = 41;
    assert_eq!(c.fresh(), "x42");
}

#[test]
fn eval_values() {
    let mut c = Context::default();
    assert_eq!(c.eval_expr(&Expr::Unit, Lifetime::global()), Value::Unit);
    assert_eq!(c.eval_expr(&Expr::Int(-3), Lifetime::global()), Value::Int(-3));
}

#[test]
fn eval_box_and_copy() {
    let mut c = Context::default();
    let v = c.eval_expr(&Expr::OBox(Box::new(Expr::Int(4))), Lifetime(1));
    assert_eq!(v, Value::Ref("x1".to_string(), Owned::Yes));
    assert_eq!(*c.store.read(&Lval::var("x1")), Slot { value: Some(Value::Int(4)), lifetime: Lifetime(0) });
    c.eval_stmt(&Stmt::LetMut("b".to_string(), Expr::Int(0)), Lifetime(1));
    c.store.insert("p", Some(v), Lifetime(1));
    // A copy reads, a move takes the value out.
    assert_eq!(c.eval_expr(&Expr::Lv(Lval::new("p", 1), Copyable::Yes), Lifetime(1)), Value::Int(4));
    assert_eq!(c.eval_expr(&Expr::Lv(Lval::new("p", 1), Copyable::No), Lifetime(1)), Value::Int(4));
    assert_eq!(c.store.read(&Lval::var("x1")).value, None);
    assert_eq!(
        c.eval_expr(&Expr::Borrow(Lval::var("b"), truck::utils::Mutable::No), Lifetime(1)),
        Value::Ref("b".to_string(), Owned::No)
    );
}

#[test]
fn eval_assign_drops_old_box() {
    let mut c = Context::default();
    c.eval_stmt(&Stmt::LetMut("a".to_string(), Expr::OBox(Box::new(Expr::Int(1)))), Lifetime(1));
    c.eval_stmt(&Stmt::Assign(Lval::var("a"), Expr::Int(2)), Lifetime(1));
    let mut expected = Store::default();
    expected.insert("a", Some(Value::Int(2)), Lifetime(1));
    assert_eq!(c.store, expected);
}

fn run(text: &str) -> (Value, Context) {
    let mut e = Parser::new(text).parse().unwrap();
    let t = types::Context::default().type_expr(&mut e);
    assert!(t.is_ok());
    let mut c = Context::default();
    let v = c.eval_expr(&e, Lifetime::global());
    (v, c)
}

#[test]
fn run_program_reads_through_references() {
    let (v, c) = run("fn main() { let mut x = Box::new(5); let mut y = &x; **y; }");
    assert_eq!(v, Value::Int(5));
    // The block dropped its variables and the box that `x` owned.
    assert_eq!(c.store, Store::default());
    assert_eq!(c.num, 1);
}

#[test]
fn run_program_assigns_through_mutable_reference() {
    let (v, c) = run("fn main() { let mut x = 1; let mut y = &mut x; *y = 2; *y; }");
    assert_eq!(v, Value::Int(2));
    assert_eq!(c.store.0.len(), 0);
}

#[test]
fn run_program_nested_block() {
    let (v, _) = run("fn main() { let mut x = { let mut y = Box::new(3); *y; }; x; }");
    assert_eq!(v, Value::Int(3));
}

#[test]
fn run_program_inner_block_borrow() {
    // Blocks are numbered as they close, so an inner block has the smaller
    // lifetime number, which the checker reads as the longer lifetime: a
    // variable of an inner block cannot borrow one of the outer block.
    let mut e = Parser::new("fn main() { let mut x = 1; { let mut y = &x; }; }").parse().unwrap();
    let t = types::Context::default().type_expr(&mut e);
    assert_eq!(
        t,
        Err(types::Error::LifetimeTooShort(Expr::Borrow(Lval::var("x"), truck::utils::Mutable::No)))
    );
}

#[test]
fn run_program_type_error() {
    let mut e = Parser::new("fn main() { let mut x = Box::new(1); let mut y = x; x; }").parse().unwrap();
    let t = types::Context::default().type_expr(&mut e);
    assert_eq!(t, Err(types::Error::MovedOut(Lval::var("x"))));
}

#[test]
fn run_program_types() {
    let mut e = Parser::new("fn main() { let mut x = Box::new(1); &x; ; }").parse().unwrap();
    let mut ctx = types::Context::default();
    assert_eq!(ctx.type_expr(&mut e), Ok(Type::Unit));
    assert_eq!(ctx.env.0.len(), 0);
}

#[test]
fn run_program_borrow_outlives_block() {
    // The block's result borrows a variable of the block itself.
    let mut e = Parser::new("fn main() { let mut x = Box::new(1); &x; }").parse().unwrap();
    let mut ctx = types::Context::default();
    assert_eq!(
        ctx.type_expr(&mut e),
        Err(types::Error::LifetimeTooShort(Expr::Borrow(Lval::var("x"), truck::utils::Mutable::No)))
    );
}

#[test]
fn run_program_empty_main() {
    let (v, c) = run("fn main() {}");
    assert_eq!(v, Value::Unit);
    assert_eq!(c.store, Store::default());
}

#[test]
fn checked_store_operations() {
    let mut st = Store::default();
    st.insert("a", Some(Value::Int(1)), Lifetime(1));
    st.insert("p", Some(Value::Ref("a".to_string(), Owned::No)), Lifetime(1));
    assert_eq!(st.try_locate(&Lval::new("p", 1)), Some(&"a".to_string()));
    assert_eq!(st.try_locate(&Lval::new("a", 1)), None);
    assert_eq!(st.try_read(&Lval::var("q")), None);
    assert_eq!(st.try_read(&Lval::new("p", 1)).map(|s| s.value.clone()), Some(Some(Value::Int(1))));
    assert_eq!(st.try_write(&Lval::new("p", 1), Some(Value::Unit)), Some(Some(Value::Int(1))));
    assert_eq!(st.try_write(&Lval::var("q"), None), None);
    // A missing owned location: nothing is dropped.
    let before_len = st.0.len();
    assert!(!st.try_drop(vec![Some(Value::Ref("a".to_string(), Owned::Yes)), Some(Value::Ref("z".to_string(), Owned::Yes))]));
    assert_eq!(st.0.len(), before_len);
    assert!(st.try_drop(vec![Some(Value::Ref("a".to_string(), Owned::Yes))]));
    assert_eq!(st.try_read(&Lval::var("a")), None);
}

#[test]
fn checked_evaluation() {
    let mut c = Context::default();
    let e = Expr::Block(
        vec![Stmt::LetMut("x".to_string(), Expr::OBox(Box::new(Expr::Int(5))))],
        Box::new(Expr::Lv(Lval::new("x", 1), Copyable::Yes)),
        Lifetime(1),
    );
    assert_eq!(c.try_eval_expr(&e, Lifetime::global()), Some(Value::Int(5)));
    assert_eq!(c.store, Store::default());
    // Reading a location that does not exist fails instead of panicking.
    let mut c = Context::default();
    assert_eq!(c.try_eval_expr(&Expr::Lv(Lval::var("nope"), Copyable::Yes), Lifetime(0)), None);
    // Reading a moved-out value fails.
    let mut c = Context::default();
    c.store.insert("m", None, Lifetime(0));
    assert_eq!(c.try_eval_expr(&Expr::Lv(Lval::var("m"), Copyable::No), Lifetime(0)), None);
    assert!(!c.try_eval_stmt(&Stmt::Assign(Lval::new("m", 1), Expr::Int(1)), Lifetime(0)));
    assert!(c.try_eval_stmt(&Stmt::Assign(Lval::var("m"), Expr::Int(1)), Lifetime(0)));
    assert_eq!(c.store.try_read(&Lval::var("m")).map(|s| s.value.clone()), Some(Some(Value::Int(1))));
}
