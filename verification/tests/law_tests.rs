use truck::eval::{Context as EvalContext, Store};
use truck::types::{Context, Env, Slot};
use truck::utils::{Copyable, Expr, Lifetime, Lval, Mutable, Owned, Stmt, Type, Value};

#[test]
fn law_insert_then_get() {
    let mut env = Env::default();
    env.insert("x", Type::Int, Lifetime(1));
    env.insert("y", Type::Unit, Lifetime(2));
    env.insert("x", Type::TBox(Box::new(Type::Int)), Lifetime(3));
    assert_eq!(env.get("x"), Some(&Slot { tipe: Type::TBox(Box::new(Type::Int)), lifetime: Lifetime(3) }));
    assert_eq!(env.get("y"), Some(&Slot { tipe: Type::Unit, lifetime: Lifetime(2) }));
    assert_eq!(env.get("z"), None);
    // Names stay unique.
    assert_eq!(env.0.len(), 2);
}

#[test]
fn law_drop_unbinds_lifetime() {
    let mut env = Env::default();
    env.insert("a", Type::Int, Lifetime(1));
    env.insert("b", Type::Int, Lifetime(2));
    env.insert("c", Type::Unit, Lifetime(1));
    env.drop(Lifetime(1));
    assert_eq!(env.get("a"), None);
    assert_eq!(env.get("c"), None);
    assert_eq!(env.get("b"), Some(&Slot { tipe: Type::Int, lifetime: Lifetime(2) }));
    env.drop(Lifetime(7));
    assert_eq!(env.0.len(), 1);
}

#[test]
fn law_move_then_type() {
    let mut env = Env::default();
    env.insert("x", Type::TBox(Box::new(Type::TBox(Box::new(Type::Int)))), Lifetime(4));
    env.insert("y", Type::Int, Lifetime(1));
    let w = Lval::new("x", 1);
    let before = env.type_lval(&w).unwrap();
    assert!(env.moove(&w).is_ok());
    assert_eq!(
        env.type_lval(&w),
        Ok(Slot { tipe: Type::Undefined(Box::new(before.tipe)), lifetime: before.lifetime })
    );
    assert_eq!(env.get("y"), Some(&Slot { tipe: Type::Int, lifetime: Lifetime(1) }));
}

#[test]
fn law_write_then_type() {
    let mut env = Env::default();
    env.insert("x", Type::TBox(Box::new(Type::TBox(Box::new(Type::Int)))), Lifetime(4));
    let w = Lval::new("x", 2);
    assert!(env.write(&w, Type::Unit).is_ok());
    assert_eq!(env.type_lval(&w), Ok(Slot { tipe: Type::Unit, lifetime: Lifetime(4) }));
    assert_eq!(
        env.get("x").unwrap().tipe,
        Type::TBox(Box::new(Type::TBox(Box::new(Type::Unit))))
    );
}

#[test]
fn law_typing_keeps_expression() {
    let mut ctxt = Context::default();
    ctxt.env.insert("x", Type::Int, Lifetime(0));
    ctxt.env.insert("b", Type::TBox(Box::new(Type::Int)), Lifetime(0));
    let mut e = Expr::Block(
        vec![
            Stmt::LetMut("y".to_string(), Expr::Lv(Lval::var("x"), Copyable::No)),
            Stmt::LetMut("z".to_string(), Expr::Lv(Lval::var("b"), Copyable::Yes)),
        ],
        Box::new(Expr::Lv(Lval::var("y"), Copyable::No)),
        Lifetime(1),
    );
    assert_eq!(ctxt.type_expr(&mut e), Ok(Type::Int));
    // Only the copy marks changed.
    assert_eq!(
        e,
        Expr::Block(
            vec![
                Stmt::LetMut("y".to_string(), Expr::Lv(Lval::var("x"), Copyable::Yes)),
                Stmt::LetMut("z".to_string(), Expr::Lv(Lval::var("b"), Copyable::No)),
            ],
            Box::new(Expr::Lv(Lval::var("y"), Copyable::Yes)),
            Lifetime(1),
        )
    );
}

#[test]
fn law_block_scope() {
    let mut ctxt = Context::default();
    ctxt.env.insert("x", Type::Int, Lifetime(0));
    let mut e = Expr::Block(
        vec![
            Stmt::LetMut("y".to_string(), Expr::Int(1)),
            Stmt::LetMut("r".to_string(), Expr::Borrow(Lval::var("x"), Mutable::No)),
        ],
        Box::new(Expr::Unit),
        Lifetime(5),
    );
    assert_eq!(ctxt.type_expr(&mut e), Ok(Type::Unit));
    assert_eq!(ctxt.lifetime, Lifetime(0));
    assert_eq!(ctxt.env.get("y"), None);
    assert_eq!(ctxt.env.get("r"), None);
    assert_eq!(ctxt.env.get("x"), Some(&Slot { tipe: Type::Int, lifetime: Lifetime(0) }));
}

#[test]
fn law_store_write_then_read() {
    let mut st = Store::default();
    st.insert("a", Some(Value::Int(1)), Lifetime(3));
    st.insert("p", Some(Value::Ref("a".to_string(), Owned::No)), Lifetime(1));
    let w = Lval::new("p", 1);
    let old = st.write(&w, Some(Value::Unit));
    assert_eq!(old, Some(Value::Int(1)));
    assert_eq!(st.read(&w).value, Some(Value::Unit));
    assert_eq!(st.read(&w).lifetime, Lifetime(3));
    assert_eq!(st.read(&Lval::var("p")).value, Some(Value::Ref("a".to_string(), Owned::No)));
}

#[test]
fn law_fresh_names_differ() {
    let mut c = EvalContext::default();
    let mut names: Vec<String> = Vec::new();
    for _ in 0..25 {
        let n = c.fresh();
        assert!(!names.contains(&n));
        names.push(n);
    }
    assert_eq!(c.num, 25);
}

#[test]
fn law_block_drops_its_locations() {
    let mut c = EvalContext::default();
    c.store.insert("g", Some(Value::Int(9)), Lifetime(0));
    let e = Expr::Block(
        vec![
            Stmt::LetMut("a".to_string(), Expr::OBox(Box::new(Expr::Int(1)))),
            Stmt::LetMut("b".to_string(), Expr::Borrow(Lval::var("g"), Mutable::No)),
        ],
        Box::new(Expr::Lv(Lval::new("a", 1), Copyable::Yes)),
        Lifetime(2),
    );
    assert_eq!(c.eval_expr(&e, Lifetime(0)), Value::Int(1));
    assert!(c.store.0.iter().all(|(_, s)| s.lifetime != Lifetime(2)));
    let mut expected = Store::default();
    expected.insert("g", Some(Value::Int(9)), Lifetime(0));
    assert_eq!(c.store, expected);
    assert_eq!(c.num, 1);
}

#[test]
fn law_write_then_type_through_references() {
    let mut env = Env::default();
    env.insert("x", Type::Ref(Lval::var("y"), Mutable::Yes), Lifetime(3));
    env.insert("y", Type::TBox(Box::new(Type::Int)), Lifetime(1));
    let w = Lval::new("x", 2);
    assert!(env.write(&w, Type::Unit).is_ok());
    // The place lives in `y`, so its lifetime is `y`'s.
    assert_eq!(env.type_lval(&w), Ok(Slot { tipe: Type::Unit, lifetime: Lifetime(1) }));
    assert_eq!(env.get("x"), Some(&Slot { tipe: Type::Ref(Lval::var("y"), Mutable::Yes), lifetime: Lifetime(3) }));
    assert_eq!(env.get("y"), Some(&Slot { tipe: Type::TBox(Box::new(Type::Unit)), lifetime: Lifetime(1) }));
}

#[test]
fn env_equality_ignores_order() {
    let mut a = Env::default();
    a.insert("x", Type::Int, Lifetime(1));
    a.insert("y", Type::Unit, Lifetime(2));
    let mut b = Env::default();
    b.insert("y", Type::Unit, Lifetime(2));
    b.insert("x", Type::Int, Lifetime(1));
    assert_eq!(a, b);
    b.insert("x", Type::Int, Lifetime(3));
    assert_ne!(a, b);
    let mut c = Env::default();
    c.insert("x", Type::Int, Lifetime(1));
    assert_ne!(a, c);
    assert_ne!(c, a);
}

#[test]
fn store_equality_ignores_order() {
    let mut a = Store::default();
    a.insert("p", Some(Value::Int(1)), Lifetime(1));
    a.insert("q", Some(Value::Ref("p".to_string(), Owned::No)), Lifetime(1));
    let mut b = Store::default();
    b.insert("q", Some(Value::Ref("p".to_string(), Owned::No)), Lifetime(1));
    b.insert("p", Some(Value::Int(1)), Lifetime(1));
    assert_eq!(a, b);
    b.insert("p", None, Lifetime(1));
    assert_ne!(a, b);
}

#[test]
fn law_drop_exact() {
    let mut st = Store::default();
    st.insert("x1", Some(Value::Int(5)), Lifetime(0));
    st.insert("x2", Some(Value::Ref("x1".to_string(), Owned::Yes)), Lifetime(0));
    st.insert("x3", Some(Value::Int(7)), Lifetime(0));
    st.insert("k", Some(Value::Ref("x3".to_string(), Owned::No)), Lifetime(0));
    st.drop(vec![Some(Value::Ref("x2".to_string(), Owned::Yes)), Some(Value::Int(1))]);
    // `x2` and what it owns leave; a borrowed location stays.
    let mut expected = Store::default();
    expected.insert("k", Some(Value::Ref("x3".to_string(), Owned::No)), Lifetime(0));
    expected.insert("x3", Some(Value::Int(7)), Lifetime(0));
    assert_eq!(st, expected);
}

#[test]
fn law_assign_drops_exactly() {
    let mut c = EvalContext::default();
    c.store.insert("g", Some(Value::Int(3)), Lifetime(0));
    c.eval_stmt(
        &Stmt::LetMut("a".to_string(), Expr::OBox(Box::new(Expr::OBox(Box::new(Expr::Int(1)))))),
        Lifetime(1),
    );
    c.eval_stmt(&Stmt::Assign(Lval::var("a"), Expr::Borrow(Lval::var("g"), Mutable::No)), Lifetime(1));
    let mut expected = Store::default();
    expected.insert("g", Some(Value::Int(3)), Lifetime(0));
    expected.insert("a", Some(Value::Ref("g".to_string(), Owned::No)), Lifetime(1));
    assert_eq!(c.store, expected);
}

#[test]
fn law_block_lifetime_count() {
    let e = truck::parser::Parser::new("fn main() { {}; { {}; }; }").parse().unwrap();
    // Four blocks: lifetimes 1 to 4, the outermost last.
    assert_eq!(
        e,
        Expr::Block(
            vec![Stmt::Expr(Expr::Block(vec![], Box::new(Expr::Unit), Lifetime(1)))],
            Box::new(Expr::Block(
                vec![],
                Box::new(Expr::Block(vec![], Box::new(Expr::Unit), Lifetime(2))),
                Lifetime(3),
            )),
            Lifetime(4),
        )
    );
}

#[test]
fn law_fresh_location_is_new() {
    let mut c = EvalContext::default();
    c.store.insert("x1", Some(Value::Int(0)), Lifetime(0));
    c.store.insert("y", Some(Value::Int(0)), Lifetime(0));
    c.num = 1;
    let loc = c.fresh();
    assert_eq!(loc, "x2");
    assert!(c.store.0.iter().all(|(k, _)| *k != loc));
}

#[test]
fn law_store_write_back() {
    let mut st = Store::default();
    st.insert("a", Some(Value::Int(1)), Lifetime(3));
    st.insert("p", Some(Value::Ref("a".to_string(), Owned::No)), Lifetime(1));
    let s0 = Store(st.0.clone());
    let w = Lval::new("p", 1);
    let old = st.write(&w, Some(Value::Unit));
    assert_eq!(st.write(&w, old), Some(Value::Unit));
    assert_eq!(st, s0);
}

#[test]
fn law_fresh_location_negative_count() {
    let mut c = EvalContext::default();
    c.num = -4;
    c.store.insert("x-5", Some(Value::Int(0)), Lifetime(0));
    let a = c.fresh();
    let b = c.fresh();
    assert_eq!(a, "x-3");
    assert_eq!(b, "x-2");
    assert!(c.store.0.iter().all(|(k, _)| *k != a && *k != b));
}
