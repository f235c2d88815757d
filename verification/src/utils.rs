//! The syntax of the language: lifetimes, lvalues, expressions, statements,
//! runtime values and types, together with their mathematical views.
use vstd::prelude::*;

verus! {

/// A lifetime, identified by a number; the global lifetime is 0.
#[derive(Debug, Clone, Copy, PartialEq, Eq, Structural, PartialOrd)]
pub struct Lifetime(pub usize);

impl Lifetime {
    /// The lifetime of the outermost scope.
    pub fn global() -> (l: Lifetime)
        ensures
            l.0 == 0,
    {
        Lifetime(0)
    }
}

pub type Ident = String;

pub type Location = Ident;

pub type Pvalue = Option<Value>;

/// An lvalue: a variable under a number of dereferences (`*...*x`).
#[derive(PartialEq, Clone, Hash, Debug, Eq)]
pub struct Lval {
    pub ident: Ident,
    pub derefs: usize,
}

/// The mathematical view of an lvalue.
pub struct LvalV {
    pub ident: Seq<char>,
    pub derefs: nat,
}

impl View for Lval {
    type V = LvalV;

    open spec fn view(&self) -> LvalV {
        LvalV { ident: self.ident@, derefs: self.derefs as nat }
    }
}

impl Lval {
    /// The lvalue `*...*id` with `der` dereferences.
    pub fn new(id: &str, der: usize) -> (w: Lval)
        ensures
            w@.ident == id@,
            w@.derefs == der,
    {
        Lval { ident: id.to_owned(), derefs: der }
    }

    /// The lvalue naming the variable `id` itself.
    pub fn var(id: &str) -> (w: Lval)
        ensures
            w@.ident == id@,
            w@.derefs == 0,
    {
        Lval { ident: id.to_owned(), derefs: 0 }
    }

    /// A copy of this lvalue.
    pub fn duplicate(&self) -> (w: Lval)
        ensures
            w@ == self@,
    {
        Lval { ident: self.ident.clone(), derefs: self.derefs }
    }

    /// Whether two lvalues are the same.
    pub fn same(&self, other: &Lval) -> (b: bool)
        ensures
            b == (self@ == other@),
    {
        self.derefs == other.derefs && self.ident == other.ident
    }
}

#[derive(Clone, Copy, Debug, PartialEq, Eq, Structural)]
pub enum Copyable {
    Yes,
    No,
}

#[derive(Debug, Clone, Copy, PartialEq, Eq, Structural)]
pub enum Mutable {
    Yes,
    No,
}

#[derive(Debug, Clone, Copy, PartialEq, Eq, Structural)]
pub enum Owned {
    Yes,
    No,
}

/// Expressions. A block carries the lifetime of its scope.
#[derive(Debug, PartialEq)]
pub enum Expr {
    Unit,
    Int(i32),
    Lv(Lval, Copyable),
    OBox(Box<Expr>),
    Borrow(Lval, Mutable),
    Block(Vec<Stmt>, Box<Expr>, Lifetime),
}

/// Statements.
#[derive(Debug, PartialEq)]
pub enum Stmt {
    Assign(Lval, Expr),
    LetMut(Ident, Expr),
    Expr(Expr),
}

/// The mathematical view of an expression.
pub enum ExprV {
    Unit,
    Int(i32),
    Lv(LvalV, Copyable),
    OBox(Box<ExprV>),
    Borrow(LvalV, Mutable),
    Block(Seq<StmtV>, Box<ExprV>, nat),
}

/// The mathematical view of a statement.
pub enum StmtV {
    Assign(LvalV, ExprV),
    LetMut(Seq<char>, ExprV),
    Expr(ExprV),
}

pub open spec fn expr_view(e: Expr) -> ExprV
    decreases e,
{
    match e {
        Expr::Unit => ExprV::Unit,
        Expr::Int(i) => ExprV::Int(i),
        Expr::Lv(w, c) => ExprV::Lv(w@, c),
        Expr::OBox(b) => ExprV::OBox(Box::new(expr_view(*b))),
        Expr::Borrow(w, m) => ExprV::Borrow(w@, m),
        Expr::Block(ss, b, l) => ExprV::Block(stmts_view(ss@), Box::new(expr_view(*b)), l.0 as nat),
    }
}

pub open spec fn stmt_view(s: Stmt) -> StmtV
    decreases s,
{
    match s {
        Stmt::Assign(w, e) => StmtV::Assign(w@, expr_view(e)),
        Stmt::LetMut(x, e) => StmtV::LetMut(x@, expr_view(e)),
        Stmt::Expr(e) => StmtV::Expr(expr_view(e)),
    }
}

pub open spec fn stmts_view(ss: Seq<Stmt>) -> Seq<StmtV>
    decreases ss,
{
    if ss.len() == 0 {
        Seq::empty()
    } else {
        seq![stmt_view(ss[0])] + stmts_view(ss.drop_first())
    }
}

impl View for Expr {
    type V = ExprV;

    open spec fn view(&self) -> ExprV {
        expr_view(*self)
    }
}

impl View for Stmt {
    type V = StmtV;

    open spec fn view(&self) -> StmtV {
        stmt_view(*self)
    }
}

/// Runtime values: unit, integers and references to a location,
/// the latter either owning it (a box) or not (a borrow).
#[derive(Debug, Clone, PartialEq)]
pub enum Value {
    Unit,
    Int(i32),
    Ref(Location, Owned),
}

/// The mathematical view of a value.
pub enum ValueV {
    Unit,
    Int(i32),
    Ref(Seq<char>, Owned),
}

impl View for Value {
    type V = ValueV;

    open spec fn view(&self) -> ValueV {
        match self {
            Value::Unit => ValueV::Unit,
            Value::Int(i) => ValueV::Int(*i),
            Value::Ref(l, o) => ValueV::Ref(l@, *o),
        }
    }
}

impl Value {
    /// A copy of this value.
    pub fn duplicate(&self) -> (v: Value)
        ensures
            v@ == self@,
    {
        match self {
            Value::Unit => Value::Unit,
            Value::Int(i) => Value::Int(*i),
            Value::Ref(l, o) => Value::Ref(l.clone(), *o),
        }
    }
}

impl Value {
    /// Whether two values are the same.
    pub fn same(&self, other: &Value) -> (b: bool)
        ensures
            b == (self@ == other@),
    {
        match (self, other) {
            (Value::Unit, Value::Unit) => true,
            (Value::Int(a), Value::Int(b)) => *a == *b,
            (Value::Ref(l1, o1), Value::Ref(l2, o2)) => *l1 == *l2 && *o1 == *o2,
            _ => false,
        }
    }
}

/// Whether two partial values are the same.
pub fn pvalue_same(a: &Pvalue, b: &Pvalue) -> (r: bool)
    ensures
        r == (pvalue_view(*a) == pvalue_view(*b)),
{
    match (a, b) {
        (Some(x), Some(y)) => x.same(y),
        (None, None) => true,
        _ => false,
    }
}

/// The view of a partial value.
pub open spec fn pvalue_view(v: Pvalue) -> Option<ValueV> {
    match v {
        Some(x) => Some(x@),
        None => None,
    }
}

/// A copy of a partial value.
pub fn pvalue_duplicate(v: &Pvalue) -> (r: Pvalue)
    ensures
        pvalue_view(r) == pvalue_view(*v),
{
    match v {
        Some(x) => Some(x.duplicate()),
        None => None,
    }
}

/// Types; `Undefined(t)` is the type of a place whose value of type `t` was moved out.
#[derive(Debug, PartialEq)]
pub enum Type {
    Unit,
    Int,
    TBox(Box<Type>),
    Ref(Lval, Mutable),
    Undefined(Box<Type>),
}

/// The mathematical view of a type.
pub enum TypeV {
    Unit,
    Int,
    TBox(Box<TypeV>),
    Ref(LvalV, Mutable),
    Undefined(Box<TypeV>),
}

pub open spec fn type_view(t: Type) -> TypeV
    decreases t,
{
    match t {
        Type::Unit => TypeV::Unit,
        Type::Int => TypeV::Int,
        Type::TBox(b) => TypeV::TBox(Box::new(type_view(*b))),
        Type::Ref(w, m) => TypeV::Ref(w@, m),
        Type::Undefined(b) => TypeV::Undefined(Box::new(type_view(*b))),
    }
}

impl View for Type {
    type V = TypeV;

    open spec fn view(&self) -> TypeV {
        type_view(*self)
    }
}

impl Type {
    /// A copy of this type.
    pub fn duplicate(&self) -> (t: Type)
        ensures
            t@ == self@,
        decreases self,
    {
        match self {
            Type::Unit => Type::Unit,
            Type::Int => Type::Int,
            Type::TBox(b) => Type::TBox(Box::new((**b).duplicate())),
            Type::Ref(w, m) => Type::Ref(w.duplicate(), *m),
            Type::Undefined(b) => Type::Undefined(Box::new((**b).duplicate())),
        }
    }
}

impl Type {
    /// Whether two types are the same.
    pub fn same(&self, other: &Type) -> (b: bool)
        ensures
            b == (self@ == other@),
        decreases self,
    {
        match (self, other) {
            (Type::Unit, Type::Unit) => true,
            (Type::Int, Type::Int) => true,
            (Type::TBox(a), Type::TBox(b)) => (**a).same(&**b),
            (Type::Ref(w1, m1), Type::Ref(w2, m2)) => w1.same(w2) && *m1 == *m2,
            (Type::Undefined(a), Type::Undefined(b)) => (**a).same(&**b),
            _ => false,
        }
    }
}

impl Expr {
    /// A copy of this expression.
    pub fn duplicate(&self) -> (e: Expr)
        ensures
            e@ == self@,
        decreases self,
    {
        match self {
            Expr::Unit => Expr::Unit,
            Expr::Int(i) => Expr::Int(*i),
            Expr::Lv(w, c) => Expr::Lv(w.duplicate(), *c),
            Expr::OBox(b) => Expr::OBox(Box::new((**b).duplicate())),
            Expr::Borrow(w, m) => Expr::Borrow(w.duplicate(), *m),
            Expr::Block(ss, b, l) => {
                proof {
                    let ghost e0 = *self;
                    assert(e0 == Expr::Block(*ss, *b, *l));
                    assert(decreases_to!(e0 => *ss));
                    assert forall|j: int| 0 <= j < ss@.len() implies decreases_to!(*self => #[trigger] ss@[j]) by {
                        assert(decreases_to!(e0 => *ss));
                        assert(decreases_to!(*ss => ss@));
                        assert(decreases_to!(ss@ => ss@[j]));
                    }
                }
                let mut out: Vec<Stmt> = Vec::new();
                let mut i: usize = 0;
                while i < ss.len()
                    invariant
                        i <= ss.len(),
                        forall|j: int| 0 <= j < ss@.len() ==> decreases_to!(*self => #[trigger] ss@[j]),
                        stmts_view(out@) == stmts_view(ss@.take(i as int)),
                    decreases ss.len() - i,
                {
                    assert(decreases_to!(*self => ss@[i as int]));
                    let s = ss[i].duplicate();
                    proof {
                        lemma_stmts_view_push(out@, s);
                        lemma_stmts_view_push(ss@.take(i as int), ss@[i as int]);
                        assert(ss@.take(i as int).push(ss@[i as int]) =~= ss@.take(i + 1));
                    }
                    out.push(s);
                    i = i + 1;
                }
                assert(ss@.take(ss.len() as int) =~= ss@);
                Expr::Block(out, Box::new((**b).duplicate()), *l)
            },
        }
    }
}

impl Stmt {
    /// A copy of this statement.
    pub fn duplicate(&self) -> (s: Stmt)
        ensures
            s@ == self@,
        decreases self,
    {
        match self {
            Stmt::Assign(w, e) => Stmt::Assign(w.duplicate(), e.duplicate()),
            Stmt::LetMut(x, e) => Stmt::LetMut(x.clone(), e.duplicate()),
            Stmt::Expr(e) => Stmt::Expr(e.duplicate()),
        }
    }
}

impl Clone for Type {
    fn clone(&self) -> (t: Self)
        ensures
            t@ == self@,
    {
        self.duplicate()
    }
}

impl Clone for Expr {
    fn clone(&self) -> (e: Self)
        ensures
            e@ == self@,
    {
        self.duplicate()
    }
}

impl Clone for Stmt {
    fn clone(&self) -> (s: Self)
        ensures
            s@ == self@,
    {
        self.duplicate()
    }
}

/// Viewing a sequence of statements commutes with appending one.
pub proof fn lemma_stmts_view_push(ss: Seq<Stmt>, s: Stmt)
    ensures
        stmts_view(ss.push(s)) == stmts_view(ss).push(stmt_view(s)),
        stmts_view(ss).len() == ss.len(),
    decreases ss.len(),
{
    if ss.len() == 0 {
        assert(ss.push(s).drop_first() =~= Seq::<Stmt>::empty());
        assert(stmts_view(Seq::<Stmt>::empty()) == Seq::<StmtV>::empty());
        assert(ss.push(s)[0] == s);
        assert(stmts_view(ss.push(s)) =~= stmts_view(ss).push(stmt_view(s)));
    } else {
        lemma_stmts_view_push(ss.drop_first(), s);
        assert(ss.push(s).drop_first() =~= ss.drop_first().push(s));
        assert(ss.push(s)[0] == ss[0]);
        let a = seq![stmt_view(ss[0])];
        let b = stmts_view(ss.drop_first());
        assert(stmts_view(ss.push(s)) == a + b.push(stmt_view(s)));
        assert(a + b.push(stmt_view(s)) =~= (a + b).push(stmt_view(s)));
    }
}


/// Element `i` of the view of a sequence of statements is the view of statement `i`.
pub proof fn lemma_stmts_view_index(ss: Seq<Stmt>)
    ensures
        stmts_view(ss).len() == ss.len(),
        forall|i: int| 0 <= i < ss.len() ==> #[trigger] stmts_view(ss)[i] == stmt_view(ss[i]),
    decreases ss.len(),
{
    if ss.len() > 0 {
        lemma_stmts_view_index(ss.drop_first());
        assert forall|i: int| 0 <= i < ss.len() implies #[trigger] stmts_view(ss)[i] == stmt_view(
            ss[i],
        ) by {
            if i > 0 {
                assert(ss.drop_first()[i - 1] == ss[i]);
            }
        }
    }
}

/// The characters of a sequence of ASCII bytes.
pub open spec fn ascii_chars(b: Seq<u8>) -> Seq<char> {
    Seq::new(b.len(), |i: int| b[i] as char)
}

pub open spec fn is_ascii_bytes(b: Seq<u8>) -> bool {
    forall|i: int| 0 <= i < b.len() ==> #[trigger] b[i] < 128
}

/// A `String` holding ASCII bytes, made by `String::from_utf8` of std: ASCII
/// bytes are valid UTF-8, and each stands for the character of the same code.
#[verifier::external_body]
pub(crate) fn string_from_ascii(bytes: Vec<u8>) -> (s: String)
    requires
        is_ascii_bytes(bytes@),
    ensures
        s@ == ascii_chars(bytes@),
{
    match String::from_utf8(bytes) {
        Ok(s) => s,
        Err(_) => String::new(),
    }
}

/// The decimal digits of `n`, most significant first.
pub open spec fn digits(n: nat) -> Seq<char>
    decreases n,
{
    if n < 10 {
        seq![((n + 48) as u8) as char]
    } else {
        digits(n / 10).push((((n % 10) + 48) as u8) as char)
    }
}

/// The decimal notation of an integer, with a leading `-` when negative.
pub open spec fn decimal(n: int) -> Seq<char> {
    if n < 0 {
        seq!['-'] + digits((-n) as nat)
    } else {
        digits(n as nat)
    }
}

/// The ASCII bytes of the decimal notation of `n`.
pub fn decimal_bytes(n: i32) -> (r: Vec<u8>)
    ensures
        ascii_chars(r@) == decimal(n as int),
        is_ascii_bytes(r@),
{
    let mut m: u64 = if n < 0 {
        (0i64 - (n as i64)) as u64
    } else {
        n as u64
    };
    let ghost top: nat = m as nat;
    let mut out: Vec<u8> = Vec::new();
    while m >= 10
        invariant
            digits(top) == digits(m as nat) + ascii_chars(out@),
            is_ascii_bytes(out@),
        decreases m,
    {
        let d = (m % 10) as u8;
        let ghost before = out@;
        out.insert(0, d + 48);
        proof {
            assert(ascii_chars(out@) =~= seq![((d + 48) as u8) as char] + ascii_chars(before));
            assert(digits(m as nat) == digits((m / 10) as nat).push((((m % 10) + 48) as u8) as char));
            assert(digits(m as nat) + ascii_chars(before) =~= digits((m / 10) as nat) + ascii_chars(out@));
        }
        m = m / 10;
    }
    let ghost before = out@;
    out.insert(0, (m as u8) + 48);
    proof {
        assert(ascii_chars(out@) =~= seq![(((m as u8) + 48) as u8) as char] + ascii_chars(before));
    }
    if n < 0 {
        let ghost digs = out@;
        out.insert(0, 45u8);
        proof {
            assert(ascii_chars(out@) =~= seq!['-'] + ascii_chars(digs));
        }
    }
    out
}

} // verus!
