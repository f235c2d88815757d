//! Evaluation: stores of locations, and the evaluation of expressions and statements.
use vstd::prelude::*;
use crate::entries::{
    find_from, lookup, insert_entry, lemma_find_from, names_unique, lemma_insert_unique, same_bindings,
    covered_by, lemma_same_bindings,
};
use vstd::std_specs::cmp::PartialEqSpecImpl;
use crate::utils::{
    Lifetime, Location, Lval, LvalV, Pvalue, Value, ValueV, Owned, Copyable, Expr, ExprV, Stmt,
    StmtV, pvalue_view, pvalue_duplicate, pvalue_same, stmts_view, lemma_stmts_view_index, ascii_chars,
    string_from_ascii, decimal, decimal_bytes,
};

verus! {

/// A store slot: the value held at a location (none once moved out) and the
/// lifetime of the scope that owns it.
#[derive(Debug, PartialEq)]
pub struct Slot {
    pub value: Pvalue,
    pub lifetime: Lifetime,
}

/// The mathematical view of a store slot.
pub struct SlotV {
    pub value: Option<ValueV>,
    pub lifetime: nat,
}

impl View for Slot {
    type V = SlotV;

    open spec fn view(&self) -> SlotV {
        SlotV { value: pvalue_view(self.value), lifetime: self.lifetime.0 as nat }
    }
}

impl Slot {
    /// A copy of this slot.
    pub fn duplicate(&self) -> (s: Slot)
        ensures
            s@ == self@,
    {
        Slot { value: pvalue_duplicate(&self.value), lifetime: self.lifetime }
    }
}

impl Clone for Slot {
    fn clone(&self) -> (s: Self)
        ensures
            s@ == self@,
    {
        self.duplicate()
    }
}

/// The view of a store: its locations with their slots, in order.
pub type StoreV = Seq<(Seq<char>, SlotV)>;

pub open spec fn store_entries_view(v: Seq<(Location, Slot)>) -> StoreV {
    Seq::new(v.len(), |i: int| (v[i].0@, v[i].1@))
}

/// A store: locations with their slots. A location is looked up at its first
/// entry, and insertion replaces that entry, so locations stay unique. Two
/// stores are equal when they bind every location alike, in whatever order.
#[derive(Debug)]
pub struct Store(pub Vec<(Location, Slot)>);

impl View for Store {
    type V = StoreV;

    open spec fn view(&self) -> StoreV {
        store_entries_view(self.0@)
    }
}

pub open spec fn pvalues_view(vs: Seq<Pvalue>) -> Seq<Option<ValueV>> {
    Seq::new(vs.len(), |i: int| pvalue_view(vs[i]))
}

/// The location named by `*...*x` (`k` dereferences): each dereference follows
/// the reference held at the current location. `None` when a location is
/// missing or holds no reference.
pub open spec fn locate_from(st: StoreV, x: Seq<char>, k: nat) -> Option<Seq<char>>
    decreases k,
{
    if k == 0 {
        Some(x)
    } else {
        match lookup(st, x) {
            Some(s) => match s.value {
                Some(ValueV::Ref(loc, _)) => locate_from(st, loc, (k - 1) as nat),
                _ => None,
            },
            None => None,
        }
    }
}

/// The location of lvalue `w`.
pub open spec fn locate_spec(st: StoreV, w: LvalV) -> Option<Seq<char>> {
    locate_from(st, w.ident, w.derefs)
}

/// The slot at the location of `w`.
pub open spec fn read_spec(st: StoreV, w: LvalV) -> Option<SlotV> {
    match locate_spec(st, w) {
        Some(loc) => lookup(st, loc),
        None => None,
    }
}

/// Stores `v` at the location of `w`, keeping its lifetime: the new store and
/// the value that was there.
pub open spec fn write_spec(st: StoreV, w: LvalV, v: Option<ValueV>) -> Option<(StoreV, Option<ValueV>)> {
    match locate_spec(st, w) {
        Some(loc) => match lookup(st, loc) {
            Some(old) => Some((insert_entry(st, loc, SlotV { value: v, lifetime: old.lifetime }), old.value)),
            None => None,
        },
        None => None,
    }
}

/// One round of dropping: removes, in order, each location owned by one of
/// `vs`, collecting the values they held. `None` when such a location is missing.
pub open spec fn drop_level(st: StoreV, vs: Seq<Option<ValueV>>) -> Option<(StoreV, Seq<Option<ValueV>>)>
    decreases vs.len(),
{
    if vs.len() == 0 {
        Some((st, Seq::empty()))
    } else {
        match vs[0] {
            Some(ValueV::Ref(loc, Owned::Yes)) => match find_from(st, loc, 0) {
                None => None,
                Some(i) => match drop_level(st.remove(i), vs.drop_first()) {
                    None => None,
                    Some((st2, res)) => Some((st2, seq![st[i].1.value] + res)),
                },
            },
            _ => drop_level(st, vs.drop_first()),
        }
    }
}

/// Each value collected by a round of dropping comes from one removed location.
pub proof fn lemma_drop_level_len(st: StoreV, vs: Seq<Option<ValueV>>)
    ensures
        drop_level(st, vs) matches Some((st2, res)) ==> st2.len() + res.len() == st.len(),
    decreases vs.len(),
{
    if vs.len() > 0 {
        match vs[0] {
            Some(ValueV::Ref(loc, Owned::Yes)) => match find_from(st, loc, 0) {
                None => {},
                Some(i) => {
                    lemma_find_from(st, loc, 0);
                    lemma_drop_level_len(st.remove(i), vs.drop_first());
                },
            },
            _ => lemma_drop_level_len(st, vs.drop_first()),
        }
    }
}

/// Drops the locations owned by `vs`, then those owned by what they held, and so
/// on. `None` when an owned location is missing.
pub open spec fn drop_spec(st: StoreV, vs: Seq<Option<ValueV>>) -> Option<StoreV>
    decreases st.len(),
{
    match drop_level(st, vs) {
        None => None,
        Some((st2, res)) => if res.len() == 0 {
            Some(st2)
        } else {
            proof {
                lemma_drop_level_len(st, vs);
            }
            drop_spec(st2, res)
        },
    }
}

/// The owning references to every location of lifetime `l`, in store order.
pub open spec fn locs_by_lifetime_spec(st: StoreV, l: nat) -> Seq<Option<ValueV>>
    decreases st.len(),
{
    if st.len() == 0 {
        Seq::empty()
    } else {
        let r = locs_by_lifetime_spec(st.drop_last(), l);
        if st.last().1.lifetime == l {
            r.push(Some(ValueV::Ref(st.last().0, Owned::Yes)))
        } else {
            r
        }
    }
}

impl Slot {
    /// Whether two slots are the same.
    pub fn same(&self, other: &Slot) -> (b: bool)
        ensures
            b == (self@ == other@),
    {
        self.lifetime.0 == other.lifetime.0 && pvalue_same(&self.value, &other.value)
    }
}

impl Store {
    /// Whether each location of `self` is bound in `other` as in `self`.
    fn covered_by(&self, other: &Store) -> (b: bool)
        ensures
            b == covered_by(self@, other@),
    {
        let mut i: usize = 0;
        while i < self.0.len()
            invariant
                i <= self.0.len(),
                forall|j: int| 0 <= j < i ==> lookup(other@, #[trigger] self@[j].0) == lookup(self@, self@[j].0),
            decreases self.0.len() - i,
        {
            let k = &self.0[i].0;
            let agree = match (self.find(k), other.find(k)) {
                (Some(a), Some(b)) => self.0[a].1.same(&other.0[b].1),
                (None, None) => true,
                _ => false,
            };
            if !agree {
                assert(lookup(other@, self@[i as int].0) != lookup(self@, self@[i as int].0));
                return false;
            }
            i = i + 1;
        }
        true
    }
}

impl PartialEq for Store {
    fn eq(&self, other: &Store) -> (r: bool) {
        proof {
            lemma_same_bindings(self@, other@);
        }
        self.covered_by(other) && other.covered_by(self)
    }
}

impl PartialEqSpecImpl for Store {
    open spec fn obeys_eq_spec() -> bool {
        true
    }

    open spec fn eq_spec(&self, other: &Store) -> bool {
        same_bindings(self@, other@)
    }
}

impl Clone for Store {
    fn clone(&self) -> (r: Self)
        ensures
            r@ == self@,
    {
        let mut v: Vec<(Location, Slot)> = Vec::new();
        let mut i: usize = 0;
        while i < self.0.len()
            invariant
                i <= self.0.len(),
                store_entries_view(v@) =~= self@.take(i as int),
            decreases self.0.len() - i,
        {
            let k = self.0[i].0.clone();
            let s = self.0[i].1.duplicate();
            assert(k@ == self@[i as int].0);
            let ghost before = v@;
            v.push((k, s));
            assert(store_entries_view(v@) =~= store_entries_view(before).push(self@[i as int]));
            assert(self@.take(i + 1) =~= self@.take(i as int).push(self@[i as int]));
            i = i + 1;
        }
        assert(self@.take(self@.len() as int) =~= self@);
        Store(v)
    }
}

impl Store {
    /// The empty store.
    pub fn default() -> (st: Store)
        ensures
            st@ == Seq::<(Seq<char>, SlotV)>::empty(),
            names_unique(st@),
    {
        Store(Vec::new())
    }

    /// The index of the entry of location `x`, if any.
    fn find(&self, x: &Location) -> (r: Option<usize>)
        ensures
            r matches Some(i) ==> i < self@.len() && find_from(self@, x@, 0) == Some(i as int),
            r is None ==> find_from(self@, x@, 0) is None,
    {
        let mut i: usize = 0;
        while i < self.0.len()
            invariant
                i <= self.0.len(),
                find_from(self@, x@, 0) == find_from(self@, x@, i as int),
            decreases self.0.len() - i,
        {
            if self.0[i].0 == *x {
                return Some(i);
            }
            i = i + 1;
        }
        None
    }

    /// Binds location `key` to `slot`.
    fn insert_slot(&mut self, key: Location, slot: Slot)
        ensures
            final(self)@ == insert_entry(old(self)@, key@, slot@),
    {
        let ghost k = key@;
        let ghost s = slot@;
        match self.find(&key) {
            Some(i) => {
                self.0.set(i, (key, slot));
                assert(self@ =~= old(self)@.update(i as int, (k, s)));
            },
            None => {
                self.0.push((key, slot));
                assert(self@ =~= old(self)@.push((k, s)));
            },
        }
    }

    /// The owning references to every location of lifetime `l`.
    pub fn locs_by_lifetime(&self, l: Lifetime) -> (r: Vec<Pvalue>)
        ensures
            pvalues_view(r@) == locs_by_lifetime_spec(self@, l.0 as nat),
    {
        let mut result: Vec<Pvalue> = Vec::new();
        let mut i: usize = 0;
        while i < self.0.len()
            invariant
                i <= self.0.len(),
                pvalues_view(result@) == locs_by_lifetime_spec(self@.take(i as int), l.0 as nat),
            decreases self.0.len() - i,
        {
            proof {
                assert(self@.take(i + 1).drop_last() =~= self@.take(i as int));
            }
            if self.0[i].1.lifetime.0 == l.0 {
                let ghost before = result@;
                result.push(Some(Value::Ref(self.0[i].0.clone(), Owned::Yes)));
                assert(pvalues_view(result@) =~= pvalues_view(before).push(
                    Some(ValueV::Ref(self@[i as int].0, Owned::Yes)),
                ));
            }
            i = i + 1;
        }
        assert(self@.take(self@.len() as int) =~= self@);
        result
    }

    /// Binds location `loc` to value `val` with lifetime `l`.
    pub fn insert(&mut self, loc: &str, val: Pvalue, l: Lifetime)
        ensures
            final(self)@ == insert_entry(
                old(self)@,
                loc@,
                SlotV { value: pvalue_view(val), lifetime: l.0 as nat },
            ),
            names_unique(old(self)@) ==> names_unique(final(self)@),
    {
        proof {
            if names_unique(self@) {
                lemma_insert_unique(self@, loc@, SlotV { value: pvalue_view(val), lifetime: l.0 as nat });
            }
        }
        self.insert_slot(loc.to_owned(), Slot { value: val, lifetime: l });
    }

    /// The location named by lvalue `w`.
    pub fn locate<'a>(&'a self, w: &'a Lval) -> (r: &'a Location)
        requires
            locate_spec(self@, w@) is Some,
        ensures
            locate_spec(self@, w@) == Some(r@),
    {
        let mut cur: &'a Location = &w.ident;
        let mut i: usize = 0;
        while i < w.derefs
            invariant
                i <= w.derefs,
                locate_from(self@, cur@, (w.derefs - i) as nat) == locate_spec(self@, w@),
                locate_spec(self@, w@) is Some,
            decreases w.derefs - i,
        {
            match self.find(cur) {
                Some(j) => match &self.0[j].1.value {
                    Some(Value::Ref(loc, _)) => {
                        cur = loc;
                    },
                    _ => {
                        assert(false);
                    },
                },
                None => {
                    assert(false);
                },
            }
            i = i + 1;
        }
        cur
    }

    /// The slot at the location of `x`.
    pub fn read(&self, x: &Lval) -> (r: &Slot)
        requires
            read_spec(self@, x@) is Some,
        ensures
            read_spec(self@, x@) == Some(r@),
    {
        let loc = self.locate(x);
        match self.find(loc) {
            Some(j) => &self.0[j].1,
            None => {
                assert(false);
                &self.0[0].1
            },
        }
    }

    /// Stores `v` at the location of `x`, keeping its lifetime; returns the value
    /// that was there.
    pub fn write(&mut self, x: &Lval, v: Pvalue) -> (r: Pvalue)
        requires
            write_spec(old(self)@, x@, pvalue_view(v)) is Some,
        ensures
            (final(self)@, pvalue_view(r)) == write_spec(old(self)@, x@, pvalue_view(v))->0,
            names_unique(old(self)@) ==> names_unique(final(self)@),
    {
        proof {
            let loc = locate_spec(self@, x@)->Some_0;
            let s = SlotV { value: pvalue_view(v), lifetime: lookup(self@, loc)->Some_0.lifetime };
            if names_unique(self@) {
                lemma_insert_unique(self@, loc, s);
            }
        }
        let loc: Location = self.locate(x).clone();
        match self.find(&loc) {
            Some(j) => {
                let old_value = pvalue_duplicate(&self.0[j].1.value);
                let l = self.0[j].1.lifetime;
                self.insert_slot(loc, Slot { value: v, lifetime: l });
                old_value
            },
            None => {
                assert(false);
                None
            },
        }
    }

    /// Drops the locations owned by `values`, then, in turn, those owned by what
    /// they held.
    pub fn drop(&mut self, values: Vec<Pvalue>)
        requires
            drop_spec(old(self)@, pvalues_view(values@)) is Some,
        ensures
            final(self)@ == drop_spec(old(self)@, pvalues_view(values@))->0,
            names_unique(old(self)@) ==> names_unique(final(self)@),
        decreases old(self)@.len(),
    {
        proof {
            if names_unique(self@) {
                crate::properties::law_drop_keeps_locations_unique(self@, pvalues_view(values@));
            }
        }
        let ghost st0 = self@;
        let ghost vv = pvalues_view(values@);
        let mut result: Vec<Pvalue> = Vec::new();
        let mut i: usize = 0;
        assert(vv.skip(0) =~= vv);
        assert(pvalues_view(result@) + drop_level(st0, vv).unwrap().1 =~= drop_level(st0, vv).unwrap().1);
        while i < values.len()
            invariant
                i <= values.len(),
                vv == pvalues_view(values@),
                drop_level(st0, vv) is Some,
                drop_level(self@, vv.skip(i as int)) is Some,
                drop_level(st0, vv).unwrap().0 == drop_level(self@, vv.skip(i as int)).unwrap().0,
                drop_level(st0, vv).unwrap().1 == pvalues_view(result@) + drop_level(
                    self@,
                    vv.skip(i as int),
                ).unwrap().1,
            decreases values.len() - i,
        {
            let ghost cur = self@;
            let ghost rv = pvalues_view(result@);
            assert(vv.skip(i as int)[0] == vv[i as int]);
            assert(vv.skip(i as int).drop_first() =~= vv.skip(i + 1));
            match &values[i] {
                Some(Value::Ref(loc, o)) => {
                    if *o == Owned::Yes {
                        match self.find(loc) {
                            Some(j) => {
                                let (_, slot) = self.0.remove(j);
                                result.push(slot.value);
                                proof {
                                    assert(self@ =~= cur.remove(j as int));
                                    assert(pvalues_view(result@) =~= rv.push(cur[j as int].1.value));
                                    assert(seq![cur[j as int].1.value] + drop_level(
                                        self@,
                                        vv.skip(i + 1),
                                    ).unwrap().1 == drop_level(cur, vv.skip(i as int)).unwrap().1);
                                    assert(rv + drop_level(cur, vv.skip(i as int)).unwrap().1 =~= rv.push(
                                        cur[j as int].1.value,
                                    ) + drop_level(self@, vv.skip(i + 1)).unwrap().1);
                                }
                            },
                            None => {
                                assert(false);
                            },
                        }
                    }
                },
                _ => {},
            }
            i = i + 1;
        }
        proof {
            assert(vv.skip(values.len() as int) =~= Seq::<Option<ValueV>>::empty());
            assert(pvalues_view(result@) + Seq::<Option<ValueV>>::empty() =~= pvalues_view(result@));
            lemma_drop_level_len(st0, vv);
        }
        if result.len() != 0 {
            self.drop(result);
        }
    }
}

/// A round of dropping after some values were collected already.
pub open spec fn after_round(
    collected: Seq<Option<ValueV>>,
    r: Option<(StoreV, Seq<Option<ValueV>>)>,
) -> Option<(StoreV, Seq<Option<ValueV>>)> {
    match r {
        None => None,
        Some((st, res)) => Some((st, collected + res)),
    }
}

impl Store {
    /// The location named by lvalue `w`, or `None` when a location on the way is
    /// missing or holds no reference.
    pub fn try_locate<'a>(&'a self, w: &'a Lval) -> (r: Option<&'a Location>)
        ensures
            match locate_spec(self@, w@) {
                Some(l) => r matches Some(rl) && rl@ == l,
                None => r is None,
            },
    {
        let mut cur: &'a Location = &w.ident;
        let mut i: usize = 0;
        while i < w.derefs
            invariant
                i <= w.derefs,
                locate_from(self@, cur@, (w.derefs - i) as nat) == locate_spec(self@, w@),
            decreases w.derefs - i,
        {
            match self.find(cur) {
                Some(j) => match &self.0[j].1.value {
                    Some(Value::Ref(loc, _)) => {
                        cur = loc;
                    },
                    _ => {
                        return None;
                    },
                },
                None => {
                    return None;
                },
            }
            i = i + 1;
        }
        Some(cur)
    }

    /// The slot at the location of `x`, or `None` when there is none.
    pub fn try_read(&self, x: &Lval) -> (r: Option<&Slot>)
        ensures
            match read_spec(self@, x@) {
                Some(s) => r matches Some(rs) && rs@ == s,
                None => r is None,
            },
    {
        match self.try_locate(x) {
            Some(loc) => match self.find(loc) {
                Some(j) => Some(&self.0[j].1),
                None => None,
            },
            None => None,
        }
    }

    /// Writes `v` at the location of `x`, as `write` does, or leaves the store
    /// as it is and returns `None` when `x` has no location.
    pub fn try_write(&mut self, x: &Lval, v: Pvalue) -> (r: Option<Pvalue>)
        ensures
            r is None <==> write_spec(old(self)@, x@, pvalue_view(v)) is None,
            r is None ==> final(self)@ == old(self)@,
            r matches Some(o) ==> (final(self)@, pvalue_view(o)) == write_spec(old(self)@, x@, pvalue_view(v))->0,
    {
        if self.try_read(x).is_none() {
            return None;
        }
        Some(self.write(x, v))
    }

    /// One round of dropping, as `drop` does it, or `false` when an owned
    /// location is missing.
    fn drop_checked(&mut self, values: Vec<Pvalue>) -> (ok: bool)
        ensures
            ok == drop_spec(old(self)@, pvalues_view(values@)) is Some,
            ok ==> final(self)@ == drop_spec(old(self)@, pvalues_view(values@))->0,
        decreases old(self)@.len(),
    {
        let ghost st0 = self@;
        let ghost vv = pvalues_view(values@);
        let mut result: Vec<Pvalue> = Vec::new();
        let mut i: usize = 0;
        assert(vv.skip(0) =~= vv);
        assert(after_round(pvalues_view(result@), drop_level(self@, vv)) =~= drop_level(st0, vv)) by {
            if let Some((a, r)) = drop_level(st0, vv) {
                assert(Seq::<Option<ValueV>>::empty() + r =~= r);
            }
        }
        while i < values.len()
            invariant
                i <= values.len(),
                vv == pvalues_view(values@),
                st0 == old(self)@,
                drop_level(st0, vv) == after_round(pvalues_view(result@), drop_level(self@, vv.skip(i as int))),
            decreases values.len() - i,
        {
            let ghost cur = self@;
            let ghost rv = pvalues_view(result@);
            assert(vv.skip(i as int)[0] == vv[i as int]);
            assert(vv.skip(i as int).drop_first() =~= vv.skip(i + 1));
            match &values[i] {
                Some(Value::Ref(loc, o)) => {
                    if *o == Owned::Yes {
                        match self.find(loc) {
                            Some(j) => {
                                let (_, slot) = self.0.remove(j);
                                result.push(slot.value);
                                proof {
                                    assert(self@ =~= cur.remove(j as int));
                                    assert(pvalues_view(result@) =~= rv.push(cur[j as int].1.value));
                                    if let Some((a, r)) = drop_level(self@, vv.skip(i + 1)) {
                                        assert(rv + (seq![cur[j as int].1.value] + r) =~= rv.push(
                                            cur[j as int].1.value,
                                        ) + r);
                                    }
                                }
                            },
                            None => {
                                assert(vv[i as int] == Some(ValueV::Ref(loc@, Owned::Yes)));
                                assert(drop_level(self@, vv.skip(i as int)) is None);
                                assert(drop_level(st0, vv) is None);
                                assert(drop_spec(st0, vv) is None);
                                return false;
                            },
                        }
                    }
                },
                _ => {},
            }
            i = i + 1;
        }
        proof {
            assert(vv.skip(values.len() as int) =~= Seq::<Option<ValueV>>::empty());
            assert(pvalues_view(result@) + Seq::<Option<ValueV>>::empty() =~= pvalues_view(result@));
            lemma_drop_level_len(st0, vv);
        }
        if result.len() != 0 {
            self.drop_checked(result)
        } else {
            true
        }
    }

    /// Drops the locations owned by `values`, as `drop` does, or leaves the store
    /// as it is and returns `false` when an owned location is missing.
    pub fn try_drop(&mut self, values: Vec<Pvalue>) -> (ok: bool)
        ensures
            ok == drop_spec(old(self)@, pvalues_view(values@)) is Some,
            ok ==> final(self)@ == drop_spec(old(self)@, pvalues_view(values@))->0,
            !ok ==> final(self)@ == old(self)@,
    {
        let mut c = self.clone();
        if c.drop_checked(values) {
            *self = c;
            true
        } else {
            false
        }
    }
}

/// The name of the `n`-th location made for a box.
pub open spec fn fresh_name(n: int) -> Seq<char> {
    seq!['x'] + decimal(n)
}

/// The view of an evaluation context: the store and the number of boxes made.
pub struct StateV {
    pub store: StoreV,
    pub num: int,
}

/// Evaluates `e` in lifetime `l`: the state after it and its value. A box
/// stores its content at a fresh location of the global lifetime; a block runs
/// its statements and result in its own lifetime, then drops the locations of
/// that lifetime. `None` when evaluation would fail (a missing location, a
/// moved-out value, or too many boxes).
pub open spec fn eval_spec(c: StateV, e: ExprV, l: nat) -> Option<(StateV, ValueV)>
    decreases e,
{
    match e {
        ExprV::Unit => Some((c, ValueV::Unit)),
        ExprV::Int(x) => Some((c, ValueV::Int(x))),
        ExprV::Lv(w, Copyable::Yes) => match read_spec(c.store, w) {
            Some(s) => match s.value {
                Some(v) => Some((c, v)),
                None => None,
            },
            None => None,
        },
        ExprV::Lv(w, Copyable::No) => match write_spec(c.store, w, None) {
            Some((st2, Some(v))) => Some((StateV { store: st2, num: c.num }, v)),
            _ => None,
        },
        ExprV::OBox(b) => match eval_spec(c, *b, l) {
            None => None,
            Some((c2, v)) => if c2.num >= i32::MAX {
                None
            } else {
                let loc = fresh_name(c2.num + 1);
                Some(
                    (
                        StateV {
                            store: insert_entry(c2.store, loc, SlotV { value: Some(v), lifetime: 0 }),
                            num: c2.num + 1,
                        },
                        ValueV::Ref(loc, Owned::Yes),
                    ),
                )
            },
        },
        ExprV::Borrow(w, _) => match locate_spec(c.store, w) {
            Some(loc) => Some((c, ValueV::Ref(loc, Owned::No))),
            None => None,
        },
        ExprV::Block(ss, b, l1) => match eval_stmts_spec(c, ss, l1) {
            None => None,
            Some(c2) => match eval_spec(c2, *b, l1) {
                None => None,
                Some((c3, v)) => match drop_spec(c3.store, locs_by_lifetime_spec(c3.store, l1)) {
                    None => None,
                    Some(st4) => Some((StateV { store: st4, num: c3.num }, v)),
                },
            },
        },
    }
}

/// Runs statements in order.
pub open spec fn eval_stmts_spec(c: StateV, ss: Seq<StmtV>, l: nat) -> Option<StateV>
    decreases ss,
{
    if ss.len() == 0 {
        Some(c)
    } else {
        match eval_stmt_spec(c, ss[0], l) {
            None => None,
            Some(c2) => eval_stmts_spec(c2, ss.drop_first(), l),
        }
    }
}

/// Runs statement `s` in lifetime `l`. An assignment drops what the place owned
/// before storing the new value; a declaration binds a location of lifetime `l`.
pub open spec fn eval_stmt_spec(c: StateV, s: StmtV, l: nat) -> Option<StateV>
    decreases s,
{
    match s {
        StmtV::Assign(w, e) => match eval_spec(c, e, l) {
            None => None,
            Some((c2, v)) => match read_spec(c2.store, w) {
                None => None,
                Some(old) => match drop_spec(c2.store, seq![old.value]) {
                    None => None,
                    Some(st3) => match write_spec(st3, w, Some(v)) {
                        None => None,
                        Some((st4, _)) => Some(StateV { store: st4, num: c2.num }),
                    },
                },
            },
        },
        StmtV::LetMut(x, e) => match eval_spec(c, e, l) {
            None => None,
            Some((c2, v)) => Some(
                StateV {
                    store: insert_entry(c2.store, x, SlotV { value: Some(v), lifetime: l }),
                    num: c2.num,
                },
            ),
        },
        StmtV::Expr(e) => match eval_spec(c, e, l) {
            None => None,
            Some((c2, _)) => Some(c2),
        },
    }
}

/// An evaluation context: the store, and the number of boxes made so far.
pub struct Context {
    pub store: Store,
    pub num: i32,
}

impl View for Context {
    type V = StateV;

    open spec fn view(&self) -> StateV {
        StateV { store: self.store@, num: self.num as int }
    }
}

impl Context {
    /// A fresh location name for a new box.
    pub fn fresh(&mut self) -> (loc: Location)
        requires
            old(self).num < i32::MAX,
        ensures
            final(self).num == old(self).num + 1,
            final(self).store@ == old(self).store@,
            loc@ == fresh_name(old(self).num + 1),
    {
        self.num = self.num + 1;
        let mut bytes: Vec<u8> = Vec::new();
        bytes.push(120u8);
        let mut digits = decimal_bytes(self.num);
        bytes.append(&mut digits);
        proof {
            assert(ascii_chars(bytes@) =~= seq!['x'] + decimal(self.num as int));
        }
        string_from_ascii(bytes)
    }

    /// An empty context.
    pub fn default() -> (c: Context)
        ensures
            c@.store == Seq::<(Seq<char>, SlotV)>::empty(),
            c@.num == 0,
    {
        Context { store: Store::default(), num: 0 }
    }

    /// Evaluates `expr` in lifetime `l`.
    pub fn eval_expr(&mut self, expr: &Expr, l: Lifetime) -> (v: Value)
        requires
            eval_spec(old(self)@, expr@, l.0 as nat) is Some,
        ensures
            (final(self)@, v@) == eval_spec(old(self)@, expr@, l.0 as nat)->0,
        decreases expr@,
    {
        match expr {
            Expr::Unit => Value::Unit,
            Expr::Int(x) => Value::Int(*x),
            Expr::Lv(x, Copyable::Yes) => {
                let slot = self.store.read(x);
                match &slot.value {
                    Some(v) => v.duplicate(),
                    None => {
                        assert(false);
                        Value::Unit
                    },
                }
            },
            Expr::Lv(x, Copyable::No) => {
                match self.store.write(x, None) {
                    Some(v) => v,
                    None => {
                        assert(false);
                        Value::Unit
                    },
                }
            },
            Expr::OBox(e1) => {
                let v = self.eval_expr(&**e1, l);
                let loc = self.fresh();
                self.store.insert_slot(loc.clone(), Slot { value: Some(v), lifetime: Lifetime::global() });
                Value::Ref(loc, Owned::Yes)
            },
            Expr::Borrow(x, _) => {
                let place = self.store.locate(x);
                Value::Ref(place.clone(), Owned::No)
            },
            Expr::Block(statements, e1, l1) => {
                let ghost sv = stmts_view(statements@);
                let ghost s0 = self@;
                proof {
                    lemma_stmts_view_index(statements@);
                    assert forall|j: int| 0 <= j < sv.len() implies decreases_to!(expr@ => #[trigger] sv[j]) by {
                        assert(decreases_to!(expr@ => sv));
                    }
                }
                let mut i: usize = 0;
                assert(sv.skip(0) =~= sv);
                while i < statements.len()
                    invariant
                        i <= statements.len(),
                        sv == stmts_view(statements@),
                        sv.len() == statements@.len(),
                        forall|j: int| 0 <= j < sv.len() ==> #[trigger] sv[j] == stmts_view(statements@)[j],
                        forall|j: int| 0 <= j < sv.len() ==> decreases_to!(expr@ => #[trigger] sv[j]),
                        forall|j: int| 0 <= j < statements@.len() ==> #[trigger] stmts_view(statements@)[j] == statements@[j]@,
                        eval_stmts_spec(s0, sv, l1.0 as nat) is Some,
                        eval_stmts_spec(self@, sv.skip(i as int), l1.0 as nat) == eval_stmts_spec(
                            s0,
                            sv,
                            l1.0 as nat,
                        ),
                    decreases statements.len() - i,
                {
                    assert(sv.skip(i as int)[0] == sv[i as int]);
                    assert(sv.skip(i as int).drop_first() =~= sv.skip(i + 1));
                    self.eval_stmt(&statements[i], *l1);
                    i = i + 1;
                }
                assert(sv.skip(i as int) =~= Seq::<StmtV>::empty());
                let v = self.eval_expr(&**e1, *l1);
                let locs = self.store.locs_by_lifetime(*l1);
                self.store.drop(locs);
                v
            },
        }
    }

    /// Runs statement `stmt` in lifetime `l`.
    pub fn eval_stmt(&mut self, stmt: &Stmt, l: Lifetime)
        requires
            eval_stmt_spec(old(self)@, stmt@, l.0 as nat) is Some,
        ensures
            final(self)@ == eval_stmt_spec(old(self)@, stmt@, l.0 as nat)->0,
        decreases stmt@,
    {
        match stmt {
            Stmt::Assign(lv, expr) => {
                let val_expr = self.eval_expr(expr, l);
                let old_val = pvalue_duplicate(&self.store.read(lv).value);
                let mut olds: Vec<Pvalue> = Vec::new();
                olds.push(old_val);
                proof {
                    assert(pvalues_view(olds@) =~= seq![read_spec(self.store@, lv@)->0.value]);
                }
                self.store.drop(olds);
                self.store.write(lv, Some(val_expr));
            },
            Stmt::LetMut(x, expr) => {
                let val_expr = self.eval_expr(expr, l);
                self.store.insert_slot(x.clone(), Slot { value: Some(val_expr), lifetime: l });
            },
            Stmt::Expr(expr) => {
                self.eval_expr(expr, l);
            },
        }
    }
}

impl Context {
    /// Evaluates `expr` in lifetime `l`, as `eval_expr` does, or returns `None`
    /// where evaluation fails (a missing location, a moved-out value, a failed
    /// drop, or too many boxes); the context is then left in some state.
    pub fn try_eval_expr(&mut self, expr: &Expr, l: Lifetime) -> (r: Option<Value>)
        ensures
            r is None <==> eval_spec(old(self)@, expr@, l.0 as nat) is None,
            r matches Some(v) ==> (final(self)@, v@) == eval_spec(old(self)@, expr@, l.0 as nat)->0,
        decreases expr@,
    {
        match expr {
            Expr::Unit => Some(Value::Unit),
            Expr::Int(x) => Some(Value::Int(*x)),
            Expr::Lv(x, Copyable::Yes) => match self.store.try_read(x) {
                Some(slot) => match &slot.value {
                    Some(v) => Some(v.duplicate()),
                    None => None,
                },
                None => None,
            },
            Expr::Lv(x, Copyable::No) => match self.store.try_write(x, None) {
                Some(Some(v)) => Some(v),
                _ => None,
            },
            Expr::OBox(e1) => {
                let v = match self.try_eval_expr(&**e1, l) {
                    Some(v) => v,
                    None => {
                        return None;
                    },
                };
                if self.num >= 0x7fff_ffff {
                    return None;
                }
                let loc = self.fresh();
                self.store.insert_slot(loc.clone(), Slot { value: Some(v), lifetime: Lifetime::global() });
                Some(Value::Ref(loc, Owned::Yes))
            },
            Expr::Borrow(x, _) => match self.store.try_locate(x) {
                Some(place) => Some(Value::Ref(place.clone(), Owned::No)),
                None => None,
            },
            Expr::Block(statements, e1, l1) => {
                let ghost sv = stmts_view(statements@);
                let ghost s0 = self@;
                proof {
                    lemma_stmts_view_index(statements@);
                    assert forall|j: int| 0 <= j < sv.len() implies decreases_to!(expr@ => #[trigger] sv[j]) by {
                        assert(decreases_to!(expr@ => sv));
                    }
                }
                let mut i: usize = 0;
                assert(sv.skip(0) =~= sv);
                while i < statements.len()
                    invariant
                        i <= statements.len(),
                        s0 == old(self)@,
                        expr@ == ExprV::Block(sv, Box::new((**e1)@), l1.0 as nat),
                        sv == stmts_view(statements@),
                        sv.len() == statements@.len(),
                        forall|j: int| 0 <= j < sv.len() ==> #[trigger] sv[j] == stmts_view(statements@)[j],
                        forall|j: int| 0 <= j < sv.len() ==> decreases_to!(expr@ => #[trigger] sv[j]),
                        forall|j: int| 0 <= j < statements@.len() ==> #[trigger] stmts_view(statements@)[j] == statements@[j]@,
                        eval_stmts_spec(self@, sv.skip(i as int), l1.0 as nat) == eval_stmts_spec(
                            s0,
                            sv,
                            l1.0 as nat,
                        ),
                    decreases statements.len() - i,
                {
                    assert(sv.skip(i as int)[0] == sv[i as int]);
                    assert(sv.skip(i as int).drop_first() =~= sv.skip(i + 1));
                    if !self.try_eval_stmt(&statements[i], *l1) {
                        assert(eval_stmts_spec(s0, sv, l1.0 as nat) is None);
                        return None;
                    }
                    i = i + 1;
                }
                assert(sv.skip(i as int) =~= Seq::<StmtV>::empty());
                let v = match self.try_eval_expr(&**e1, *l1) {
                    Some(v) => v,
                    None => {
                        return None;
                    },
                };
                let locs = self.store.locs_by_lifetime(*l1);
                if !self.store.try_drop(locs) {
                    return None;
                }
                Some(v)
            },
        }
    }

    /// Runs statement `stmt` in lifetime `l`, as `eval_stmt` does, or returns
    /// `false` where evaluation fails; the context is then left in some state.
    pub fn try_eval_stmt(&mut self, stmt: &Stmt, l: Lifetime) -> (ok: bool)
        ensures
            ok == eval_stmt_spec(old(self)@, stmt@, l.0 as nat) is Some,
            ok ==> final(self)@ == eval_stmt_spec(old(self)@, stmt@, l.0 as nat)->0,
        decreases stmt@,
    {
        match stmt {
            Stmt::Assign(lv, expr) => {
                let val_expr = match self.try_eval_expr(expr, l) {
                    Some(v) => v,
                    None => {
                        return false;
                    },
                };
                let old_val = match self.store.try_read(lv) {
                    Some(slot) => pvalue_duplicate(&slot.value),
                    None => {
                        return false;
                    },
                };
                let mut olds: Vec<Pvalue> = Vec::new();
                olds.push(old_val);
                proof {
                    assert(pvalues_view(olds@) =~= seq![read_spec(self.store@, lv@)->0.value]);
                }
                if !self.store.try_drop(olds) {
                    return false;
                }
                match self.store.try_write(lv, Some(val_expr)) {
                    Some(_) => true,
                    None => false,
                }
            },
            Stmt::LetMut(x, expr) => {
                let val_expr = match self.try_eval_expr(expr, l) {
                    Some(v) => v,
                    None => {
                        return false;
                    },
                };
                self.store.insert_slot(x.clone(), Slot { value: Some(val_expr), lifetime: l });
                true
            },
            Stmt::Expr(expr) => self.try_eval_expr(expr, l).is_some(),
        }
    }
}

} // verus!
