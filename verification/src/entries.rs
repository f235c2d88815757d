//! Association lists keyed by names: the mathematical model of environments
//! and stores, in which a name is looked up at its first entry.
use vstd::prelude::*;

verus! {

/// The index of the first entry named `x` at or after `i`.
pub open spec fn find_from<V>(env: Seq<(Seq<char>, V)>, x: Seq<char>, i: int) -> Option<int>
    decreases env.len() - i,
{
    if i < 0 || i >= env.len() {
        None
    } else if env[i].0 == x {
        Some(i)
    } else {
        find_from(env, x, i + 1)
    }
}

/// The value bound to name `x`, if any: that of its first entry.
pub open spec fn lookup<V>(env: Seq<(Seq<char>, V)>, x: Seq<char>) -> Option<V> {
    match find_from(env, x, 0) {
        Some(i) => Some(env[i].1),
        None => None,
    }
}

/// Binds `x` to `s`, replacing an existing binding of `x` in place.
pub open spec fn insert_entry<V>(env: Seq<(Seq<char>, V)>, x: Seq<char>, s: V) -> Seq<(Seq<char>, V)> {
    match find_from(env, x, 0) {
        Some(i) => env.update(i, (x, s)),
        None => env.push((x, s)),
    }
}

pub proof fn lemma_find_from<V>(env: Seq<(Seq<char>, V)>, x: Seq<char>, i: int)
    requires
        0 <= i,
    ensures
        find_from(env, x, i) matches Some(j) ==> i <= j < env.len() && env[j].0 == x && 0 <= j,
        find_from(env, x, i) is None ==> forall|j: int| i <= j < env.len() && 0 <= j ==> env[j].0 != x,
    decreases env.len() - i,
{
    if i < 0 || i >= env.len() {
    } else if env[i].0 == x {
    } else {
        lemma_find_from(env, x, i + 1);
    }
}

/// Finding a name is not disturbed by changes at or after the entry found, nor
/// by changes of entries named otherwise.
pub proof fn lemma_find_from_update<V>(env: Seq<(Seq<char>, V)>, x: Seq<char>, k: int, e: (Seq<char>, V), i: int)
    requires
        0 <= k < env.len(),
        0 <= i,
        (env[k].0 == x) == (e.0 == x),
    ensures
        find_from(env.update(k, e), x, i) == find_from(env, x, i),
    decreases env.len() - i,
{
    if i >= env.len() {
    } else if env[i].0 == x {
        if i == k {
        }
    } else {
        lemma_find_from_update(env, x, k, e, i + 1);
    }
}

pub proof fn lemma_find_from_push<V>(env: Seq<(Seq<char>, V)>, x: Seq<char>, e: (Seq<char>, V), i: int)
    requires
        0 <= i,
        find_from(env, x, i) is Some || e.0 != x,
    ensures
        find_from(env.push(e), x, i) == find_from(env, x, i),
    decreases env.len() - i,
{
    if i >= env.len() {
        if i == env.len() {
        }
    } else if env[i].0 == x {
    } else {
        lemma_find_from_push(env, x, e, i + 1);
    }
}

/// Inserting `x` binds `x` to the new value, and leaves every other name as it was.
pub proof fn lemma_insert_lookup<V>(env: Seq<(Seq<char>, V)>, x: Seq<char>, s: V, y: Seq<char>)
    ensures
        lookup(insert_entry(env, x, s), y) == (if y == x {
            Some(s)
        } else {
            lookup(env, y)
        }),
{
    lemma_find_from(env, x, 0);
    lemma_find_from(env, y, 0);
    match find_from(env, x, 0) {
        Some(i) => {
            lemma_find_from_update(env, y, i, (x, s), 0);
            if y == x {
            } else {
                lemma_find_from(env.update(i, (x, s)), y, 0);
            }
        },
        None => {
            if y == x {
                lemma_find_from_none_push(env, x, s);
            } else {
                lemma_find_from_push(env, y, (x, s), 0);
                lemma_find_from(env.push((x, s)), y, 0);
            }
        },
    }
}

/// No two entries share a name.
pub open spec fn names_unique<V>(env: Seq<(Seq<char>, V)>) -> bool {
    forall|i: int, j: int| 0 <= i < j < env.len() ==> #[trigger] env[i].0 != #[trigger] env[j].0
}

/// With unique names, the entry of a name is the one that is looked up.
pub proof fn lemma_lookup_unique<V>(env: Seq<(Seq<char>, V)>, i: int)
    requires
        names_unique(env),
        0 <= i < env.len(),
    ensures
        lookup(env, env[i].0) == Some(env[i].1),
{
    lemma_find_from(env, env[i].0, 0);
    if let Some(j) = find_from(env, env[i].0, 0) {
        if j != i {
            if j < i {
                assert(env[j].0 != env[i].0);
            } else {
                assert(env[i].0 != env[j].0);
            }
        }
    }
}

/// Looking up in an extended list: an earlier entry wins.
pub proof fn lemma_lookup_push<V>(env: Seq<(Seq<char>, V)>, e: (Seq<char>, V), x: Seq<char>)
    ensures
        lookup(env.push(e), x) == (if lookup(env, x) is Some {
            lookup(env, x)
        } else if e.0 == x {
            Some(e.1)
        } else {
            None::<V>
        }),
{
    lemma_find_from(env, x, 0);
    if find_from(env, x, 0) is Some || e.0 != x {
        lemma_find_from_push(env, x, e, 0);
        assert(find_from(env.push(e), x, 0) == find_from(env, x, 0));
        if let Some(i) = find_from(env, x, 0) {
            assert(env.push(e)[i] == env[i]);
        }
    } else {
        lemma_find_from_none_push(env, x, e.1);
        assert(e == (x, e.1));
    }
}

/// Inserting keeps names unique.
pub proof fn lemma_insert_unique<V>(env: Seq<(Seq<char>, V)>, x: Seq<char>, s: V)
    requires
        names_unique(env),
    ensures
        names_unique(insert_entry(env, x, s)),
{
    lemma_find_from(env, x, 0);
    let r = insert_entry(env, x, s);
    match find_from(env, x, 0) {
        Some(k) => {
            assert forall|i: int, j: int| 0 <= i < j < r.len() implies #[trigger] r[i].0 != #[trigger] r[j].0 by {
                assert(env[i].0 != env[j].0);
            }
        },
        None => {
            assert forall|i: int, j: int| 0 <= i < j < r.len() implies #[trigger] r[i].0 != #[trigger] r[j].0 by {
                if j < env.len() {
                    assert(env[i].0 != env[j].0);
                }
            }
        },
    }
}

/// Two lists bind every name alike: they stand for the same map, whatever the
/// order of their entries.
pub open spec fn same_bindings<V>(a: Seq<(Seq<char>, V)>, b: Seq<(Seq<char>, V)>) -> bool {
    forall|x: Seq<char>| #[trigger] lookup(a, x) == lookup(b, x)
}

/// Each name of `a` is bound in `b` as in `a`.
pub open spec fn covered_by<V>(a: Seq<(Seq<char>, V)>, b: Seq<(Seq<char>, V)>) -> bool {
    forall|i: int| 0 <= i < a.len() ==> lookup(b, #[trigger] a[i].0) == lookup(a, a[i].0)
}

/// Two lists bind every name alike exactly when each covers the other.
pub proof fn lemma_same_bindings<V>(a: Seq<(Seq<char>, V)>, b: Seq<(Seq<char>, V)>)
    ensures
        same_bindings(a, b) <==> (covered_by(a, b) && covered_by(b, a)),
{
    if covered_by(a, b) && covered_by(b, a) {
        assert forall|x: Seq<char>| #[trigger] lookup(a, x) == lookup(b, x) by {
            lemma_find_from(a, x, 0);
            lemma_find_from(b, x, 0);
            if let Some(i) = find_from(a, x, 0) {
                assert(lookup(b, a[i].0) == lookup(a, a[i].0));
            } else if let Some(j) = find_from(b, x, 0) {
                assert(lookup(a, b[j].0) == lookup(b, b[j].0));
            }
        }
    }
    if same_bindings(a, b) {
        assert forall|i: int| 0 <= i < a.len() implies lookup(b, #[trigger] a[i].0) == lookup(a, a[i].0) by {
            assert(lookup(a, a[i].0) == lookup(b, a[i].0));
        }
        assert forall|i: int| 0 <= i < b.len() implies lookup(a, #[trigger] b[i].0) == lookup(b, b[i].0) by {
            assert(lookup(a, b[i].0) == lookup(b, b[i].0));
        }
    }
}

proof fn lemma_find_from_none_push<V>(env: Seq<(Seq<char>, V)>, x: Seq<char>, s: V)
    requires
        find_from(env, x, 0) is None,
    ensures
        find_from(env.push((x, s)), x, 0) == Some(env.len() as int),
{
    lemma_find_from(env, x, 0);
    lemma_find_from_none_push_from(env, x, s, 0);
}

proof fn lemma_find_from_none_push_from<V>(env: Seq<(Seq<char>, V)>, x: Seq<char>, s: V, i: int)
    requires
        0 <= i <= env.len(),
        forall|j: int| i <= j < env.len() ==> env[j].0 != x,
    ensures
        find_from(env.push((x, s)), x, i) == Some(env.len() as int),
    decreases env.len() - i,
{
    if i < env.len() {
        lemma_find_from_none_push_from(env, x, s, i + 1);
    }
}


} // verus!
