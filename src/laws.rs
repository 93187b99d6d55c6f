//! Laws of the scope chain, stated over the model that the operations of
//! `ScopedStack` are specified by.
use vstd::prelude::*;
use crate::model::{
    bound_existing, bound_innermost, defined_anywhere, defining_scope, innermost_value,
    lemma_defining_scope, lemma_lookup_push, lookup, popped, pushed, unbound_innermost,
};

verus! {

/// A key bound in scope `i`, and in no scope nested inside it, is looked up
/// as that binding.
pub proof fn lemma_lookup_innermost_binding<K, V>(s: Seq<Map<K, V>>, i: int, k: K)
    requires
        0 <= i < s.len(),
        s[i].contains_key(k),
        forall|j: int| i < j < s.len() ==> !(#[trigger] s[j]).contains_key(k),
    ensures
        lookup(s, k) == Some(s[i][k]),
    decreases s.len(),
{
    if i < s.len() - 1 {
        assert(!s[s.len() - 1].contains_key(k));
        lemma_lookup_push(s.drop_last(), s.last(), k);
        assert(s.drop_last().push(s.last()) =~= s);
        lemma_lookup_innermost_binding(s.drop_last(), i, k);
    }
}

/// Binding a key in the innermost scope makes the key visible with that
/// value, and defined by the innermost scope. This holds of every chain,
/// the single empty scope of a new stack among them.
pub proof fn lemma_insert_then_get<K, V>(s: Seq<Map<K, V>>, k: K, v: V)
    requires
        s.len() >= 1,
    ensures
        lookup(bound_innermost(s, k, v), k) == Some(v),
        bound_innermost(s, k, v).last().contains_key(k),
{
    let r = bound_innermost(s, k, v);
    lemma_lookup_innermost_binding(r, r.len() - 1, k);
}

/// A binding made in a pushed scope shadows the outer one, and popping that
/// scope brings the outer binding back.
pub proof fn lemma_shadowing<K, V>(s: Seq<Map<K, V>>, k: K, v1: V, v2: V)
    requires
        s.len() >= 1,
    ensures
        lookup(bound_innermost(pushed(bound_innermost(s, k, v1)), k, v2), k) == Some(v2),
        lookup(popped(bound_innermost(pushed(bound_innermost(s, k, v1)), k, v2)), k) == Some(v1),
{
    let s1 = bound_innermost(s, k, v1);
    let s3 = bound_innermost(pushed(s1), k, v2);
    lemma_insert_then_get(pushed(s1), k, v2);
    lemma_insert_then_get(s, k, v1);
    assert(popped(s3) =~= s1);
}

/// Popping a chain of a single scope leaves it as it is.
pub proof fn lemma_pop_single_scope<K, V>(s: Seq<Map<K, V>>)
    requires
        s.len() == 1,
    ensures
        popped(s) == s,
{
}

/// Removing a key touches the innermost scope alone: every outer scope keeps
/// its bindings.
pub proof fn lemma_remove_innermost_only<K, V>(s: Seq<Map<K, V>>, k: K)
    requires
        s.len() >= 1,
    ensures
        unbound_innermost(s, k).len() == s.len(),
        forall|i: int| 0 <= i < s.len() - 1 ==> #[trigger] unbound_innermost(s, k)[i] == s[i],
        !unbound_innermost(s, k).last().contains_key(k),
{
}

/// Removing a key that an inner scope shadows returns the inner value, and
/// once that scope is popped the outer binding is seen again.
pub proof fn lemma_remove_shadowing_binding<K, V>(s: Seq<Map<K, V>>, k: K, outer: V, inner: V)
    requires
        s.len() >= 1,
    ensures
        innermost_value(bound_innermost(pushed(bound_innermost(s, k, outer)), k, inner), k) == Some(
            inner,
        ),
        lookup(
            popped(unbound_innermost(bound_innermost(pushed(bound_innermost(s, k, outer)), k, inner), k)),
            k,
        ) == Some(outer),
{
    let s1 = bound_innermost(s, k, outer);
    let s3 = bound_innermost(pushed(s1), k, inner);
    assert(popped(unbound_innermost(s3, k)) =~= s1);
    lemma_insert_then_get(s, k, outer);
}

/// Where some scope defines the key, `insert_existing` rebinds it in the
/// innermost such scope, and the key is then seen with the new value.
pub proof fn lemma_insert_existing_most_nested<K, V>(s: Seq<Map<K, V>>, k: K, v: V)
    requires
        s.len() >= 1,
        defined_anywhere(s, k),
    ensures
        0 <= defining_scope(s, k) < s.len(),
        s[defining_scope(s, k)].contains_key(k),
        forall|j: int| defining_scope(s, k) < j < s.len() ==> !(#[trigger] s[j]).contains_key(k),
        bound_existing(s, k, v) == s.update(
            defining_scope(s, k),
            s[defining_scope(s, k)].insert(k, v),
        ),
        lookup(bound_existing(s, k, v), k) == Some(v),
{
    lemma_defining_scope(s, k);
    let t = defining_scope(s, k);
    let r = bound_existing(s, k, v);
    assert forall|j: int| t < j < r.len() implies !(#[trigger] r[j]).contains_key(k) by {
        assert(r[j] == s[j]);
    }
    lemma_lookup_innermost_binding(r, t, k);
}

/// Rebinding, from a freshly pushed scope, a key of the scope around it
/// updates that outer scope itself: once the pushed scope is popped, the
/// chain is the one that binding the key in the outer scope gives.
pub proof fn lemma_insert_existing_updates_outer<K, V>(s: Seq<Map<K, V>>, k: K, old_v: V, new_v: V)
    requires
        s.len() >= 1,
    ensures
        popped(bound_existing(pushed(bound_innermost(s, k, old_v)), k, new_v)) == bound_innermost(
            s,
            k,
            new_v,
        ),
        lookup(popped(bound_existing(pushed(bound_innermost(s, k, old_v)), k, new_v)), k) == Some(
            new_v,
        ),
{
    let s1 = bound_innermost(s, k, old_v);
    let s2 = pushed(s1);
    assert(s2[s2.len() - 2].contains_key(k));
    lemma_insert_existing_most_nested(s2, k, new_v);
    lemma_defining_scope(s2, k);
    assert(defining_scope(s2, k) == s2.len() - 2);
    assert(s.last().insert(k, old_v).insert(k, new_v) =~= s.last().insert(k, new_v));
    assert(popped(bound_existing(s2, k, new_v)) =~= bound_innermost(s, k, new_v));
    lemma_insert_then_get(s, k, new_v);
}

/// Where no scope defines the key, `insert_existing` binds it in the
/// outermost scope.
pub proof fn lemma_insert_existing_undefined<K, V>(s: Seq<Map<K, V>>, k: K, v: V)
    requires
        s.len() >= 1,
        !defined_anywhere(s, k),
    ensures
        bound_existing(s, k, v) == s.update(0, s[0].insert(k, v)),
{
    lemma_defining_scope(s, k);
}

/// Pushing a scope and popping it at once gives back the chain unchanged.
pub proof fn lemma_push_pop_round_trip<K, V>(s: Seq<Map<K, V>>)
    requires
        s.len() >= 1,
    ensures
        popped(pushed(s)) == s,
{
    assert(popped(pushed(s)) =~= s);
}

} // verus!
