//! The mathematical model of a scope chain: a sequence of maps, outermost
//! scope first and innermost scope last.
use vstd::prelude::*;

verus! {

/// The value bound to `k` in the innermost scope of `s` that defines it.
pub open spec fn lookup<K, V>(s: Seq<Map<K, V>>, k: K) -> Option<V>
    decreases s.len(),
{
    if s.len() == 0 {
        None
    } else if s.last().contains_key(k) {
        Some(s.last()[k])
    } else {
        lookup(s.drop_last(), k)
    }
}

/// `s` with one more, empty, innermost scope.
pub open spec fn pushed<K, V>(s: Seq<Map<K, V>>) -> Seq<Map<K, V>> {
    s.push(Map::empty())
}

/// `s` without its innermost scope; a chain of one scope is left as it is.
pub open spec fn popped<K, V>(s: Seq<Map<K, V>>) -> Seq<Map<K, V>> {
    if s.len() > 1 {
        s.drop_last()
    } else {
        s
    }
}

/// `s` with `k` bound to `v` in its innermost scope.
pub open spec fn bound_innermost<K, V>(s: Seq<Map<K, V>>, k: K, v: V) -> Seq<Map<K, V>> {
    s.update(s.len() - 1, s.last().insert(k, v))
}

/// The value that the innermost scope of `s` itself binds to `k`.
pub open spec fn innermost_value<K, V>(s: Seq<Map<K, V>>, k: K) -> Option<V> {
    if s.last().contains_key(k) {
        Some(s.last()[k])
    } else {
        None
    }
}

/// `s` with the binding of `k` taken out of its innermost scope.
pub open spec fn unbound_innermost<K, V>(s: Seq<Map<K, V>>, k: K) -> Seq<Map<K, V>> {
    s.update(s.len() - 1, s.last().remove(k))
}

/// The index of the innermost scope of `s` that defines `k`, or of the
/// outermost scope when none does.
pub open spec fn defining_scope<K, V>(s: Seq<Map<K, V>>, k: K) -> int
    decreases s.len(),
{
    if s.len() <= 1 {
        0
    } else if s.last().contains_key(k) {
        s.len() - 1
    } else {
        defining_scope(s.drop_last(), k)
    }
}

/// Whether some scope of `s` defines `k`.
pub open spec fn defined_anywhere<K, V>(s: Seq<Map<K, V>>, k: K) -> bool {
    exists|i: int| 0 <= i < s.len() && #[trigger] s[i].contains_key(k)
}

/// The scope that `defining_scope` picks lies in the chain, defines `k`
/// when any scope does, and no scope nested inside it defines `k`.
pub proof fn lemma_defining_scope<K, V>(s: Seq<Map<K, V>>, k: K)
    requires
        s.len() >= 1,
    ensures
        0 <= defining_scope(s, k) < s.len(),
        defined_anywhere(s, k) ==> s[defining_scope(s, k)].contains_key(k),
        !defined_anywhere(s, k) ==> defining_scope(s, k) == 0,
        forall|j: int| defining_scope(s, k) < j < s.len() ==> !(#[trigger] s[j]).contains_key(k),
    decreases s.len(),
{
    if s.len() > 1 && !s.last().contains_key(k) {
        lemma_defining_scope(s.drop_last(), k);
        if defined_anywhere(s, k) {
            let i = choose|i: int| 0 <= i < s.len() && #[trigger] s[i].contains_key(k);
            assert(s.drop_last()[i].contains_key(k));
        }
        if defined_anywhere(s.drop_last(), k) {
            let i = choose|i: int| 0 <= i < s.drop_last().len() && #[trigger] s.drop_last()[i].contains_key(k);
            assert(s[i].contains_key(k));
        }
        assert forall|j: int| defining_scope(s, k) < j < s.len() implies !(#[trigger] s[j]).contains_key(k) by {
            if j < s.len() - 1 {
                assert(s.drop_last()[j] == s[j]);
            }
        }
    } else if s.len() == 1 && defined_anywhere(s, k) {
        let i = choose|i: int| 0 <= i < s.len() && #[trigger] s[i].contains_key(k);
        assert(i == 0);
    }
}

/// Prepending an outer scope `m` to a chain `t` shifts the scope that
/// `defining_scope` picks in `t` by one, or leaves the choice to `m` when
/// `t` does not define `k` at all.
pub proof fn lemma_defining_scope_prepend<K, V>(m: Map<K, V>, t: Seq<Map<K, V>>, k: K)
    requires
        t.len() >= 1,
    ensures
        defining_scope(seq![m] + t, k) == if defined_anywhere(t, k) {
            1 + defining_scope(t, k)
        } else {
            0
        },
    decreases t.len(),
{
    let s = seq![m] + t;
    assert(s.len() == t.len() + 1);
    assert(s.last() == t.last());
    if t.len() > 1 && !t.last().contains_key(k) {
        assert(s.drop_last() =~= seq![m] + t.drop_last());
        lemma_defining_scope_prepend(m, t.drop_last(), k);
        if defined_anywhere(t, k) {
            let i = choose|i: int| 0 <= i < t.len() && #[trigger] t[i].contains_key(k);
            assert(t.drop_last()[i].contains_key(k));
        }
        if defined_anywhere(t.drop_last(), k) {
            let i = choose|i: int| 0 <= i < t.drop_last().len() && #[trigger] t.drop_last()[i].contains_key(k);
            assert(t[i].contains_key(k));
        }
    } else if t.len() == 1 && !t.last().contains_key(k) {
        assert(s.drop_last() =~= seq![m]);
        assert(defining_scope(seq![m], k) == 0);
        if defined_anywhere(t, k) {
            let i = choose|i: int| 0 <= i < t.len() && #[trigger] t[i].contains_key(k);
            assert(t[0].contains_key(k));
        }
    } else {
        assert(t[t.len() - 1].contains_key(k));
    }
}

/// Looking a key up in a chain with one more innermost scope `m`: a
/// binding in `m` wins over all others.
pub proof fn lemma_lookup_push<K, V>(s: Seq<Map<K, V>>, m: Map<K, V>, k: K)
    ensures
        lookup(s.push(m), k) == if m.contains_key(k) {
            Some(m[k])
        } else {
            lookup(s, k)
        },
{
    assert(s.push(m).drop_last() =~= s);
}

/// `s` with `k` bound to `v` in the scope that `defining_scope` picks.
pub open spec fn bound_existing<K, V>(s: Seq<Map<K, V>>, k: K, v: V) -> Seq<Map<K, V>> {
    let t = defining_scope(s, k);
    s.update(t, s[t].insert(k, v))
}

} // verus!
