use std::collections::HashMap;
use vstd::prelude::*;
use vstd::std_specs::hash::obeys_key_model;
use crate::model::{
    bound_existing, bound_innermost, defined_anywhere, innermost_value,
    lemma_defining_scope, lemma_defining_scope_prepend, lemma_lookup_push, lookup, popped, pushed,
    unbound_innermost,
};

verus! {

/// A stack of scopes. Each node holds the bindings of one scope and owns the
/// next, more deeply nested scope, if there is one.
#[derive(Debug, PartialEq)]
pub struct ScopedStack<K, V> where K: std::cmp::Eq + std::hash::Hash {
    values: HashMap<K, V>,
    child: Option<Box<ScopedStack<K, V>>>,
}

impl<K, V> ScopedStack<K, V> where K: std::cmp::Eq + std::hash::Hash {
    /// The scopes from this node down to the innermost one, outermost first.
    pub closed spec fn scopes(&self) -> Seq<Map<K, V>>
        decreases self,
    {
        match self.child {
            Some(c) => seq![self.values@] + c.scopes(),
            None => seq![self.values@],
        }
    }

    /// A chain holds at least one scope, this node's own first, and more
    /// than one exactly when this node has a child.
    proof fn lemma_scopes_nonempty(&self)
        ensures
            self@.len() >= 1,
            self@[0] == self.values@,
            self.child is None <==> self@.len() == 1,
        decreases self,
    {
        if let Some(c) = self.child {
            c.lemma_scopes_nonempty();
        }
    }

    /// Creates a stack with a single, empty scope.
    pub fn new() -> (r: Self)
        ensures
            r@ == seq![Map::<K, V>::empty()],
    {
        ScopedStack { values: HashMap::new(), child: None }
    }

    /// The bindings of this node's own scope, the outermost of its chain.
    pub fn values(&self) -> (r: &HashMap<K, V>)
        ensures
            r@ == self@[0],
    {
        proof {
            self.lemma_scopes_nonempty();
        }
        &self.values
    }

    /// The chain of scopes nested inside this node's own scope, if any.
    pub fn child(&self) -> (r: Option<&ScopedStack<K, V>>)
        ensures
            match r {
                Some(c) => self@ == seq![self@[0]] + c@,
                None => self@.len() == 1,
            },
    {
        proof {
            self.lemma_scopes_nonempty();
        }
        match &self.child {
            Some(c) => Some(&**c),
            None => None,
        }
    }

    /// Pushes a new, empty scope at the innermost end of the chain.
    pub fn push_scope(&mut self)
        ensures
            final(self)@ == pushed(old(self)@),
        decreases old(self)@.len(),
    {
        if let Some(child) = self.child.as_mut() {
            proof {
                child.lemma_scopes_nonempty();
            }
            child.push_scope();
            proof {
                assert(final(self)@ =~= pushed(old(self)@));
            }
        } else {
            self.child = Some(Box::new(ScopedStack::new()));
            assert(self@ =~= pushed(old(self)@));
        }
    }

    /// Drops the innermost scope with its bindings. The outermost scope is
    /// never dropped: on a chain of one scope this does nothing.
    pub fn pop_scope(&mut self)
        ensures
            final(self)@ == popped(old(self)@),
        decreases old(self)@.len(),
    {
        if let Some(child) = self.child.as_mut() {
            proof {
                child.lemma_scopes_nonempty();
            }
            if child.child.is_some() {
                child.pop_scope();
                proof {
                    assert(final(self)@ =~= popped(old(self)@));
                }
            } else {
                self.child = None;
                assert(self@ =~= popped(old(self)@));
            }
        }
    }

    /// Binds `key` to `value` in the innermost scope, shadowing any binding
    /// of `key` in the scopes around it.
    pub fn insert(&mut self, key: K, value: V)
        requires
            obeys_key_model::<K>(),
        ensures
            final(self)@ == bound_innermost(old(self)@, key, value),
        decreases old(self)@.len(),
    {
        if let Some(child) = self.child.as_mut() {
            proof {
                child.lemma_scopes_nonempty();
            }
            child.insert(key, value);
        } else {
            self.values.insert(key, value);
        }
    }

    /// Binds `key` to `value` in the innermost scope that already defines
    /// `key`, or in the outermost scope when no scope defines it.
    pub fn insert_existing(&mut self, key: K, value: V)
        requires
            obeys_key_model::<K>(),
        ensures
            final(self)@ == bound_existing(old(self)@, key, value),
        decreases old(self)@.len(),
    {
        if let Some(child) = self.child.as_mut() {
            proof {
                child.lemma_scopes_nonempty();
                lemma_defining_scope_prepend(self.values@, child@, key);
                lemma_defining_scope(child@, key);
                lemma_defining_scope(old(self)@, key);
            }
            if child.defines(&key) {
                child.insert_existing(key, value);
                proof {
                    assert(final(self)@ =~= bound_existing(old(self)@, key, value));
                }
            } else {
                self.values.insert(key, value);
                proof {
                    assert(final(self)@ =~= bound_existing(old(self)@, key, value));
                }
            }
        } else {
            self.values.insert(key, value);
            proof {
                lemma_defining_scope(old(self)@, key);
            }
            assert(self@ =~= bound_existing(old(self)@, key, value));
        }
    }

    /// Whether any scope of the chain binds `key`.
    fn defines(&self, key: &K) -> (r: bool)
        requires
            obeys_key_model::<K>(),
        ensures
            r == defined_anywhere(self@, *key),
        decreases self@.len(),
    {
        proof {
            self.lemma_scopes_nonempty();
        }
        if self.values.contains_key(key) {
            assert(self@[0].contains_key(*key));
            true
        } else if let Some(child) = self.child.as_ref() {
            proof {
                child.lemma_scopes_nonempty();
            }
            let r = child.defines(key);
            proof {
                if r {
                    let i = choose|i: int| 0 <= i < child@.len() && #[trigger] child@[i].contains_key(*key);
                    assert(self@[i + 1].contains_key(*key));
                }
                if defined_anywhere(self@, *key) {
                    let i = choose|i: int| 0 <= i < self@.len() && #[trigger] self@[i].contains_key(*key);
                    assert(child@[i - 1].contains_key(*key));
                }
            }
            r
        } else {
            false
        }
    }

    /// The value bound to `key` in the innermost scope that defines it.
    pub fn get(&self, key: &K) -> (r: Option<&V>)
        requires
            obeys_key_model::<K>(),
        ensures
            match r {
                Some(v) => lookup(self@, *key) == Some(*v),
                None => lookup(self@, *key) is None,
            },
    {
        let mut value = self.values.get(key);
        let mut child = self.child.as_ref();
        let ghost mut prefix = seq![self.values@];
        proof {
            self.lemma_scopes_nonempty();
            lemma_lookup_push(Seq::<Map<K, V>>::empty(), self.values@, *key);
            assert(Seq::<Map<K, V>>::empty().push(self.values@) =~= prefix);
        }
        loop
            invariant
                obeys_key_model::<K>(),
                match child {
                    Some(c) => self@ == prefix + c@,
                    None => self@ == prefix,
                },
                match value {
                    Some(v) => lookup(prefix, *key) == Some(*v),
                    None => lookup(prefix, *key) is None,
                },
            ensures
                self@ == prefix,
                match value {
                    Some(v) => lookup(prefix, *key) == Some(*v),
                    None => lookup(prefix, *key) is None,
                },
            decreases
                match child {
                    Some(c) => c@.len(),
                    None => 0,
                },
        {
            match child {
                Some(c) => {
                    proof {
                        c.lemma_scopes_nonempty();
                        lemma_lookup_push(prefix, c.values@, *key);
                    }
                    if let Some(v) = c.values.get(key) {
                        value = Some(v);
                    }
                    child = c.child.as_ref();
                    proof {
                        match &c.child {
                            Some(cc) => {
                                cc.lemma_scopes_nonempty();
                                assert(prefix + c@ =~= prefix.push(c.values@) + cc@);
                            },
                            None => {
                                assert(prefix + c@ =~= prefix.push(c.values@));
                            },
                        }
                        prefix = prefix.push(c.values@);
                    }
                },
                None => break,
            }
        }
        value
    }

    /// Whether the innermost scope itself binds `key`; the scopes around it
    /// are not consulted.
    pub fn has(&self, key: &K) -> (r: bool)
        requires
            obeys_key_model::<K>(),
        ensures
            r == self@.last().contains_key(*key),
        decreases self@.len(),
    {
        if let Some(child) = self.child.as_ref() {
            proof {
                child.lemma_scopes_nonempty();
            }
            child.has(key)
        } else {
            self.values.contains_key(key)
        }
    }

    /// Takes the binding of `key` out of the innermost scope and returns its
    /// value; the scopes around it are left as they are.
    pub fn remove(&mut self, key: &K) -> (r: Option<V>)
        requires
            obeys_key_model::<K>(),
        ensures
            r == innermost_value(old(self)@, *key),
            final(self)@ == unbound_innermost(old(self)@, *key),
        decreases old(self)@.len(),
    {
        if let Some(child) = self.child.as_mut() {
            proof {
                child.lemma_scopes_nonempty();
            }
            child.remove(key)
        } else {
            self.values.remove(key)
        }
    }
}

impl<K, V> Clone for ScopedStack<K, V> where
    K: std::cmp::Eq + std::hash::Hash + Clone,
    V: Clone,
 {
    /// Copies every scope of the chain with its bindings.
    fn clone(&self) -> (r: Self)
        ensures
            r@ == self@,
        decreases self@.len(),
    {
        proof {
            self.lemma_scopes_nonempty();
        }
        let child = match &self.child {
            Some(c) => {
                proof {
                    c.lemma_scopes_nonempty();
                }
                Some(Box::new((**c).clone()))
            },
            None => None,
        };
        ScopedStack { values: self.values.clone(), child }
    }
}

impl<K, V> View for ScopedStack<K, V> where K: std::cmp::Eq + std::hash::Hash {
    type V = Seq<Map<K, V>>;

    open spec fn view(&self) -> Seq<Map<K, V>> {
        self.scopes()
    }
}

} // verus!
