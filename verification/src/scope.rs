//! One layer of the variable stack: a mapping from names to values plus a
//! flag marking the layer as a namespace boundary.

use vstd::prelude::*;
use crate::text::str_eq;
use crate::value::{var_view, VarView, VariableType};

verus! {

/// A scope: its variables and whether it is a namespace boundary, that is
/// whether unqualified lookups that cross it on the way outward are stopped.
pub struct Scope {
    pub vars: Vec<(String, VariableType)>,
    pub namespace: bool,
}

/// The view of a scope: the mapping it stands for, and the boundary flag.
pub struct ScopeView {
    pub vars: Map<Seq<char>, VarView>,
    pub namespace: bool,
}

/// No two entries share a key.
pub open spec fn uniq_keys(s: Seq<(String, VariableType)>) -> bool {
    forall|i: int, j: int| 0 <= i < j < s.len() ==> (#[trigger] s[i]).0@ != (#[trigger] s[j]).0@
}

/// The mapping an entry list stands for.
pub open spec fn alist_map(s: Seq<(String, VariableType)>) -> Map<Seq<char>, VarView>
    decreases s,
{
    if s.len() == 0 {
        Map::empty()
    } else {
        alist_map(s.drop_last()).insert(s.last().0@, var_view(s.last().1))
    }
}

impl View for Scope {
    type V = ScopeView;

    open spec fn view(&self) -> ScopeView {
        ScopeView { vars: alist_map(self.vars@), namespace: self.namespace }
    }
}

/// The mapping contains exactly the listed keys, each at its listed value.
pub proof fn lemma_alist_lookup(s: Seq<(String, VariableType)>, k: Seq<char>)
    requires
        uniq_keys(s),
    ensures
        alist_map(s).contains_key(k) <==> exists|i: int|
            0 <= i < s.len() && (#[trigger] s[i]).0@ == k,
        forall|i: int|
            0 <= i < s.len() && (#[trigger] s[i]).0@ == k ==> alist_map(s)[k] == var_view(s[i].1),
    decreases s.len(),
{
    if s.len() > 0 {
        let d = s.drop_last();
        assert(uniq_keys(d)) by {
            assert(forall|i: int, j: int|
                0 <= i < j < d.len() ==> #[trigger] d[i] == s[i] && #[trigger] d[j] == s[j]);
        }
        lemma_alist_lookup(d, k);
        if s.last().0@ == k {
            assert(s[s.len() - 1].0@ == k);
        } else {
            assert(forall|i: int|
                0 <= i < d.len() && (#[trigger] s[i]).0@ == k ==> d[i] == s[i]
                    && alist_map(d)[k] == var_view(s[i].1));
            if exists|i: int| 0 <= i < s.len() && (#[trigger] s[i]).0@ == k {
                let i = choose|i: int| 0 <= i < s.len() && (#[trigger] s[i]).0@ == k;
                assert(d[i] == s[i]);
            }
        }
    }
}

/// Overwriting the entry that holds key `k` updates the mapping at `k`.
pub proof fn lemma_alist_update(s: Seq<(String, VariableType)>, i: int, key: String, v: VariableType)
    requires
        uniq_keys(s),
        0 <= i < s.len(),
        s[i].0@ == key@,
    ensures
        alist_map(s.update(i, (key, v))) =~= alist_map(s).insert(key@, var_view(v)),
        uniq_keys(s.update(i, (key, v))),
    decreases s.len(),
{
    let s2 = s.update(i, (key, v));
    assert(uniq_keys(s2)) by {
        assert(forall|a: int|
            0 <= a < s.len() && a != i ==> (#[trigger] s2[a]).0@ == s[a].0@);
    }
    if i == s.len() - 1 {
        assert(s2.drop_last() =~= s.drop_last());
        assert(s2.last() == (key, v));
    } else {
        let d = s.drop_last();
        assert(uniq_keys(d)) by {
            assert(forall|a: int, b: int|
                0 <= a < b < d.len() ==> #[trigger] d[a] == s[a] && #[trigger] d[b] == s[b]);
        }
        assert(d[i] == s[i]);
        lemma_alist_update(d, i, key, v);
        assert(s2.drop_last() =~= d.update(i, (key, v)));
        assert(s2.last() == s.last());
        // the overwritten key differs from the last entry's key
        assert(s[i].0@ != s.last().0@);
    }
}

/// Removing the entry that holds key `k` removes `k` from the mapping.
pub proof fn lemma_alist_remove(s: Seq<(String, VariableType)>, i: int)
    requires
        uniq_keys(s),
        0 <= i < s.len(),
    ensures
        alist_map(s.remove(i)) =~= alist_map(s).remove(s[i].0@),
        uniq_keys(s.remove(i)),
    decreases s.len(),
{
    let k = s[i].0@;
    let s2 = s.remove(i);
    s.remove_ensures(i);
    assert(uniq_keys(s2)) by {
        assert(forall|a: int, b: int|
            0 <= a < b < s2.len() ==> (#[trigger] s2[a]).0@ != (#[trigger] s2[b]).0@) by {
            assert(forall|a: int| 0 <= a < i ==> #[trigger] s2[a] == s[a]);
            assert(forall|a: int| i <= a < s2.len() ==> #[trigger] s2[a] == s[a + 1]);
        }
    }
    if i == s.len() - 1 {
        assert(s2 =~= s.drop_last());
        let d = s.drop_last();
        assert(uniq_keys(d)) by {
            assert(forall|a: int, b: int|
                0 <= a < b < d.len() ==> #[trigger] d[a] == s[a] && #[trigger] d[b] == s[b]);
        }
        lemma_alist_lookup(d, k);
        assert(forall|a: int| 0 <= a < d.len() ==> (#[trigger] d[a]).0@ != k);
        assert(!alist_map(d).contains_key(k));
    } else {
        let d = s.drop_last();
        assert(uniq_keys(d)) by {
            assert(forall|a: int, b: int|
                0 <= a < b < d.len() ==> #[trigger] d[a] == s[a] && #[trigger] d[b] == s[b]);
        }
        assert(d[i] == s[i]);
        lemma_alist_remove(d, i);
        assert(s2.drop_last() =~= d.remove(i));
        assert(s2.last() == s.last());
        assert(s[i].0@ != s.last().0@);
    }
}

impl Scope {
    /// A scope keeps its keys unique.
    pub open spec fn wf(&self) -> bool {
        uniq_keys(self.vars@)
    }

    /// A fresh, empty scope.
    pub fn new(namespace: bool) -> (r: Scope)
        ensures
            r.wf(),
            r@.vars =~= Map::<Seq<char>, VarView>::empty(),
            r@.namespace == namespace,
    {
        Scope { vars: Vec::new(), namespace }
    }

    /// The index of the entry holding `name`, if any.
    #[verifier::loop_isolation(false)]
    fn find_idx(&self, name: &str) -> (r: Option<usize>)
        requires
            self.wf(),
        ensures
            match r {
                Some(i) => i < self.vars@.len() && self.vars@[i as int].0@ == name@,
                None => forall|i: int|
                    0 <= i < self.vars@.len() ==> (#[trigger] self.vars@[i]).0@ != name@,
            },
    {
        let mut i: usize = 0;
        while i < self.vars.len()
            invariant
                0 <= i <= self.vars@.len(),
                forall|j: int| 0 <= j < i ==> (#[trigger] self.vars@[j]).0@ != name@,
            decreases self.vars@.len() - i,
        {
            if str_eq(self.vars[i].0.as_str(), name) {
                return Some(i);
            }
            i += 1;
        }
        None
    }

    /// Whether the scope binds `name`.
    pub fn contains(&self, name: &str) -> (r: bool)
        requires
            self.wf(),
        ensures
            r == self@.vars.contains_key(name@),
    {
        proof {
            lemma_alist_lookup(self.vars@, name@);
        }
        self.find_idx(name).is_some()
    }

    /// A borrow of the value bound to `name`, if any.
    pub fn get(&self, name: &str) -> (r: Option<&VariableType>)
        requires
            self.wf(),
        ensures
            r is Some <==> self@.vars.contains_key(name@),
            r matches Some(v) ==> var_view(*v) == self@.vars[name@],
    {
        proof {
            lemma_alist_lookup(self.vars@, name@);
        }
        match self.find_idx(name) {
            Some(i) => Some(&self.vars[i].1),
            None => None,
        }
    }

    /// Binds `name` to `value`, replacing and returning any previous binding.
    pub fn insert(&mut self, name: String, value: VariableType) -> (r: Option<VariableType>)
        requires
            old(self).wf(),
        ensures
            final(self).wf(),
            final(self)@.vars =~= old(self)@.vars.insert(name@, var_view(value)),
            final(self)@.namespace == old(self)@.namespace,
            r is Some <==> old(self)@.vars.contains_key(name@),
            r matches Some(v) ==> var_view(v) == old(self)@.vars[name@],
    {
        proof {
            lemma_alist_lookup(self.vars@, name@);
        }
        match self.find_idx(&name) {
            Some(i) => {
                proof {
                    lemma_alist_update(self.vars@, i as int, name, value);
                }
                let old_pair = self.vars.remove(i);
                self.vars.insert(i, (name, value));
                proof {
                    assert(self.vars@ =~= old(self).vars@.update(i as int, (name, value)));
                }
                Some(old_pair.1)
            },
            None => {
                self.vars.push((name, value));
                proof {
                    assert(self.vars@.drop_last() =~= old(self).vars@);
                    assert(forall|i: int|
                        0 <= i < old(self).vars@.len() ==> #[trigger] self.vars@[i] == old(
                            self,
                        ).vars@[i]);
                }
                None
            },
        }
    }

    /// Deletes the binding of `name`, returning it if it existed.
    pub fn remove(&mut self, name: &str) -> (r: Option<VariableType>)
        requires
            old(self).wf(),
        ensures
            final(self).wf(),
            final(self)@.vars =~= old(self)@.vars.remove(name@),
            final(self)@.namespace == old(self)@.namespace,
            r is Some <==> old(self)@.vars.contains_key(name@),
            r matches Some(v) ==> var_view(v) == old(self)@.vars[name@],
    {
        proof {
            lemma_alist_lookup(self.vars@, name@);
        }
        match self.find_idx(name) {
            Some(i) => {
                proof {
                    lemma_alist_remove(self.vars@, i as int);
                }
                let pair = self.vars.remove(i);
                Some(pair.1)
            },
            None => {
                proof {
                    assert(old(self)@.vars.remove(name@) =~= old(self)@.vars);
                }
                None
            },
        }
    }
}

} // verus!
