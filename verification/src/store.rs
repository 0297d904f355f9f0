//! The variable store: an ordered stack of scopes with qualified and
//! unqualified lookup, shadowing, assignment, and a snapshot of the process
//! environment taken at construction.

use vstd::prelude::*;
use vstd::string::{StrSliceExecFns, StringExecFns};
use crate::scope::{Scope, ScopeView};
use crate::text::{has_prefix, starts_with_str, str_eq, u64_to_dec, dec_of};
use crate::value::{empty_like, is_empty_value, same_kind, same_kind_exec, var_view, VarView, VariableType};

verus! {

/// The variable store.
pub struct Variables {
    pub flags: u8,
    pub scopes: Vec<Scope>,
    pub env: Scope,
    pub root: bool,
}

/// The view of the store: the stack of scope mappings from the globals
/// upward, the environment snapshot, and the process facts it was built with.
pub struct StoreView {
    pub scopes: Seq<ScopeView>,
    pub env: Map<Seq<char>, Seq<char>>,
    pub plugins: bool,
    pub root: bool,
}

/// The text of a string view; the empty sequence for any other kind.
pub open spec fn str_of(v: VarView) -> Seq<char> {
    match v {
        VarView::Str(s) => s,
        _ => Seq::empty(),
    }
}

pub const PLUGIN: u8 = 1;

impl View for Variables {
    type V = StoreView;

    open spec fn view(&self) -> StoreView {
        StoreView {
            scopes: Seq::new(self.scopes@.len(), |i: int| self.scopes@[i]@),
            env: Map::new(
                |k: Seq<char>| self.env@.vars.contains_key(k),
                |k: Seq<char>| str_of(self.env@.vars[k]),
            ),
            plugins: self.flags & PLUGIN == PLUGIN,
            root: self.root,
        }
    }
}

/// The number of leading `super::` qualifiers. The length conjunct lets the
/// recursion see that each step consumes characters.
pub open spec fn count_supers(name: Seq<char>) -> nat
    decreases name.len(),
{
    if has_prefix(name, "super::"@) && "super::"@.len() > 0 {
        1 + count_supers(name.skip("super::"@.len() as int))
    } else {
        0
    }
}

/// The name with every leading `super::` qualifier removed.
pub open spec fn strip_supers(name: Seq<char>) -> Seq<char>
    decreases name.len(),
{
    if has_prefix(name, "super::"@) && "super::"@.len() > 0 {
        strip_supers(name.skip("super::"@.len() as int))
    } else {
        name
    }
}

/// How many of the scopes are namespace boundaries.
pub open spec fn boundary_count(scopes: Seq<ScopeView>) -> int
    decreases scopes.len(),
{
    if scopes.len() == 0 {
        0
    } else {
        boundary_count(scopes.drop_last()) + if scopes.last().namespace {
            1int
        } else {
            0int
        }
    }
}

/// The name searched for once qualifiers are stripped: after `global::` the
/// rest of the name, otherwise the name behind its `super::` qualifiers.
pub open spec fn base_name(name: Seq<char>) -> Seq<char> {
    if has_prefix(name, "global::"@) {
        name.skip("global::"@.len() as int)
    } else {
        strip_supers(name)
    }
}

/// The climb count a name starts with: `global::` reaches past every
/// boundary, each `super::` past one.
pub open spec fn climb_count(scopes: Seq<ScopeView>, name: Seq<char>) -> int {
    if has_prefix(name, "global::"@) {
        boundary_count(scopes)
    } else {
        count_supers(name) as int
    }
}

/// Resolution of `name` walking outward from scope `i`, carrying the climb
/// count `up`: a function binding is returned from any scope; another kind
/// only once the climb count is exactly zero; crossing a namespace boundary
/// decrements the count, so a count driven below zero by an unqualified
/// lookup blocks every later non-function match.
pub open spec fn resolve_from(
    scopes: Seq<ScopeView>,
    i: int,
    name: Seq<char>,
    up: int,
) -> Option<VarView>
    decreases i + 1,
{
    if i < 0 || i >= scopes.len() {
        None
    } else {
        let sc = scopes[i];
        if sc.vars.contains_key(name) && (sc.vars[name] is Function || up == 0) {
            Some(sc.vars[name])
        } else {
            resolve_from(
                scopes,
                i - 1,
                name,
                if sc.namespace {
                    up - 1
                } else {
                    up
                },
            )
        }
    }
}

/// What an unqualified or qualified lookup of `name` returns over the stack.
pub open spec fn resolve(scopes: Seq<ScopeView>, name: Seq<char>) -> Option<VarView> {
    resolve_from(scopes, scopes.len() - 1, base_name(name), climb_count(scopes, name))
}

/// The scope a mutating lookup of `name` would target: the first scope from
/// the top that binds the name, stopping after the first namespace boundary.
pub open spec fn mut_idx_from(scopes: Seq<ScopeView>, i: int, name: Seq<char>) -> Option<int>
    decreases i + 1,
{
    if i < 0 || i >= scopes.len() {
        None
    } else if scopes[i].vars.contains_key(name) {
        Some(i)
    } else if scopes[i].namespace {
        None
    } else {
        mut_idx_from(scopes, i - 1, name)
    }
}

/// The target of a mutating lookup: qualified names are refused, outer
/// namespaces being read-only.
pub open spec fn mut_lookup(scopes: Seq<ScopeView>, name: Seq<char>) -> Option<int> {
    if has_prefix(name, "super::"@) || has_prefix(name, "global::"@) {
        None
    } else {
        mut_idx_from(scopes, scopes.len() - 1, name)
    }
}

impl Variables {
    /// The stack is never empty, the scope of the initial globals is not a
    /// boundary, every scope keeps its keys unique, and the environment
    /// snapshot holds plain strings.
    pub open spec fn wf(&self) -> bool {
        &&& self.scopes@.len() >= 1
        &&& !self.scopes@[0].namespace
        &&& forall|i: int| 0 <= i < self.scopes@.len() ==> (#[trigger] self.scopes@[i]).wf()
        &&& self.env.wf()
        &&& forall|k: Seq<char>|
            self.env@.vars.contains_key(k) ==> (#[trigger] self.env@.vars[k]) is Str
    }

    /// Pushes a fresh scope, a namespace boundary when `namespace` is set.
    pub fn new_scope(&mut self, namespace: bool)
        requires
            old(self).wf(),
        ensures
            final(self).wf(),
            final(self)@.scopes == old(self)@.scopes.push(
                ScopeView { vars: Map::empty(), namespace },
            ),
            final(self)@.env == old(self)@.env,
            final(self)@.plugins == old(self)@.plugins,
            final(self)@.root == old(self)@.root,
    {
        self.scopes.push(Scope::new(namespace));
        proof {
            assert(final(self)@.scopes =~= old(self)@.scopes.push(
                ScopeView { vars: Map::empty(), namespace },
            ));
            assert(final(self)@.env =~= old(self)@.env);
        }
    }

    /// Pops the top scope; the initial globals are never popped.
    pub fn pop_scope(&mut self)
        requires
            old(self).wf(),
            old(self)@.scopes.len() > 1,
        ensures
            final(self).wf(),
            final(self)@.scopes == old(self)@.scopes.drop_last(),
            final(self)@.env == old(self)@.env,
            final(self)@.plugins == old(self)@.plugins,
            final(self)@.root == old(self)@.root,
    {
        let _ = self.scopes.pop();
        proof {
            assert(final(self)@.scopes =~= old(self)@.scopes.drop_last());
            assert(final(self)@.env =~= old(self)@.env);
        }
    }

    /// Drains every scope strictly above `index` and yields them, outermost
    /// first, so a saved frame can be reinstated later.
    pub fn pop_scopes(&mut self, index: usize) -> (r: Vec<Scope>)
        requires
            old(self).wf(),
            index < old(self)@.scopes.len(),
        ensures
            final(self).wf(),
            final(self)@.scopes == old(self)@.scopes.subrange(0, index + 1),
            r@.len() == old(self)@.scopes.len() - index - 1,
            forall|i: int| 0 <= i < r@.len() ==> (#[trigger] r@[i])@ == old(self)@.scopes[index + 1 + i],
            forall|i: int| 0 <= i < r@.len() ==> (#[trigger] r@[i]).wf(),
            final(self)@.env == old(self)@.env,
            final(self)@.plugins == old(self)@.plugins,
            final(self)@.root == old(self)@.root,
    {
        let n = self.scopes.len();
        assert(index < n);
        let r = self.scopes.split_off(index + 1);
        proof {
            assert(final(self)@.scopes =~= old(self)@.scopes.subrange(0, index + 1));
            assert(final(self)@.env =~= old(self)@.env);
        }
        r
    }

    /// Reinstates scopes previously drained by `pop_scopes`, innermost last.
    pub fn append_scopes(&mut self, scopes: Vec<Scope>)
        requires
            old(self).wf(),
            forall|i: int| 0 <= i < scopes@.len() ==> (#[trigger] scopes@[i]).wf(),
        ensures
            final(self).wf(),
            final(self)@.scopes.len() == old(self)@.scopes.len() + scopes@.len(),
            final(self)@.scopes == old(self)@.scopes + Seq::new(
                scopes@.len(),
                |i: int| scopes@[i]@,
            ),
            final(self)@.env == old(self)@.env,
            final(self)@.plugins == old(self)@.plugins,
            final(self)@.root == old(self)@.root,
    {
        let ghost orig = scopes@;
        let mut incoming = scopes;
        self.scopes.append(&mut incoming);
        proof {
            assert(final(self)@.scopes =~= old(self)@.scopes + Seq::new(
                orig.len(),
                |i: int| orig[i]@,
            ));
            assert(final(self)@.env =~= old(self)@.env);
        }
    }

    /// Writes `value` into the current scope under `name`, hiding without
    /// deleting any outer binding, and returns what the current scope held.
    pub fn shadow(&mut self, name: String, value: VariableType) -> (r: Option<VariableType>)
        requires
            old(self).wf(),
        ensures
            final(self).wf(),
            final(self)@.scopes == old(self)@.scopes.update(
                old(self)@.scopes.len() - 1,
                ScopeView {
                    vars: old(self)@.scopes.last().vars.insert(name@, var_view(value)),
                    namespace: old(self)@.scopes.last().namespace,
                },
            ),
            r is Some <==> old(self)@.scopes.last().vars.contains_key(name@),
            r matches Some(v) ==> var_view(v) == old(self)@.scopes.last().vars[name@],
            final(self)@.env == old(self)@.env,
            final(self)@.plugins == old(self)@.plugins,
            final(self)@.root == old(self)@.root,
    {
        let top = self.scopes.len() - 1;
        let mut sc = self.scopes.remove(top);
        let r = sc.insert(name, value);
        self.scopes.insert(top, sc);
        proof {
            assert(final(self)@.scopes =~= old(self)@.scopes.update(
                old(self)@.scopes.len() - 1,
                ScopeView {
                    vars: old(self)@.scopes.last().vars.insert(name@, var_view(value)),
                    namespace: old(self)@.scopes.last().namespace,
                },
            ));
            assert(final(self)@.env =~= old(self)@.env);
        }
        r
    }

    /// Resolves `name` to a borrowed value: strips a `global::` or repeated
    /// `super::` qualifiers into a climb count, then searches from the
    /// current scope outward under the resolution rules.
    #[verifier::loop_isolation(false)]
    pub fn get_ref(&self, name: &str) -> (r: Option<&VariableType>)
        requires
            self.wf(),
        ensures
            r is Some <==> resolve(self@.scopes, name@) is Some,
            r matches Some(v) ==> resolve(self@.scopes, name@) == Some(var_view(*v)),
    {
        proof {
            reveal_strlit("super::");
            reveal_strlit("global::");
        }
        let nlen = name.unicode_len();
        let mut rest: &str = name;
        let mut u: usize = 0;
        if starts_with_str(name, "global::") {
            rest = name.substring_char(8, nlen);
            proof {
                assert(rest@ == base_name(name@));
            }
            // reach past every namespace boundary
            let mut i: usize = 0;
            let mut cnt: usize = 0;
            while i < self.scopes.len()
                invariant
                    0 <= i <= self@.scopes.len(),
                    cnt <= i,
                    cnt == boundary_count(self@.scopes.subrange(0, i as int)),
                decreases self@.scopes.len() - i,
            {
                proof {
                    let p = self@.scopes.subrange(0, i as int);
                    let q = self@.scopes.subrange(0, i + 1);
                    assert(q.drop_last() =~= p);
                    assert(q.last() == self@.scopes[i as int]);
                }
                if self.scopes[i].namespace {
                    cnt += 1;
                }
                i += 1;
            }
            proof {
                assert(self@.scopes.subrange(0, self@.scopes.len() as int) =~= self@.scopes);
            }
            u = cnt;
        } else {
            while starts_with_str(rest, "super::")
                invariant
                    count_supers(name@) == u + count_supers(rest@),
                    strip_supers(name@) == strip_supers(rest@),
                    7 * u + rest@.len() <= name@.len(),
                    !has_prefix(name@, "global::"@),
                decreases rest@.len(),
            {
                let rlen = rest.unicode_len();
                rest = rest.substring_char(7, rlen);
                u += 1;
            }
            proof {
                assert(rest@ == base_name(name@));
                assert(u == climb_count(self@.scopes, name@));
            }
        }
        let ghost base = base_name(name@);
        let ghost mut sup: int = climb_count(self@.scopes, name@);
        let mut blocked = false;
        let mut i: usize = self.scopes.len();
        while i > 0
            invariant
                0 <= i <= self@.scopes.len(),
                rest@ == base,
                if blocked {
                    sup < 0
                } else {
                    sup == u
                },
                resolve_from(self@.scopes, i as int - 1, base, sup) == resolve(
                    self@.scopes,
                    name@,
                ),
            decreases i,
        {
            i = i - 1;
            let sc = &self.scopes[i];
            let found = sc.get(rest);
            if let Some(v) = found {
                let is_fun = if let VariableType::Function(_) = v {
                    true
                } else {
                    false
                };
                if is_fun || (u == 0 && !blocked) {
                    return Some(v);
                }
            }
            if sc.namespace {
                if u > 0 {
                    u -= 1;
                } else {
                    blocked = true;
                }
            }
            proof {
                sup = if self@.scopes[i as int].namespace {
                    sup - 1
                } else {
                    sup
                };
            }
        }
        None
    }
}


/// The stack with `name` shadowed into the current scope.
pub open spec fn shadowed(scopes: Seq<ScopeView>, name: Seq<char>, v: VarView) -> Seq<ScopeView> {
    scopes.update(
        scopes.len() - 1,
        ScopeView { vars: scopes.last().vars.insert(name, v), namespace: scopes.last().namespace },
    )
}

/// The stack with `name` deleted from scope `i`.
pub open spec fn scope_removed(scopes: Seq<ScopeView>, i: int, name: Seq<char>) -> Seq<ScopeView> {
    scopes.update(
        i,
        ScopeView { vars: scopes[i].vars.remove(name), namespace: scopes[i].namespace },
    )
}

/// The stack with `name` overwritten in scope `i`.
pub open spec fn scope_updated(
    scopes: Seq<ScopeView>,
    i: int,
    name: Seq<char>,
    v: VarView,
) -> Seq<ScopeView> {
    scopes.update(
        i,
        ScopeView { vars: scopes[i].vars.insert(name, v), namespace: scopes[i].namespace },
    )
}

/// The environment mapping a list of pairs stands for, later pairs winning.
pub open spec fn env_fold(l: Seq<(String, String)>) -> Map<Seq<char>, Seq<char>>
    decreases l,
{
    if l.len() == 0 {
        Map::empty()
    } else {
        env_fold(l.drop_last()).insert(l.last().0@, l.last().1@)
    }
}

/// The plain-string reading of an environment scope.
pub open spec fn env_strs(sv: ScopeView) -> Map<Seq<char>, Seq<char>> {
    Map::new(|k: Seq<char>| sv.vars.contains_key(k), |k: Seq<char>| str_of(sv.vars[k]))
}

/// The decimal rendering of an optional id, `?` when it is unknown.
pub open spec fn opt_dec(x: Option<u32>) -> Seq<char> {
    match x {
        Some(n) => dec_of(n as int),
        None => seq!['?'],
    }
}

/// An optional string, `?` when it is unknown.
pub open spec fn opt_or_q(x: Option<Seq<char>>) -> Seq<char> {
    match x {
        Some(s) => s,
        None => seq!['?'],
    }
}

/// The index of the nearest scope at or below `i` that binds `name`.
pub open spec fn top_index(scopes: Seq<ScopeView>, i: int, name: Seq<char>) -> Option<int>
    decreases i + 1,
{
    if i < 0 || i >= scopes.len() {
        None
    } else if scopes[i].vars.contains_key(name) {
        Some(i)
    } else {
        top_index(scopes, i - 1, name)
    }
}


/// The store after an assignment, exactly as `set` performs it.
pub open spec fn set_effect(sv: StoreView, name: Seq<char>, vv: VarView) -> StoreView {
    if name.len() == 0 {
        sv
    } else if name == "NS_PLUGINS"@ && vv is Str {
        StoreView {
            plugins: if str_of(vv) == "1"@ {
                true
            } else if str_of(vv) == "0"@ {
                false
            } else {
                sv.plugins
            },
            ..sv
        }
    } else {
        StoreView {
            scopes: match mut_lookup(sv.scopes, name) {
                Some(i) => if same_kind(sv.scopes[i].vars[name], vv) {
                    if empty_like(vv) {
                        scope_removed(sv.scopes, i, name)
                    } else {
                        scope_updated(sv.scopes, i, name, vv)
                    }
                } else {
                    shadowed(sv.scopes, name, vv)
                },
                None => shadowed(sv.scopes, name, vv),
            },
            ..sv
        }
    }
}

impl Variables {
    /// The scope an assignment to `name` would target, with its bounds.
    #[verifier::loop_isolation(false)]
    fn mut_index(&self, name: &str) -> (r: Option<usize>)
        requires
            self.wf(),
        ensures
            match r {
                Some(i) => mut_lookup(self@.scopes, name@) == Some(i as int) && i
                    < self@.scopes.len() && self@.scopes[i as int].vars.contains_key(name@),
                None => mut_lookup(self@.scopes, name@) is None,
            },
    {
        proof {
            reveal_strlit("super::");
            reveal_strlit("global::");
        }
        if starts_with_str(name, "super::") || starts_with_str(name, "global::") {
            return None;
        }
        let mut i: usize = self.scopes.len();
        while i > 0
            invariant
                0 <= i <= self@.scopes.len(),
                mut_idx_from(self@.scopes, i as int - 1, name@) == mut_idx_from(
                    self@.scopes,
                    self@.scopes.len() - 1,
                    name@,
                ),
            decreases i,
        {
            i = i - 1;
            let sc = &self.scopes[i];
            if sc.contains(name) {
                return Some(i);
            }
            if sc.namespace {
                return None;
            }
        }
        None
    }

    /// Names the binding that an assignment to `name` would overwrite; outer
    /// namespaces are read-only, so a qualified name targets nothing.
    /// Mutation itself goes through `set`.
    pub fn get_mut(&self, name: &str) -> (r: Option<&VariableType>)
        requires
            self.wf(),
        ensures
            r is Some <==> mut_lookup(self@.scopes, name@) is Some,
            r matches Some(v) ==> mut_lookup(self@.scopes, name@) matches Some(i) && var_view(*v)
                == self@.scopes[i].vars[name@],
    {
        match self.mut_index(name) {
            Some(i) => self.scopes[i].get(name),
            None => None,
        }
    }

    /// Deletes the nearest mutable-visible binding of `name` and returns it.
    pub fn remove_variable(&mut self, name: &str) -> (r: Option<VariableType>)
        requires
            old(self).wf(),
        ensures
            final(self).wf(),
            final(self)@.env == old(self)@.env,
            final(self)@.plugins == old(self)@.plugins,
            final(self)@.root == old(self)@.root,
            match mut_lookup(old(self)@.scopes, name@) {
                Some(i) => final(self)@.scopes == scope_removed(old(self)@.scopes, i, name@) && (
                r matches Some(v) && var_view(v) == old(self)@.scopes[i].vars[name@]),
                None => final(self)@.scopes == old(self)@.scopes && r is None,
            },
    {
        match self.mut_index(name) {
            Some(i) => {
                let mut sc = self.scopes.remove(i);
                let r = sc.remove(name);
                self.scopes.insert(i, sc);
                proof {
                    assert(final(self)@.scopes =~= scope_removed(
                        old(self)@.scopes,
                        i as int,
                        name@,
                    ));
                    assert(final(self)@.env =~= old(self)@.env);
                }
                r
            },
            None => None,
        }
    }

    /// The index of the nearest scope that binds `name`, boundaries
    /// notwithstanding.
    #[verifier::loop_isolation(false)]
    pub fn index_scope_for_var(&self, name: &str) -> (r: Option<usize>)
        requires
            self.wf(),
        ensures
            match r {
                Some(i) => top_index(self@.scopes, self@.scopes.len() - 1, name@) == Some(i as int),
                None => top_index(self@.scopes, self@.scopes.len() - 1, name@) is None,
            },
    {
        let mut i: usize = self.scopes.len();
        while i > 0
            invariant
                0 <= i <= self@.scopes.len(),
                top_index(self@.scopes, i as int - 1, name@) == top_index(
                    self@.scopes,
                    self@.scopes.len() - 1,
                    name@,
                ),
            decreases i,
        {
            i = i - 1;
            let sc = &self.scopes[i];
            if sc.contains(name) {
                return Some(i);
            }
        }
        None
    }

    /// Assigns `var` to `name`. An empty name is a no-op; the name of the
    /// plugin switch with a string value only toggles the plugin flag; an
    /// existing binding of the same kind is overwritten in place, an empty
    /// string, array or map deleting it; otherwise the value is shadowed
    /// into the current scope.
    pub fn set(&mut self, name: &str, var: VariableType)
        requires
            old(self).wf(),
        ensures
            final(self).wf(),
            final(self)@ == set_effect(old(self)@, name@, var_view(var)),
            final(self)@.env == old(self)@.env,
            final(self)@.root == old(self)@.root,
            name@.len() == 0 ==> final(self)@ == old(self)@,
            name@ == "NS_PLUGINS"@ && var_view(var) is Str && name@.len() > 0 ==> final(self)@.scopes == old(self)@.scopes && final(self)@.plugins == (if var_view(var)
                == VarView::Str("1"@) {
                true
            } else if var_view(var) == VarView::Str("0"@) {
                false
            } else {
                old(self)@.plugins
            }),
            name@.len() > 0 && !(name@ == "NS_PLUGINS"@ && var_view(var) is Str) ==> final(self)@.plugins == old(self)@.plugins && (match mut_lookup(old(self)@.scopes, name@) {
                Some(i) => {
                    if same_kind(old(self)@.scopes[i].vars[name@], var_view(var)) {
                        if empty_like(var_view(var)) {
                            final(self)@.scopes == scope_removed(old(self)@.scopes, i, name@)
                        } else {
                            final(self)@.scopes == scope_updated(
                                old(self)@.scopes,
                                i,
                                name@,
                                var_view(var),
                            )
                        }
                    } else {
                        final(self)@.scopes == shadowed(old(self)@.scopes, name@, var_view(var))
                    }
                },
                None => final(self)@.scopes == shadowed(old(self)@.scopes, name@, var_view(var)),
            }),
    {
        if name.is_empty() {
            return;
        }
        if str_eq(name, "NS_PLUGINS") {
            if let VariableType::Str(s) = &var {
                proof {
                    reveal_strlit("0");
                    reveal_strlit("1");
                    assert("0"@[0] == '0');
                    assert("1"@[0] == '1');
                    assert("0"@ != "1"@);
                }
                if str_eq(s.as_str(), "0") {
                    self.disable_plugins();
                } else if str_eq(s.as_str(), "1") {
                    self.enable_plugins();
                }
                // any other value is rejected and changes nothing
                return;
            }
        }
        match self.mut_index(name) {
            Some(i) => {
                let matches_kind = {
                    let sc_ref = &self.scopes[i];
                    match sc_ref.get(name) {
                        Some(cur) => same_kind_exec(cur, &var),
                        None => false,
                    }
                };
                if matches_kind {
                    if is_empty_value(&var) {
                        let mut sc = self.scopes.remove(i);
                        let _ = sc.remove(name);
                        self.scopes.insert(i, sc);
                        proof {
                            assert(final(self)@.scopes =~= scope_removed(
                                old(self)@.scopes,
                                i as int,
                                name@,
                            ));
                            assert(final(self)@.env =~= old(self)@.env);
                        }
                    } else {
                        let mut sc = self.scopes.remove(i);
                        let _ = sc.insert(name.to_owned(), var);
                        self.scopes.insert(i, sc);
                        proof {
                            assert(final(self)@.scopes =~= scope_updated(
                                old(self)@.scopes,
                                i as int,
                                name@,
                                var_view(var),
                            ));
                            assert(final(self)@.env =~= old(self)@.env);
                        }
                    }
                } else {
                    let _ = self.shadow(name.to_owned(), var);
                }
            },
            None => {
                let _ = self.shadow(name.to_owned(), var);
            },
        }
    }

    /// Switches plugin namespaces off.
    pub fn disable_plugins(&mut self)
        requires
            old(self).wf(),
        ensures
            final(self).wf(),
            final(self)@.plugins == false,
            final(self)@.scopes == old(self)@.scopes,
            final(self)@.env == old(self)@.env,
            final(self)@.root == old(self)@.root,
    {
        let f = self.flags;
        proof {
            assert((f & (!1u8)) & 1u8 != 1u8) by (bit_vector);
        }
        self.flags = f & (!PLUGIN);
    }

    /// Switches plugin namespaces on.
    pub fn enable_plugins(&mut self)
        requires
            old(self).wf(),
        ensures
            final(self).wf(),
            final(self)@.plugins == true,
            final(self)@.scopes == old(self)@.scopes,
            final(self)@.env == old(self)@.env,
            final(self)@.root == old(self)@.root,
    {
        let f = self.flags;
        proof {
            assert((f | 1u8) & 1u8 == 1u8) by (bit_vector);
        }
        self.flags = f | PLUGIN;
    }

    /// Whether plugin namespaces may execute.
    pub fn has_plugin_support(&self) -> (r: bool)
        ensures
            r == self@.plugins,
    {
        self.flags & PLUGIN == PLUGIN
    }

    /// Whether the process runs as root; root may not execute plugins.
    pub fn is_root(&self) -> (r: bool)
        ensures
            r == self@.root,
    {
        self.root
    }

    /// The environment variable `name` from the snapshot.
    pub fn env_get(&self, name: &str) -> (r: Option<String>)
        requires
            self.wf(),
        ensures
            r is Some <==> self@.env.contains_key(name@),
            r matches Some(v) ==> v@ == self@.env[name@],
    {
        match self.env.get(name) {
            Some(v) => match v {
                VariableType::Str(s) => Some(s.clone()),
                _ => {
                    proof {
                        assert(false);
                    }
                    None
                },
            },
            None => None,
        }
    }

    /// Writes `value` into the environment snapshot under `name`.
    pub fn env_set(&mut self, name: String, value: String)
        requires
            old(self).wf(),
        ensures
            final(self).wf(),
            final(self)@.env == old(self)@.env.insert(name@, value@),
            final(self)@.scopes == old(self)@.scopes,
            final(self)@.plugins == old(self)@.plugins,
            final(self)@.root == old(self)@.root,
    {
        let ghost nm = name@;
        let ghost vv = value@;
        let _ = self.env.insert(name, VariableType::Str(value));
        proof {
            assert(final(self)@.env =~= old(self)@.env.insert(nm, vv));
            assert(final(self)@.scopes =~= old(self)@.scopes);
        }
    }
}



/// The default prompt template.
pub open spec fn default_prompt() -> Seq<char> {
    "${x::1B}]0;${USER}: ${PWD}${x::07}${c::0x55,bold}${USER}${c::default}:${c::0x4B}${SWD}${c::default}# ${c::reset}"@
}

/// The contents of the initial global scope.
pub open spec fn default_globals(
    pid: Option<u32>,
    uid: Option<u32>,
    euid: Option<u32>,
    histfile: Option<Seq<char>>,
) -> Map<Seq<char>, VarView> {
    let m = Map::<Seq<char>, VarView>::empty().insert(
        "DIRECTORY_STACK_SIZE"@,
        VarView::Str("1000"@),
    ).insert("HISTORY_SIZE"@, VarView::Str("1000"@)).insert(
        "HISTFILE_SIZE"@,
        VarView::Str("100000"@),
    ).insert("PROMPT"@, VarView::Str(default_prompt())).insert(
        "PID"@,
        VarView::Str(opt_dec(pid)),
    ).insert("UID"@, VarView::Str(opt_dec(uid))).insert("EUID"@, VarView::Str(opt_dec(euid)));
    let m2 = match histfile {
        Some(p) => m.insert("HISTFILE"@, VarView::Str(p)).insert(
            "HISTFILE_ENABLED"@,
            VarView::Str("1"@),
        ),
        None => m,
    };
    m2.insert(
        "HISTORY_IGNORE"@,
        VarView::Array(seq!["no_such_command"@, "whitespace"@, "duplicates"@]),
    )
}

impl Variables {
    /// Builds the store with its single populated global scope and the
    /// environment snapshot, from the process facts the caller gathered:
    /// ids (absent ones shown as `?`), the resolved history file path if
    /// any, the home directory, the host name, and the process environment.
    #[verifier::loop_isolation(false)]
    pub fn with_defaults(
        pid: Option<u32>,
        uid: Option<u32>,
        euid: Option<u32>,
        histfile: Option<String>,
        home: Option<String>,
        host: Option<String>,
        env_vars: Vec<(String, String)>,
    ) -> (r: Variables)
        ensures
            r.wf(),
            r@.scopes.len() == 1,
            r@.scopes[0].namespace == false,
            r@.scopes[0].vars == default_globals(
                pid,
                uid,
                euid,
                match histfile {
                    Some(p) => Some(p@),
                    None => None,
                },
            ),
            r@.env == env_fold(env_vars@).insert(
                "HOME"@,
                opt_or_q(
                    match home {
                        Some(h) => Some(h@),
                        None => None,
                    },
                ),
            ).insert(
                "HOST"@,
                opt_or_q(
                    match host {
                        Some(h) => Some(h@),
                        None => None,
                    },
                ),
            ),
            r@.plugins == false,
            r@.root == (euid == Some(0u32)),
    {
        proof {
            reveal_strlit("?");
            assert("?"@ =~= seq!['?']);
        }
        let mut g = Scope::new(false);
        let _ = g.insert("DIRECTORY_STACK_SIZE".to_owned(), VariableType::Str("1000".to_owned()));
        let _ = g.insert("HISTORY_SIZE".to_owned(), VariableType::Str("1000".to_owned()));
        let _ = g.insert("HISTFILE_SIZE".to_owned(), VariableType::Str("100000".to_owned()));
        let _ = g.insert(
            "PROMPT".to_owned(),
            VariableType::Str(
                "${x::1B}]0;${USER}: ${PWD}${x::07}${c::0x55,bold}${USER}${c::default}:${c::0x4B}${SWD}${c::default}# ${c::reset}".to_owned(),
            ),
        );
        let pid_s = match pid {
            Some(n) => u64_to_dec(n as u64),
            None => "?".to_owned(),
        };
        let _ = g.insert("PID".to_owned(), VariableType::Str(pid_s));
        let uid_s = match uid {
            Some(n) => u64_to_dec(n as u64),
            None => "?".to_owned(),
        };
        let _ = g.insert("UID".to_owned(), VariableType::Str(uid_s));
        let euid_s = match euid {
            Some(n) => u64_to_dec(n as u64),
            None => "?".to_owned(),
        };
        let _ = g.insert("EUID".to_owned(), VariableType::Str(euid_s));
        let has_histfile = histfile.is_some();
        if let Some(p) = histfile {
            let _ = g.insert("HISTFILE".to_owned(), VariableType::Str(p));
            let _ = g.insert("HISTFILE_ENABLED".to_owned(), VariableType::Str("1".to_owned()));
        }
        let ignore: Vec<String> = vec![
            "no_such_command".to_owned(),
            "whitespace".to_owned(),
            "duplicates".to_owned(),
        ];
        proof {
            assert(ignore.deep_view() =~= seq!["no_such_command"@, "whitespace"@, "duplicates"@]);
        }
        let _ = g.insert("HISTORY_IGNORE".to_owned(), VariableType::Array(ignore));
        let mut e = Scope::new(false);
        let mut i: usize = 0;
        while i < env_vars.len()
            invariant
                0 <= i <= env_vars@.len(),
                e.wf(),
                forall|k: Seq<char>| e@.vars.contains_key(k) ==> (#[trigger] e@.vars[k]) is Str,
                env_strs(e@) == env_fold(env_vars@.subrange(0, i as int)),
            decreases env_vars@.len() - i,
        {
            let k = env_vars[i].0.clone();
            let v = env_vars[i].1.clone();
            let _ = e.insert(k, VariableType::Str(v));
            proof {
                let p = env_vars@.subrange(0, i as int);
                let q = env_vars@.subrange(0, i + 1);
                assert(q.drop_last() =~= p);
                assert(q.last() == env_vars@[i as int]);
                assert(env_strs(e@) =~= env_fold(q));
            }
            i += 1;
        }
        proof {
            assert(env_vars@.subrange(0, env_vars@.len() as int) =~= env_vars@);
        }
        let home_s = match home {
            Some(h) => h,
            None => "?".to_owned(),
        };
        let _ = e.insert("HOME".to_owned(), VariableType::Str(home_s));
        let host_s = match host {
            Some(h) => h,
            None => "?".to_owned(),
        };
        let _ = e.insert("HOST".to_owned(), VariableType::Str(host_s));
        let root = match euid {
            Some(0) => true,
            _ => false,
        };
        let scopes: Vec<Scope> = vec![g];
        let r = Variables { flags: 0, scopes, env: e, root };
        proof {
            assert(0u8 & 1u8 != 1u8) by (bit_vector);
            assert(r@.scopes.len() == 1);
            assert(r@.scopes[0] == r.scopes@[0]@);
            assert(r@.scopes[0].vars =~= default_globals(
                pid,
                uid,
                euid,
                match histfile {
                    Some(p) => Some(p@),
                    None => None,
                },
            ));
            assert(r@.env =~= env_fold(env_vars@).insert(
                "HOME"@,
                opt_or_q(
                    match home {
                        Some(h) => Some(h@),
                        None => None,
                    },
                ),
            ).insert(
                "HOST"@,
                opt_or_q(
                    match host {
                        Some(h) => Some(h@),
                        None => None,
                    },
                ),
            ));
        }
        r
    }
}

impl Default for Variables {
    /// The store as created with nothing known of the process: ids shown as
    /// `?`, no history file, home and host unknown, an empty environment.
    fn default() -> (r: Variables)
        ensures
            r.wf(),
            r@.scopes.len() == 1,
            r@.scopes[0].namespace == false,
            r@.scopes[0].vars == default_globals(None, None, None, None),
            r@.env == Map::<Seq<char>, Seq<char>>::empty().insert("HOME"@, seq!['?']).insert(
                "HOST"@,
                seq!['?'],
            ),
            r@.plugins == false,
            r@.root == false,
    {
        let r = Variables::with_defaults(None, None, None, None, None, None, Vec::new());
        proof {
            let ev: Seq<(String, String)> = Seq::empty();
            assert(env_fold(ev) =~= Map::<Seq<char>, Seq<char>>::empty());
        }
        r
    }
}

} // verus!
