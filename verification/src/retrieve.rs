//! Typed retrieval: the string getter with its namespace dispatch, the
//! derived working-directory names, and one getter per value kind.

use vstd::prelude::*;
use vstd::string::{StrSliceExecFns, StringExecFns};
use crate::colors::{color_escape, color_escape_of};
use crate::store::{resolve, StoreView, Variables};
use crate::text::{hex_body, hex_u8_valid, hex_value, parse_hex_u8, push_char, str_eq};
use crate::value::{
    clone_function, clone_map, clone_strings, entries_view, var_view, Function, VarMap, VarView,
    VariableType,
};
use crate::wd::{minimize_directory, mwd_ascii, mwd_of, simplify_directory, swd_of};

verus! {

/// The outcome of a string lookup: a value, a miss (also covering syntax
/// errors and policy denials in the caller's eyes), a plugin dispatch the
/// caller must perform, or the denial that forbids it.
pub enum StringLookup {
    Found(String),
    Absent,
    Dispatch { namespace: String, variable: String },
    DeniedRoot,
    DeniedDisabled,
}

/// The view of a string lookup outcome.
pub enum LookupView {
    Found(Seq<char>),
    Absent,
    Dispatch { namespace: Seq<char>, variable: Seq<char> },
    DeniedRoot,
    DeniedDisabled,
}

impl View for StringLookup {
    type V = LookupView;

    open spec fn view(&self) -> LookupView {
        match self {
            StringLookup::Found(s) => LookupView::Found(s@),
            StringLookup::Absent => LookupView::Absent,
            StringLookup::Dispatch { namespace, variable } => LookupView::Dispatch {
                namespace: namespace@,
                variable: variable@,
            },
            StringLookup::DeniedRoot => LookupView::DeniedRoot,
            StringLookup::DeniedDisabled => LookupView::DeniedDisabled,
        }
    }
}

/// A plain string lookup: an in-scope string wins; any other outcome falls
/// back to the environment snapshot.
pub open spec fn string_lookup(sv: StoreView, name: Seq<char>) -> Option<Seq<char>> {
    match resolve(sv.scopes, name) {
        Some(VarView::Str(s)) => Some(s),
        _ => if sv.env.contains_key(name) {
            Some(sv.env[name])
        } else {
            None
        },
    }
}

/// The home directory as lookups see it, `?` when it resolves to nothing.
pub open spec fn home_or_q(sv: StoreView) -> Seq<char> {
    match string_lookup(sv, "HOME"@) {
        Some(h) => h,
        None => seq!['?'],
    }
}

/// The simplified working directory of the store's environment.
pub open spec fn swd_view(sv: StoreView) -> Seq<char> {
    swd_of(sv.env["PWD"@], home_or_q(sv))
}

/// Where `::` first occurs in a name, `-1` when it does not.
pub open spec fn dc_idx(name: Seq<char>) -> int
    decreases name.len(),
{
    if name.len() < 2 {
        -1
    } else if name[0] == ':' && name[1] == ':' {
        0
    } else {
        let r = dc_idx(name.skip(1));
        if r < 0 {
            -1
        } else {
            1 + r
        }
    }
}

/// The namespace part of a qualified name.
pub open spec fn ns_of(name: Seq<char>) -> Seq<char> {
    name.subrange(0, dc_idx(name))
}

/// The variable part of a qualified name.
pub open spec fn var_of(name: Seq<char>) -> Seq<char> {
    name.skip(dc_idx(name) + 2)
}

/// What the string getter returns, over the store view: the derived
/// working-directory names, then the namespace prefixes, then the plain
/// lookup with its environment fallback.
pub open spec fn string_get_spec(sv: StoreView, name: Seq<char>) -> LookupView {
    if name == "MWD"@ {
        LookupView::Found(mwd_of(swd_view(sv)))
    } else if name == "SWD"@ {
        LookupView::Found(swd_view(sv))
    } else if dc_idx(name) >= 0 {
        let ns = ns_of(name);
        let v = var_of(name);
        if ns == "c"@ || ns == "color"@ {
            match color_escape_of(v) {
                Some(e) => LookupView::Found(e),
                None => LookupView::Absent,
            }
        } else if ns == "x"@ || ns == "hex"@ {
            if hex_u8_valid(v) {
                LookupView::Found(seq![(hex_value(hex_body(v)) as u8) as char])
            } else {
                LookupView::Absent
            }
        } else if ns == "env"@ {
            if sv.env.contains_key(v) {
                LookupView::Found(sv.env[v])
            } else {
                LookupView::Absent
            }
        } else if ns == "super"@ || ns == "global"@ {
            plain_get(sv, name)
        } else if sv.root {
            LookupView::DeniedRoot
        } else if !sv.plugins {
            LookupView::DeniedDisabled
        } else {
            LookupView::Dispatch { namespace: ns, variable: v }
        }
    } else {
        plain_get(sv, name)
    }
}

/// A plain lookup folded into a lookup outcome.
pub open spec fn plain_get(sv: StoreView, name: Seq<char>) -> LookupView {
    match string_lookup(sv, name) {
        Some(s) => LookupView::Found(s),
        None => LookupView::Absent,
    }
}

proof fn lemma_dc_idx_none(name: Seq<char>)
    requires
        forall|j: int| 0 <= j && j + 1 < name.len() ==> !((#[trigger] name[j]) == ':' && name[j + 1] == ':'),
    ensures
        dc_idx(name) == -1,
    decreases name.len(),
{
    if name.len() >= 2 {
        assert(!(name[0] == ':' && name[1] == ':'));
        let t = name.skip(1);
        assert(forall|j: int|
            0 <= j && j + 1 < t.len() ==> (#[trigger] t[j]) == name[j + 1] && t[j + 1] == name[j
                + 2]);
        lemma_dc_idx_none(t);
    }
}

proof fn lemma_dc_idx_at(name: Seq<char>, i: int)
    requires
        0 <= i,
        i + 1 < name.len(),
        name[i] == ':',
        name[i + 1] == ':',
        forall|j: int| 0 <= j < i ==> !((#[trigger] name[j]) == ':' && name[j + 1] == ':'),
    ensures
        dc_idx(name) == i,
    decreases i,
{
    if i == 0 {
    } else {
        assert(!(name[0] == ':' && name[1] == ':'));
        let t = name.skip(1);
        assert(forall|j: int| 0 <= j < t.len() ==> (#[trigger] t[j]) == name[j + 1]);
        assert(t[i - 1] == ':' && t[i] == ':');
        assert(forall|j: int| 0 <= j < i - 1 ==> !((#[trigger] t[j]) == ':' && t[j + 1] == ':'));
        lemma_dc_idx_at(t, i - 1);
    }
}

/// Finds the first `::` in `name`.
#[verifier::loop_isolation(false)]
fn find_dc(name: &str) -> (r: Option<usize>)
    ensures
        match r {
            Some(i) => dc_idx(name@) == i as int && i + 1 < name@.len(),
            None => dc_idx(name@) < 0,
        },
{
    let len = name.unicode_len();
    if len < 2 {
        proof {
            lemma_dc_idx_none(name@);
        }
        return None;
    }
    let mut i: usize = 0;
    while i + 1 < len
        invariant
            0 <= i,
            i + 1 <= len,
            len == name@.len(),
            forall|j: int| 0 <= j < i ==> !((#[trigger] name@[j]) == ':' && name@[j + 1] == ':'),
        decreases len - i,
    {
        if name.get_char(i) == ':' && name.get_char(i + 1) == ':' {
            proof {
                lemma_dc_idx_at(name@, i as int);
            }
            return Some(i);
        }
        i += 1;
    }
    proof {
        lemma_dc_idx_none(name@);
    }
    None
}

impl Variables {
    /// A plain string lookup with the environment fallback.
    fn plain_string(&self, name: &str) -> (r: Option<String>)
        requires
            self.wf(),
        ensures
            r is Some <==> string_lookup(self@, name@) is Some,
            r matches Some(s) ==> string_lookup(self@, name@) == Some(s@),
    {
        let from_scope = self.get_ref(name);
        match from_scope {
            Some(v) => match v {
                VariableType::Str(s) => Some(s.clone()),
                _ => self.env_get(name),
            },
            None => self.env_get(name),
        }
    }

    /// The simplified working directory: the environment's working directory
    /// with a leading home prefix replaced by `~`; an unresolvable home reads
    /// as `?`.
    pub fn get_simplified_directory(&self) -> (r: String)
        requires
            self.wf(),
            self@.env.contains_key("PWD"@),
        ensures
            r@ == swd_view(self@),
    {
        let pwd = match self.env_get("PWD") {
            Some(p) => p,
            None => String::new(),
        };
        let home = match self.plain_string("HOME") {
            Some(h) => h,
            None => "?".to_owned(),
        };
        proof {
            reveal_strlit("?");
            assert("?"@ =~= seq!['?']);
        }
        simplify_directory(pwd.as_str(), home.as_str())
    }

    /// The minimal working directory: the simplified one with every segment
    /// but the last compressed to its first grapheme cluster.
    pub fn get_minimal_directory(&self) -> (r: String)
        requires
            self.wf(),
            self@.env.contains_key("PWD"@),
        ensures
            r@ == mwd_of(swd_view(self@)),
            crate::text::ascii_no_cr(swd_view(self@)) ==> r@ == mwd_ascii(swd_view(self@)),
    {
        let swd = self.get_simplified_directory();
        minimize_directory(swd.as_str())
    }

    /// Retrieves `name` as a string: the derived `MWD` and `SWD` names, the
    /// `c::`/`color::`, `x::`/`hex::` and `env::` prefixes, plugin namespaces
    /// under their policy, and otherwise the plain lookup with its
    /// environment fallback.
    pub fn get_string(&self, name: &str) -> (r: StringLookup)
        requires
            self.wf(),
            name@ == "MWD"@ ==> self@.env.contains_key("PWD"@),
            name@ == "SWD"@ ==> self@.env.contains_key("PWD"@),
        ensures
            r@ == string_get_spec(self@, name@),
    {
        if str_eq(name, "MWD") {
            return StringLookup::Found(self.get_minimal_directory());
        }
        if str_eq(name, "SWD") {
            return StringLookup::Found(self.get_simplified_directory());
        }
        let len = name.unicode_len();
        match find_dc(name) {
            Some(i) => {
                let ns = name.substring_char(0, i);
                let v = name.substring_char(i + 2, len);
                proof {
                    assert(ns@ == ns_of(name@));
                    assert(v@ == var_of(name@));
                }
                if str_eq(ns, "c") || str_eq(ns, "color") {
                    match color_escape(v) {
                        Some(e) => StringLookup::Found(e),
                        None => StringLookup::Absent,
                    }
                } else if str_eq(ns, "x") || str_eq(ns, "hex") {
                    match parse_hex_u8(v) {
                        Some(b) => {
                            let mut s = String::new();
                            push_char(&mut s, b as char);
                            proof {
                                assert(s@ =~= seq![(hex_value(hex_body(v@)) as u8) as char]);
                            }
                            StringLookup::Found(s)
                        },
                        None => StringLookup::Absent,
                    }
                } else if str_eq(ns, "env") {
                    match self.env_get(v) {
                        Some(val) => StringLookup::Found(val),
                        None => StringLookup::Absent,
                    }
                } else if str_eq(ns, "super") || str_eq(ns, "global") {
                    match self.plain_string(name) {
                        Some(s) => StringLookup::Found(s),
                        None => StringLookup::Absent,
                    }
                } else if self.is_root() {
                    StringLookup::DeniedRoot
                } else if !self.has_plugin_support() {
                    StringLookup::DeniedDisabled
                } else {
                    StringLookup::Dispatch { namespace: ns.to_owned(), variable: v.to_owned() }
                }
            },
            None => match self.plain_string(name) {
                Some(s) => StringLookup::Found(s),
                None => StringLookup::Absent,
            },
        }
    }

    /// The string retrieval of `name`, or the empty string when it yields no
    /// value.
    pub fn get_str_or_empty(&self, name: &str) -> (r: String)
        requires
            self.wf(),
            name@ == "MWD"@ ==> self@.env.contains_key("PWD"@),
            name@ == "SWD"@ ==> self@.env.contains_key("PWD"@),
        ensures
            r@ == (match string_get_spec(self@, name@) {
                LookupView::Found(s) => s,
                _ => Seq::<char>::empty(),
            }),
    {
        match self.get_string(name) {
            StringLookup::Found(s) => s,
            _ => String::new(),
        }
    }

    /// The alias bound to `name`, if resolution yields one.
    pub fn get_alias(&self, name: &str) -> (r: Option<String>)
        requires
            self.wf(),
        ensures
            r is Some <==> resolve(self@.scopes, name@) matches Some(VarView::Alias(_)),
            r matches Some(s) ==> resolve(self@.scopes, name@) == Some(VarView::Alias(s@)),
    {
        match self.get_ref(name) {
            Some(v) => match v {
                VariableType::Alias(s) => Some(s.clone()),
                _ => None,
            },
            None => None,
        }
    }

    /// The array bound to `name`, if resolution yields one.
    pub fn get_array(&self, name: &str) -> (r: Option<Vec<String>>)
        requires
            self.wf(),
        ensures
            r is Some <==> resolve(self@.scopes, name@) matches Some(VarView::Array(_)),
            r matches Some(a) ==> resolve(self@.scopes, name@) == Some(
                VarView::Array(a.deep_view()),
            ),
    {
        match self.get_ref(name) {
            Some(v) => match v {
                VariableType::Array(a) => Some(clone_strings(a)),
                _ => None,
            },
            None => None,
        }
    }

    /// The keyed map bound to `name`, if resolution yields one.
    pub fn get_hashmap(&self, name: &str) -> (r: Option<VarMap>)
        requires
            self.wf(),
        ensures
            r is Some <==> resolve(self@.scopes, name@) matches Some(VarView::HashMap(_)),
            r matches Some(m) ==> resolve(self@.scopes, name@) == Some(
                VarView::HashMap(entries_view(m.entries@)),
            ),
    {
        match self.get_ref(name) {
            Some(v) => match v {
                VariableType::HashMap(m) => Some(clone_map(m)),
                _ => None,
            },
            None => None,
        }
    }

    /// The ordered map bound to `name`, if resolution yields one.
    pub fn get_btreemap(&self, name: &str) -> (r: Option<VarMap>)
        requires
            self.wf(),
        ensures
            r is Some <==> resolve(self@.scopes, name@) matches Some(VarView::BTreeMap(_)),
            r matches Some(m) ==> resolve(self@.scopes, name@) == Some(
                VarView::BTreeMap(entries_view(m.entries@)),
            ),
    {
        match self.get_ref(name) {
            Some(v) => match v {
                VariableType::BTreeMap(m) => Some(clone_map(m)),
                _ => None,
            },
            None => None,
        }
    }

    /// The function bound to `name`, if resolution yields one.
    pub fn get_function(&self, name: &str) -> (r: Option<Function>)
        requires
            self.wf(),
        ensures
            r is Some <==> resolve(self@.scopes, name@) matches Some(VarView::Function(_)),
            r matches Some(f) ==> resolve(self@.scopes, name@) == Some(VarView::Function(f@)),
    {
        match self.get_ref(name) {
            Some(v) => match v {
                VariableType::Function(f) => Some(clone_function(f)),
                _ => None,
            },
            None => None,
        }
    }
}


/// Some scope binds `k` to the string `v`.
pub open spec fn string_binding(sv: StoreView, k: Seq<char>, v: Seq<char>) -> bool {
    exists|i: int|
        0 <= i < sv.scopes.len() && (#[trigger] sv.scopes[i]).vars.contains_key(k)
            && sv.scopes[i].vars[k] == VarView::Str(v)
}

/// Some scope binds `k` to the alias `v`.
pub open spec fn alias_binding(sv: StoreView, k: Seq<char>, v: Seq<char>) -> bool {
    exists|i: int|
        0 <= i < sv.scopes.len() && (#[trigger] sv.scopes[i]).vars.contains_key(k)
            && sv.scopes[i].vars[k] == VarView::Alias(v)
}

/// Some scope binds `k` to the array `v`.
pub open spec fn array_binding(sv: StoreView, k: Seq<char>, v: Seq<Seq<char>>) -> bool {
    exists|i: int|
        0 <= i < sv.scopes.len() && (#[trigger] sv.scopes[i]).vars.contains_key(k)
            && sv.scopes[i].vars[k] == VarView::Array(v)
}

/// Some scope binds `k` to the function `f`.
pub open spec fn function_binding(sv: StoreView, k: Seq<char>, f: crate::value::FunctionView) -> bool {
    exists|i: int|
        0 <= i < sv.scopes.len() && (#[trigger] sv.scopes[i]).vars.contains_key(k)
            && sv.scopes[i].vars[k] == VarView::Function(f)
}

impl Variables {
    /// The scopes, outermost first; the current scope is the last.
    pub fn scopes(&self) -> (r: &Vec<crate::scope::Scope>)
        ensures
            r@.len() == self@.scopes.len(),
            forall|i: int| 0 <= i < r@.len() ==> (#[trigger] r@[i])@ == self@.scopes[i],
    {
        &self.scopes
    }

    /// Lists every string binding, the current scope's entries first; a name
    /// shadowed across scopes appears once per scope that binds it, and
    /// nothing else appears.
    #[verifier::loop_isolation(false)]
    pub fn string_vars(&self) -> (r: Vec<(String, String)>)
        requires
            self.wf(),
        ensures
            forall|j: int|
                0 <= j < r@.len() ==> string_binding(self@, (#[trigger] r@[j]).0@, r@[j].1@),
            forall|i: int, k: Seq<char>|
                0 <= i < self@.scopes.len() && (#[trigger] self@.scopes[i].vars.contains_key(k))
                    && self@.scopes[i].vars[k] is Str ==> exists|j: int|
                    0 <= j < r@.len() && (#[trigger] r@[j]).0@ == k && VarView::Str(r@[j].1@)
                        == self@.scopes[i].vars[k],
    {
        let mut r: Vec<(String, String)> = Vec::new();
        let mut si: usize = self.scopes.len();
        while si > 0
            invariant
                0 <= si <= self@.scopes.len(),
                forall|j: int|
                    0 <= j < r@.len() ==> string_binding(self@, (#[trigger] r@[j]).0@, r@[j].1@),
                forall|i: int, k: Seq<char>|
                    si <= i < self@.scopes.len() && (#[trigger] self@.scopes[i].vars.contains_key(
                        k,
                    )) && self@.scopes[i].vars[k] is Str ==> exists|j: int|
                        0 <= j < r@.len() && (#[trigger] r@[j]).0@ == k && VarView::Str(r@[j].1@)
                            == self@.scopes[i].vars[k],
            decreases si,
        {
            si -= 1;
            let sc = &self.scopes[si];
            let mut k: usize = 0;
            while k < sc.vars.len()
                invariant
                    0 <= k <= sc.vars@.len(),
                    forall|j: int|
                        0 <= j < r@.len() ==> string_binding(
                            self@,
                            (#[trigger] r@[j]).0@,
                            r@[j].1@,
                        ),
                    forall|i: int, key: Seq<char>|
                        si < i < self@.scopes.len() && (#[trigger] self@.scopes[i].vars.contains_key(
                            key,
                        )) && self@.scopes[i].vars[key] is Str ==> exists|j: int|
                            0 <= j < r@.len() && (#[trigger] r@[j]).0@ == key && VarView::Str(
                                r@[j].1@,
                            ) == self@.scopes[i].vars[key],
                    forall|m: int|
                        0 <= m < k && var_view(#[trigger] sc.vars@[m].1) is Str ==> exists|j: int|
                            0 <= j < r@.len() && (#[trigger] r@[j]).0@ == sc.vars@[m].0@
                                && VarView::Str(r@[j].1@) == var_view(sc.vars@[m].1),
            decreases sc.vars@.len() - k,
            {
                let ghost r0 = r@;
                if let VariableType::Str(s) = &sc.vars[k].1 {
                    proof {
                        crate::scope::lemma_alist_lookup(sc.vars@, sc.vars@[k as int].0@);
                        assert(self@.scopes[si as int].vars.contains_key(sc.vars@[k as int].0@));
                        assert(self@.scopes[si as int].vars[sc.vars@[k as int].0@]
                            == var_view(sc.vars@[k as int].1));
                    }
                    r.push((sc.vars[k].0.clone(), s.clone()));
                    proof {
                        assert(forall|j: int| 0 <= j < r0.len() ==> #[trigger] r@[j] == r0[j]);
                        assert(r@[r0.len() as int].0@ == sc.vars@[k as int].0@);
                        assert(VarView::Str(r@[r0.len() as int].1@) == var_view(
                            sc.vars@[k as int].1,
                        ));
                        assert forall|i: int, key: Seq<char>|
                            si < i < self@.scopes.len() && (
                            #[trigger] self@.scopes[i].vars.contains_key(key))
                                && self@.scopes[i].vars[key] is Str implies exists|j: int|
                            0 <= j < r@.len() && (#[trigger] r@[j]).0@ == key && VarView::Str(
                                r@[j].1@,
                            ) == self@.scopes[i].vars[key] by {
                            let j0 = choose|j: int|
                                0 <= j < r0.len() && (#[trigger] r0[j]).0@ == key && VarView::Str(
                                    r0[j].1@,
                                ) == self@.scopes[i].vars[key];
                            assert(r@[j0] == r0[j0]);
                        }
                        assert forall|m: int|
                            0 <= m < k + 1 && var_view(#[trigger] sc.vars@[m].1) is Str implies
                            exists|j: int|
                            0 <= j < r@.len() && (#[trigger] r@[j]).0@ == sc.vars@[m].0@
                                && VarView::Str(r@[j].1@) == var_view(sc.vars@[m].1) by {
                            if m < k {
                                let j0 = choose|j: int|
                                    0 <= j < r0.len() && (#[trigger] r0[j]).0@ == sc.vars@[m].0@
                                        && VarView::Str(r0[j].1@) == var_view(sc.vars@[m].1);
                                assert(r@[j0] == r0[j0]);
                            } else {
                                assert(r@[r0.len() as int].0@ == sc.vars@[m].0@);
                            }
                        }
                    }
                }
                k += 1;
            }
            proof {
                assert forall|key: Seq<char>|
                    (#[trigger] self@.scopes[si as int].vars.contains_key(key))
                        && self@.scopes[si as int].vars[key] is Str implies exists|j: int|
                    0 <= j < r@.len() && (#[trigger] r@[j]).0@ == key && VarView::Str(r@[j].1@)
                        == self@.scopes[si as int].vars[key] by {
                    crate::scope::lemma_alist_lookup(sc.vars@, key);
                    let m = choose|m: int| 0 <= m < sc.vars@.len() && (#[trigger] sc.vars@[m]).0@
                        == key;
                    assert(var_view(sc.vars@[m].1) is Str);
                }
            }
        }
        r
    }

    /// Lists every alias binding, the current scope's entries first; a name
    /// shadowed across scopes appears once per scope that binds it, and
    /// nothing else appears.
    #[verifier::loop_isolation(false)]
    pub fn aliases(&self) -> (r: Vec<(String, String)>)
        requires
            self.wf(),
        ensures
            forall|j: int|
                0 <= j < r@.len() ==> alias_binding(self@, (#[trigger] r@[j]).0@, r@[j].1@),
            forall|i: int, k: Seq<char>|
                0 <= i < self@.scopes.len() && (#[trigger] self@.scopes[i].vars.contains_key(k))
                    && self@.scopes[i].vars[k] is Alias ==> exists|j: int|
                    0 <= j < r@.len() && (#[trigger] r@[j]).0@ == k && VarView::Alias(r@[j].1@)
                        == self@.scopes[i].vars[k],
    {
        let mut r: Vec<(String, String)> = Vec::new();
        let mut si: usize = self.scopes.len();
        while si > 0
            invariant
                0 <= si <= self@.scopes.len(),
                forall|j: int|
                    0 <= j < r@.len() ==> alias_binding(self@, (#[trigger] r@[j]).0@, r@[j].1@),
                forall|i: int, k: Seq<char>|
                    si <= i < self@.scopes.len() && (#[trigger] self@.scopes[i].vars.contains_key(
                        k,
                    )) && self@.scopes[i].vars[k] is Alias ==> exists|j: int|
                        0 <= j < r@.len() && (#[trigger] r@[j]).0@ == k && VarView::Alias(r@[j].1@)
                            == self@.scopes[i].vars[k],
            decreases si,
        {
            si -= 1;
            let sc = &self.scopes[si];
            let mut k: usize = 0;
            while k < sc.vars.len()
                invariant
                    0 <= k <= sc.vars@.len(),
                    forall|j: int|
                        0 <= j < r@.len() ==> alias_binding(
                            self@,
                            (#[trigger] r@[j]).0@,
                            r@[j].1@,
                        ),
                    forall|i: int, key: Seq<char>|
                        si < i < self@.scopes.len() && (#[trigger] self@.scopes[i].vars.contains_key(
                            key,
                        )) && self@.scopes[i].vars[key] is Alias ==> exists|j: int|
                            0 <= j < r@.len() && (#[trigger] r@[j]).0@ == key && VarView::Alias(
                                r@[j].1@,
                            ) == self@.scopes[i].vars[key],
                    forall|m: int|
                        0 <= m < k && var_view(#[trigger] sc.vars@[m].1) is Alias ==> exists|j: int|
                            0 <= j < r@.len() && (#[trigger] r@[j]).0@ == sc.vars@[m].0@
                                && VarView::Alias(r@[j].1@) == var_view(sc.vars@[m].1),
            decreases sc.vars@.len() - k,
            {
                let ghost r0 = r@;
                if let VariableType::Alias(s) = &sc.vars[k].1 {
                    proof {
                        crate::scope::lemma_alist_lookup(sc.vars@, sc.vars@[k as int].0@);
                        assert(self@.scopes[si as int].vars.contains_key(sc.vars@[k as int].0@));
                        assert(self@.scopes[si as int].vars[sc.vars@[k as int].0@]
                            == var_view(sc.vars@[k as int].1));
                    }
                    r.push((sc.vars[k].0.clone(), s.clone()));
                    proof {
                        assert(forall|j: int| 0 <= j < r0.len() ==> #[trigger] r@[j] == r0[j]);
                        assert(r@[r0.len() as int].0@ == sc.vars@[k as int].0@);
                        assert(VarView::Alias(r@[r0.len() as int].1@) == var_view(
                            sc.vars@[k as int].1,
                        ));
                        assert forall|i: int, key: Seq<char>|
                            si < i < self@.scopes.len() && (
                            #[trigger] self@.scopes[i].vars.contains_key(key))
                                && self@.scopes[i].vars[key] is Alias implies exists|j: int|
                            0 <= j < r@.len() && (#[trigger] r@[j]).0@ == key && VarView::Alias(
                                r@[j].1@,
                            ) == self@.scopes[i].vars[key] by {
                            let j0 = choose|j: int|
                                0 <= j < r0.len() && (#[trigger] r0[j]).0@ == key && VarView::Alias(
                                    r0[j].1@,
                                ) == self@.scopes[i].vars[key];
                            assert(r@[j0] == r0[j0]);
                        }
                        assert forall|m: int|
                            0 <= m < k + 1 && var_view(#[trigger] sc.vars@[m].1) is Alias implies
                            exists|j: int|
                            0 <= j < r@.len() && (#[trigger] r@[j]).0@ == sc.vars@[m].0@
                                && VarView::Alias(r@[j].1@) == var_view(sc.vars@[m].1) by {
                            if m < k {
                                let j0 = choose|j: int|
                                    0 <= j < r0.len() && (#[trigger] r0[j]).0@ == sc.vars@[m].0@
                                        && VarView::Alias(r0[j].1@) == var_view(sc.vars@[m].1);
                                assert(r@[j0] == r0[j0]);
                            } else {
                                assert(r@[r0.len() as int].0@ == sc.vars@[m].0@);
                            }
                        }
                    }
                }
                k += 1;
            }
            proof {
                assert forall|key: Seq<char>|
                    (#[trigger] self@.scopes[si as int].vars.contains_key(key))
                        && self@.scopes[si as int].vars[key] is Alias implies exists|j: int|
                    0 <= j < r@.len() && (#[trigger] r@[j]).0@ == key && VarView::Alias(r@[j].1@)
                        == self@.scopes[si as int].vars[key] by {
                    crate::scope::lemma_alist_lookup(sc.vars@, key);
                    let m = choose|m: int| 0 <= m < sc.vars@.len() && (#[trigger] sc.vars@[m]).0@
                        == key;
                    assert(var_view(sc.vars@[m].1) is Alias);
                }
            }
        }
        r
    }

    /// Lists every array binding, the current scope's entries first; a name
    /// shadowed across scopes appears once per scope that binds it, and
    /// nothing else appears.
    #[verifier::loop_isolation(false)]
    pub fn arrays(&self) -> (r: Vec<(String, Vec<String>)>)
        requires
            self.wf(),
        ensures
            forall|j: int|
                0 <= j < r@.len() ==> array_binding(self@, (#[trigger] r@[j]).0@, r@[j].1.deep_view()),
            forall|i: int, k: Seq<char>|
                0 <= i < self@.scopes.len() && (#[trigger] self@.scopes[i].vars.contains_key(k))
                    && self@.scopes[i].vars[k] is Array ==> exists|j: int|
                    0 <= j < r@.len() && (#[trigger] r@[j]).0@ == k && VarView::Array(r@[j].1.deep_view())
                        == self@.scopes[i].vars[k],
    {
        let mut r: Vec<(String, Vec<String>)> = Vec::new();
        let mut si: usize = self.scopes.len();
        while si > 0
            invariant
                0 <= si <= self@.scopes.len(),
                forall|j: int|
                    0 <= j < r@.len() ==> array_binding(self@, (#[trigger] r@[j]).0@, r@[j].1.deep_view()),
                forall|i: int, k: Seq<char>|
                    si <= i < self@.scopes.len() && (#[trigger] self@.scopes[i].vars.contains_key(
                        k,
                    )) && self@.scopes[i].vars[k] is Array ==> exists|j: int|
                        0 <= j < r@.len() && (#[trigger] r@[j]).0@ == k && VarView::Array(r@[j].1.deep_view())
                            == self@.scopes[i].vars[k],
            decreases si,
        {
            si -= 1;
            let sc = &self.scopes[si];
            let mut k: usize = 0;
            while k < sc.vars.len()
                invariant
                    0 <= k <= sc.vars@.len(),
                    forall|j: int|
                        0 <= j < r@.len() ==> array_binding(
                            self@,
                            (#[trigger] r@[j]).0@,
                            r@[j].1.deep_view(),
                        ),
                    forall|i: int, key: Seq<char>|
                        si < i < self@.scopes.len() && (#[trigger] self@.scopes[i].vars.contains_key(
                            key,
                        )) && self@.scopes[i].vars[key] is Array ==> exists|j: int|
                            0 <= j < r@.len() && (#[trigger] r@[j]).0@ == key && VarView::Array(
                                r@[j].1.deep_view(),
                            ) == self@.scopes[i].vars[key],
                    forall|m: int|
                        0 <= m < k && var_view(#[trigger] sc.vars@[m].1) is Array ==> exists|j: int|
                            0 <= j < r@.len() && (#[trigger] r@[j]).0@ == sc.vars@[m].0@
                                && VarView::Array(r@[j].1.deep_view()) == var_view(sc.vars@[m].1),
            decreases sc.vars@.len() - k,
            {
                let ghost r0 = r@;
                if let VariableType::Array(a) = &sc.vars[k].1 {
                    proof {
                        crate::scope::lemma_alist_lookup(sc.vars@, sc.vars@[k as int].0@);
                        assert(self@.scopes[si as int].vars.contains_key(sc.vars@[k as int].0@));
                        assert(self@.scopes[si as int].vars[sc.vars@[k as int].0@]
                            == var_view(sc.vars@[k as int].1));
                    }
                    r.push((sc.vars[k].0.clone(), clone_strings(a)));
                    proof {
                        assert(forall|j: int| 0 <= j < r0.len() ==> #[trigger] r@[j] == r0[j]);
                        assert(r@[r0.len() as int].0@ == sc.vars@[k as int].0@);
                        assert(VarView::Array(r@[r0.len() as int].1.deep_view()) == var_view(
                            sc.vars@[k as int].1,
                        ));
                        assert forall|i: int, key: Seq<char>|
                            si < i < self@.scopes.len() && (
                            #[trigger] self@.scopes[i].vars.contains_key(key))
                                && self@.scopes[i].vars[key] is Array implies exists|j: int|
                            0 <= j < r@.len() && (#[trigger] r@[j]).0@ == key && VarView::Array(
                                r@[j].1.deep_view(),
                            ) == self@.scopes[i].vars[key] by {
                            let j0 = choose|j: int|
                                0 <= j < r0.len() && (#[trigger] r0[j]).0@ == key && VarView::Array(
                                    r0[j].1.deep_view(),
                                ) == self@.scopes[i].vars[key];
                            assert(r@[j0] == r0[j0]);
                        }
                        assert forall|m: int|
                            0 <= m < k + 1 && var_view(#[trigger] sc.vars@[m].1) is Array implies
                            exists|j: int|
                            0 <= j < r@.len() && (#[trigger] r@[j]).0@ == sc.vars@[m].0@
                                && VarView::Array(r@[j].1.deep_view()) == var_view(sc.vars@[m].1) by {
                            if m < k {
                                let j0 = choose|j: int|
                                    0 <= j < r0.len() && (#[trigger] r0[j]).0@ == sc.vars@[m].0@
                                        && VarView::Array(r0[j].1.deep_view()) == var_view(sc.vars@[m].1);
                                assert(r@[j0] == r0[j0]);
                            } else {
                                assert(r@[r0.len() as int].0@ == sc.vars@[m].0@);
                            }
                        }
                    }
                }
                k += 1;
            }
            proof {
                assert forall|key: Seq<char>|
                    (#[trigger] self@.scopes[si as int].vars.contains_key(key))
                        && self@.scopes[si as int].vars[key] is Array implies exists|j: int|
                    0 <= j < r@.len() && (#[trigger] r@[j]).0@ == key && VarView::Array(r@[j].1.deep_view())
                        == self@.scopes[si as int].vars[key] by {
                    crate::scope::lemma_alist_lookup(sc.vars@, key);
                    let m = choose|m: int| 0 <= m < sc.vars@.len() && (#[trigger] sc.vars@[m]).0@
                        == key;
                    assert(var_view(sc.vars@[m].1) is Array);
                }
            }
        }
        r
    }

    /// Lists every function binding, the current scope's entries first; a name
    /// shadowed across scopes appears once per scope that binds it, and
    /// nothing else appears.
    #[verifier::loop_isolation(false)]
    pub fn functions(&self) -> (r: Vec<(String, Function)>)
        requires
            self.wf(),
        ensures
            forall|j: int|
                0 <= j < r@.len() ==> function_binding(self@, (#[trigger] r@[j]).0@, r@[j].1@),
            forall|i: int, k: Seq<char>|
                0 <= i < self@.scopes.len() && (#[trigger] self@.scopes[i].vars.contains_key(k))
                    && self@.scopes[i].vars[k] is Function ==> exists|j: int|
                    0 <= j < r@.len() && (#[trigger] r@[j]).0@ == k && VarView::Function(r@[j].1@)
                        == self@.scopes[i].vars[k],
    {
        let mut r: Vec<(String, Function)> = Vec::new();
        let mut si: usize = self.scopes.len();
        while si > 0
            invariant
                0 <= si <= self@.scopes.len(),
                forall|j: int|
                    0 <= j < r@.len() ==> function_binding(self@, (#[trigger] r@[j]).0@, r@[j].1@),
                forall|i: int, k: Seq<char>|
                    si <= i < self@.scopes.len() && (#[trigger] self@.scopes[i].vars.contains_key(
                        k,
                    )) && self@.scopes[i].vars[k] is Function ==> exists|j: int|
                        0 <= j < r@.len() && (#[trigger] r@[j]).0@ == k && VarView::Function(r@[j].1@)
                            == self@.scopes[i].vars[k],
            decreases si,
        {
            si -= 1;
            let sc = &self.scopes[si];
            let mut k: usize = 0;
            while k < sc.vars.len()
                invariant
                    0 <= k <= sc.vars@.len(),
                    forall|j: int|
                        0 <= j < r@.len() ==> function_binding(
                            self@,
                            (#[trigger] r@[j]).0@,
                            r@[j].1@,
                        ),
                    forall|i: int, key: Seq<char>|
                        si < i < self@.scopes.len() && (#[trigger] self@.scopes[i].vars.contains_key(
                            key,
                        )) && self@.scopes[i].vars[key] is Function ==> exists|j: int|
                            0 <= j < r@.len() && (#[trigger] r@[j]).0@ == key && VarView::Function(
                                r@[j].1@,
                            ) == self@.scopes[i].vars[key],
                    forall|m: int|
                        0 <= m < k && var_view(#[trigger] sc.vars@[m].1) is Function ==> exists|j: int|
                            0 <= j < r@.len() && (#[trigger] r@[j]).0@ == sc.vars@[m].0@
                                && VarView::Function(r@[j].1@) == var_view(sc.vars@[m].1),
            decreases sc.vars@.len() - k,
            {
                let ghost r0 = r@;
                if let VariableType::Function(f) = &sc.vars[k].1 {
                    proof {
                        crate::scope::lemma_alist_lookup(sc.vars@, sc.vars@[k as int].0@);
                        assert(self@.scopes[si as int].vars.contains_key(sc.vars@[k as int].0@));
                        assert(self@.scopes[si as int].vars[sc.vars@[k as int].0@]
                            == var_view(sc.vars@[k as int].1));
                    }
                    r.push((sc.vars[k].0.clone(), clone_function(f)));
                    proof {
                        assert(forall|j: int| 0 <= j < r0.len() ==> #[trigger] r@[j] == r0[j]);
                        assert(r@[r0.len() as int].0@ == sc.vars@[k as int].0@);
                        assert(VarView::Function(r@[r0.len() as int].1@) == var_view(
                            sc.vars@[k as int].1,
                        ));
                        assert forall|i: int, key: Seq<char>|
                            si < i < self@.scopes.len() && (
                            #[trigger] self@.scopes[i].vars.contains_key(key))
                                && self@.scopes[i].vars[key] is Function implies exists|j: int|
                            0 <= j < r@.len() && (#[trigger] r@[j]).0@ == key && VarView::Function(
                                r@[j].1@,
                            ) == self@.scopes[i].vars[key] by {
                            let j0 = choose|j: int|
                                0 <= j < r0.len() && (#[trigger] r0[j]).0@ == key && VarView::Function(
                                    r0[j].1@,
                                ) == self@.scopes[i].vars[key];
                            assert(r@[j0] == r0[j0]);
                        }
                        assert forall|m: int|
                            0 <= m < k + 1 && var_view(#[trigger] sc.vars@[m].1) is Function implies
                            exists|j: int|
                            0 <= j < r@.len() && (#[trigger] r@[j]).0@ == sc.vars@[m].0@
                                && VarView::Function(r@[j].1@) == var_view(sc.vars@[m].1) by {
                            if m < k {
                                let j0 = choose|j: int|
                                    0 <= j < r0.len() && (#[trigger] r0[j]).0@ == sc.vars@[m].0@
                                        && VarView::Function(r0[j].1@) == var_view(sc.vars@[m].1);
                                assert(r@[j0] == r0[j0]);
                            } else {
                                assert(r@[r0.len() as int].0@ == sc.vars@[m].0@);
                            }
                        }
                    }
                }
                k += 1;
            }
            proof {
                assert forall|key: Seq<char>|
                    (#[trigger] self@.scopes[si as int].vars.contains_key(key))
                        && self@.scopes[si as int].vars[key] is Function implies exists|j: int|
                    0 <= j < r@.len() && (#[trigger] r@[j]).0@ == key && VarView::Function(r@[j].1@)
                        == self@.scopes[si as int].vars[key] by {
                    crate::scope::lemma_alist_lookup(sc.vars@, key);
                    let m = choose|m: int| 0 <= m < sc.vars@.len() && (#[trigger] sc.vars@[m]).0@
                        == key;
                    assert(var_view(sc.vars@[m].1) is Function);
                }
            }
        }
        r
    }

}

} // verus!
