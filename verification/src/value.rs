//! The tagged union of variable kinds, its mathematical view, the total
//! conversions to each carrier, and the display rendering.

use vstd::prelude::*;
use vstd::string::StringExecFns;

verus! {

/// A callable definition; its parts are owned elsewhere and opaque here.
pub struct Function {
    pub name: String,
    pub description: String,
    pub params: Vec<String>,
    pub body: Vec<String>,
}

/// An entry list standing for a map from names to variable values; entries
/// are kept in insertion order and keys are unique.
pub struct VarMap {
    pub entries: Vec<(String, VariableType)>,
}

/// A shell variable value: one of several disjoint kinds.
pub enum VariableType {
    Str(String),
    Alias(String),
    Array(Vec<String>),
    HashMap(VarMap),
    BTreeMap(VarMap),
    Function(Function),
    Absent,
}

/// The view of a `Function`.
pub struct FunctionView {
    pub name: Seq<char>,
    pub description: Seq<char>,
    pub params: Seq<Seq<char>>,
    pub body: Seq<Seq<char>>,
}

/// The view of a `VariableType`: the same tree over sequences.
pub enum VarView {
    Str(Seq<char>),
    Alias(Seq<char>),
    Array(Seq<Seq<char>>),
    HashMap(Seq<(Seq<char>, VarView)>),
    BTreeMap(Seq<(Seq<char>, VarView)>),
    Function(FunctionView),
    Absent,
}

impl View for Function {
    type V = FunctionView;

    open spec fn view(&self) -> FunctionView {
        FunctionView {
            name: self.name@,
            description: self.description@,
            params: self.params.deep_view(),
            body: self.body.deep_view(),
        }
    }
}

/// The views of the entries of a map value, in order.
pub open spec fn entries_view(s: Seq<(String, VariableType)>) -> Seq<(Seq<char>, VarView)>
    decreases s,
{
    if s.len() == 0 {
        Seq::empty()
    } else {
        entries_view(s.drop_last()).push((s.last().0@, var_view(s.last().1)))
    }
}

/// The view of a variable value.
pub open spec fn var_view(v: VariableType) -> VarView
    decreases v,
{
    match v {
        VariableType::Str(s) => VarView::Str(s@),
        VariableType::Alias(s) => VarView::Alias(s@),
        VariableType::Array(a) => VarView::Array(a.deep_view()),
        VariableType::HashMap(m) => VarView::HashMap(entries_view(m.entries@)),
        VariableType::BTreeMap(m) => VarView::BTreeMap(entries_view(m.entries@)),
        VariableType::Function(f) => VarView::Function(f@),
        VariableType::Absent => VarView::Absent,
    }
}

impl View for VariableType {
    type V = VarView;

    open spec fn view(&self) -> VarView {
        var_view(*self)
    }
}

pub broadcast proof fn lemma_entries_view_len(s: Seq<(String, VariableType)>)
    ensures
        (#[trigger] entries_view(s)).len() == s.len(),
        forall|i: int|
            0 <= i < s.len() ==> #[trigger] entries_view(s)[i] == (s[i].0@, var_view(s[i].1)),
    decreases s,
{
    if s.len() > 0 {
        lemma_entries_view_len(s.drop_last());
    }
}

/// The elements joined by single spaces.
pub open spec fn join_space(items: Seq<Seq<char>>) -> Seq<char>
    decreases items,
{
    if items.len() == 0 {
        Seq::empty()
    } else if items.len() == 1 {
        items[0]
    } else {
        join_space(items.drop_last()) + seq![' '] + items.last()
    }
}

/// What each value displays as: strings and aliases as themselves, arrays as
/// their elements joined by spaces, maps as the displays of their entries'
/// values joined by spaces (keys elided), functions and the absent value as
/// the empty string.
pub open spec fn display_of(v: VarView) -> Seq<char>
    decreases v,
{
    match v {
        VarView::Str(s) => s,
        VarView::Alias(s) => s,
        VarView::Array(a) => join_space(a),
        VarView::HashMap(es) => join_space(values_display(es)),
        VarView::BTreeMap(es) => join_space(values_display(es)),
        VarView::Function(_) => Seq::empty(),
        VarView::Absent => Seq::empty(),
    }
}

/// The displays of the values of a map's entries, in order.
pub open spec fn values_display(es: Seq<(Seq<char>, VarView)>) -> Seq<Seq<char>>
    decreases es,
{
    if es.len() == 0 {
        Seq::empty()
    } else {
        values_display(es.drop_last()).push(display_of(es.last().1))
    }
}

/// Joins the given strings with single spaces.
#[verifier::loop_isolation(false)]
pub fn join_space_exec(items: &Vec<String>) -> (r: String)
    ensures
        r@ == join_space(items.deep_view()),
{
    let mut r = String::new();
    let mut i: usize = 0;
    while i < items.len()
        invariant
            0 <= i <= items@.len(),
            r@ == join_space(items.deep_view().subrange(0, i as int)),
        decreases items@.len() - i,
    {
        proof {
            let dv = items.deep_view();
            let p = dv.subrange(0, i as int);
            let q = dv.subrange(0, i + 1);
            assert(q.drop_last() =~= p);
            assert(q.last() == dv[i as int]);
            if i == 0 {
                assert(q =~= seq![dv[0]]);
            }
        }
        if i > 0 {
            crate::text::push_char(&mut r, ' ');
        }
        r.append(items[i].as_str());
        proof {
            let dv = items.deep_view();
            let q = dv.subrange(0, i + 1);
            if i > 0 {
                assert(r@ == join_space(q.drop_last()) + seq![' '] + q.last());
            } else {
                assert(r@ =~= dv[0]);
            }
        }
        i += 1;
    }
    proof {
        assert(items.deep_view().subrange(0, items@.len() as int) =~= items.deep_view());
    }
    r
}

impl VariableType {
    /// Renders the value as the shell prints it.
    #[verifier::loop_isolation(false)]
    pub fn display_string(&self) -> (r: String)
        ensures
            r@ == display_of(self@),
        decreases *self,
    {
        match self {
            VariableType::Str(s) => s.clone(),
            VariableType::Alias(s) => s.clone(),
            VariableType::Array(a) => join_space_exec(a),
            VariableType::HashMap(m) => map_display(m),
            VariableType::BTreeMap(m) => map_display(m),
            VariableType::Function(_) => String::new(),
            VariableType::Absent => String::new(),
        }
    }

    /// The string carrier of the value: the text of a string variant, the
    /// neutral empty string for every other kind.
    pub fn coerce_string(self) -> (r: String)
        ensures
            self@ matches VarView::Str(s) ==> r@ == s,
            !(self@ is Str) ==> r@ == Seq::<char>::empty(),
    {
        match self {
            VariableType::Str(s) => s,
            _ => String::new(),
        }
    }

    /// The alias carrier of the value, or the neutral empty alias.
    pub fn coerce_alias(self) -> (r: String)
        ensures
            self@ matches VarView::Alias(s) ==> r@ == s,
            !(self@ is Alias) ==> r@ == Seq::<char>::empty(),
    {
        match self {
            VariableType::Alias(s) => s,
            _ => String::new(),
        }
    }

    /// The array carrier of the value, or the neutral empty array.
    pub fn coerce_array(self) -> (r: Vec<String>)
        ensures
            self@ matches VarView::Array(a) ==> r.deep_view() == a,
            !(self@ is Array) ==> r.deep_view() == Seq::<Seq<char>>::empty(),
    {
        match self {
            VariableType::Array(a) => a,
            _ => {
                let r: Vec<String> = Vec::new();
                proof {
                    assert(r.deep_view() =~= Seq::<Seq<char>>::empty());
                }
                r
            },
        }
    }

    /// The keyed-map carrier of the value, or the neutral empty map.
    pub fn coerce_hashmap(self) -> (r: VarMap)
        ensures
            self@ matches VarView::HashMap(es) ==> entries_view(r.entries@) == es,
            !(self@ is HashMap) ==> r.entries@ == Seq::<(String, VariableType)>::empty(),
    {
        match self {
            VariableType::HashMap(m) => m,
            _ => VarMap { entries: Vec::new() },
        }
    }

    /// The ordered-map carrier of the value, or the neutral empty map.
    pub fn coerce_btreemap(self) -> (r: VarMap)
        ensures
            self@ matches VarView::BTreeMap(es) ==> entries_view(r.entries@) == es,
            !(self@ is BTreeMap) ==> r.entries@ == Seq::<(String, VariableType)>::empty(),
    {
        match self {
            VariableType::BTreeMap(m) => m,
            _ => VarMap { entries: Vec::new() },
        }
    }

    /// The function carrier of the value, or the neutral default function.
    pub fn coerce_function(self) -> (r: Function)
        ensures
            self@ matches VarView::Function(f) ==> r@ == f,
            !(self@ is Function) ==> r@.name.len() == 0 && r@.description.len() == 0
                && r@.params.len() == 0 && r@.body.len() == 0,
    {
        match self {
            VariableType::Function(f) => f,
            _ => Function {
                name: String::new(),
                description: String::new(),
                params: Vec::new(),
                body: Vec::new(),
            },
        }
    }
}

/// Renders a map value: the displays of the entry values joined by spaces.
#[verifier::loop_isolation(false)]
fn map_display(m: &VarMap) -> (r: String)
    ensures
        r@ == join_space(values_display(entries_view(m.entries@))),
    decreases *m,
{
    let mut parts: Vec<String> = Vec::new();
    let mut i: usize = 0;
    proof {
        assert(parts.deep_view() =~= values_display(entries_view(m.entries@.subrange(0, 0))));
    }
    while i < m.entries.len()
        invariant
            0 <= i <= m.entries@.len(),
            parts.deep_view() == values_display(entries_view(m.entries@.subrange(0, i as int))),
        decreases m.entries@.len() - i,
    {
        proof {
            assert(decreases_to!(*m => m.entries@[i as int].1));
        }
        let d = m.entries[i].1.display_string();
        parts.push(d);
        proof {
            let es = m.entries@;
            let p = es.subrange(0, i as int);
            let q = es.subrange(0, i + 1);
            assert(q.drop_last() =~= p);
            assert(q.last() == es[i as int]);
            assert(entries_view(q) == entries_view(p).push((es[i as int].0@, var_view(
                es[i as int].1,
            ))));
            lemma_entries_view_len(p);
            let pair = (es[i as int].0@, var_view(es[i as int].1));
            let ev = entries_view(p).push(pair);
            assert(ev.drop_last() =~= entries_view(p));
            assert(ev.last() == pair);
            assert(values_display(entries_view(q)) == values_display(entries_view(p)).push(
                display_of(var_view(es[i as int].1)),
            ));
            assert(parts.deep_view() =~= values_display(entries_view(q)));
        }
        i += 1;
    }
    proof {
        assert(m.entries@.subrange(0, m.entries@.len() as int) =~= m.entries@);
    }
    join_space_exec(&parts)
}

impl VarMap {
    /// An empty map.
    pub fn new() -> (r: VarMap)
        ensures
            r.entries@ == Seq::<(String, VariableType)>::empty(),
    {
        VarMap { entries: Vec::new() }
    }

    pub open spec fn len_spec(&self) -> nat {
        self.entries@.len()
    }

    /// The number of entries.
    pub fn len(&self) -> (r: usize)
        ensures
            r == self.len_spec(),
    {
        self.entries.len()
    }

    /// Whether the map has no entries.
    pub fn is_empty(&self) -> (r: bool)
        ensures
            r == (self.len_spec() == 0),
    {
        self.entries.len() == 0
    }

    /// Appends an entry; the caller keeps keys unique.
    pub fn push_entry(&mut self, key: String, value: VariableType)
        ensures
            final(self).entries@ == old(self).entries@.push((key, value)),
    {
        self.entries.push((key, value));
    }
}

/// The two values are of the same kind.
pub open spec fn same_kind(a: VarView, b: VarView) -> bool {
    match (a, b) {
        (VarView::Str(_), VarView::Str(_)) => true,
        (VarView::Alias(_), VarView::Alias(_)) => true,
        (VarView::Array(_), VarView::Array(_)) => true,
        (VarView::HashMap(_), VarView::HashMap(_)) => true,
        (VarView::BTreeMap(_), VarView::BTreeMap(_)) => true,
        (VarView::Function(_), VarView::Function(_)) => true,
        (VarView::Absent, VarView::Absent) => true,
        _ => false,
    }
}

/// An empty value of a kind whose assignment deletes the variable: the empty
/// string, the empty array, and the empty maps; an empty alias or a function
/// does not delete.
pub open spec fn empty_like(v: VarView) -> bool {
    match v {
        VarView::Str(s) => s.len() == 0,
        VarView::Array(a) => a.len() == 0,
        VarView::HashMap(es) => es.len() == 0,
        VarView::BTreeMap(es) => es.len() == 0,
        _ => false,
    }
}

/// Decides whether two values are of the same kind.
pub fn same_kind_exec(a: &VariableType, b: &VariableType) -> (r: bool)
    ensures
        r == same_kind(var_view(*a), var_view(*b)),
{
    match (a, b) {
        (VariableType::Str(_), VariableType::Str(_)) => true,
        (VariableType::Alias(_), VariableType::Alias(_)) => true,
        (VariableType::Array(_), VariableType::Array(_)) => true,
        (VariableType::HashMap(_), VariableType::HashMap(_)) => true,
        (VariableType::BTreeMap(_), VariableType::BTreeMap(_)) => true,
        (VariableType::Function(_), VariableType::Function(_)) => true,
        (VariableType::Absent, VariableType::Absent) => true,
        _ => false,
    }
}

/// Decides whether assigning this value deletes the variable.
pub fn is_empty_value(v: &VariableType) -> (r: bool)
    ensures
        r == empty_like(var_view(*v)),
{
    match v {
        VariableType::Str(s) => s.as_str().is_empty(),
        VariableType::Array(a) => a.len() == 0,
        VariableType::HashMap(m) => m.entries.len() == 0,
        VariableType::BTreeMap(m) => m.entries.len() == 0,
        _ => false,
    }
}


/// Copies a vector of strings.
#[verifier::loop_isolation(false)]
pub fn clone_strings(v: &Vec<String>) -> (r: Vec<String>)
    ensures
        r.deep_view() == v.deep_view(),
{
    let mut r: Vec<String> = Vec::new();
    let mut i: usize = 0;
    while i < v.len()
        invariant
            0 <= i <= v@.len(),
            r.deep_view().len() == i,
            forall|j: int| 0 <= j < i ==> r.deep_view()[j] == v.deep_view()[j],
        decreases v@.len() - i,
    {
        r.push(v[i].clone());
        i += 1;
    }
    proof {
        assert(r.deep_view() =~= v.deep_view());
    }
    r
}

/// Copies a function definition.
pub fn clone_function(f: &Function) -> (r: Function)
    ensures
        r@ == f@,
{
    Function {
        name: f.name.clone(),
        description: f.description.clone(),
        params: clone_strings(&f.params),
        body: clone_strings(&f.body),
    }
}

/// A structural copy of a value, equal in view.
pub fn clone_var(v: &VariableType) -> (r: VariableType)
    ensures
        var_view(r) == var_view(*v),
    decreases *v,
{
    match v {
        VariableType::Str(s) => VariableType::Str(s.clone()),
        VariableType::Alias(s) => VariableType::Alias(s.clone()),
        VariableType::Array(a) => VariableType::Array(clone_strings(a)),
        VariableType::HashMap(m) => VariableType::HashMap(clone_map(m)),
        VariableType::BTreeMap(m) => VariableType::BTreeMap(clone_map(m)),
        VariableType::Function(f) => VariableType::Function(clone_function(f)),
        VariableType::Absent => VariableType::Absent,
    }
}

/// A structural copy of a map value, equal in view.
#[verifier::loop_isolation(false)]
pub fn clone_map(m: &VarMap) -> (r: VarMap)
    ensures
        entries_view(r.entries@) == entries_view(m.entries@),
    decreases *m,
{
    let mut entries: Vec<(String, VariableType)> = Vec::new();
    let mut i: usize = 0;
    while i < m.entries.len()
        invariant
            0 <= i <= m.entries@.len(),
            entries@.len() == i,
            forall|j: int|
                0 <= j < i ==> (#[trigger] entries@[j]).0@ == m.entries@[j].0@ && var_view(
                    entries@[j].1,
                ) == var_view(m.entries@[j].1),
        decreases m.entries@.len() - i,
    {
        proof {
            assert(decreases_to!(*m => m.entries@[i as int].1));
        }
        let k = m.entries[i].0.clone();
        let v = clone_var(&m.entries[i].1);
        entries.push((k, v));
        i += 1;
    }
    proof {
        lemma_entries_view_len(entries@);
        lemma_entries_view_len(m.entries@);
        assert(entries_view(entries@) =~= entries_view(m.entries@));
    }
    VarMap { entries }
}

} // verus!
