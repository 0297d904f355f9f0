//! The store's resolution laws: what assignment guarantees to a following
//! lookup, what a namespace boundary hides, and what the qualifiers reach.

use vstd::prelude::*;
use crate::scope::ScopeView;
use crate::store::{
    base_name, boundary_count, climb_count, count_supers, mut_idx_from, mut_lookup, resolve,
    resolve_from, scope_removed, scope_updated, set_effect, shadowed, strip_supers, StoreView,
};
use crate::retrieve::{dc_idx, plain_get, string_get_spec, string_lookup, LookupView};
use crate::text::has_prefix;
use crate::value::{empty_like, same_kind, VarView};

verus! {

proof fn lemma_dc_idx_neg(name: Seq<char>)
    requires
        dc_idx(name) < 0,
    ensures
        forall|j: int|
            0 <= j && j + 1 < name.len() ==> !((#[trigger] name[j]) == ':' && name[j + 1] == ':'),
    decreases name.len(),
{
    if name.len() >= 2 {
        let t = name.skip(1);
        assert(forall|j: int| 0 <= j < t.len() ==> (#[trigger] t[j]) == name[j + 1]);
        assert(dc_idx(t) < 0);
        lemma_dc_idx_neg(t);
        assert forall|j: int|
            0 <= j && j + 1 < name.len() implies !((#[trigger] name[j]) == ':' && name[j + 1]
            == ':') by {
            if j > 0 {
                assert(!(t[j - 1] == ':' && t[j] == ':'));
            }
        }
    }
}

/// A name without `::` carries no qualifier: it is its own base name and its
/// climb count is zero.
proof fn lemma_plain_name(scopes: Seq<ScopeView>, name: Seq<char>)
    requires
        dc_idx(name) < 0,
    ensures
        !has_prefix(name, "super::"@),
        !has_prefix(name, "global::"@),
        count_supers(name) == 0,
        base_name(name) == name,
        climb_count(scopes, name) == 0,
{
    reveal_strlit("super::");
    reveal_strlit("global::");
    lemma_dc_idx_neg(name);
    if has_prefix(name, "super::"@) {
        assert(name[5] == "super::"@[5]);
        assert(name[6] == "super::"@[6]);
        assert("super::"@[5] == ':' && "super::"@[6] == ':');
        assert(false);
    }
    if has_prefix(name, "global::"@) {
        assert(name[6] == "global::"@[6]);
        assert(name[7] == "global::"@[7]);
        assert("global::"@[6] == ':' && "global::"@[7] == ':');
        assert(false);
    }
}

/// What a mutating lookup that found its target says of the scopes above it:
/// none of them binds the name and none is a boundary.
proof fn lemma_mut_idx_props(scopes: Seq<ScopeView>, k: int, name: Seq<char>)
    ensures
        mut_idx_from(scopes, k, name) matches Some(i) ==> 0 <= i <= k && i < scopes.len()
            && scopes[i].vars.contains_key(name) && (forall|j: int|
            i < j <= k && j < scopes.len() ==> !(#[trigger] scopes[j]).vars.contains_key(name)
                && !scopes[j].namespace),
    decreases k + 1,
{
    if k >= 0 && k < scopes.len() {
        if !scopes[k].vars.contains_key(name) && !scopes[k].namespace {
            lemma_mut_idx_props(scopes, k - 1, name);
        }
    }
}

/// A walk across scopes that neither bind the name nor form a boundary
/// changes nothing about resolution.
proof fn lemma_resolve_skip(scopes: Seq<ScopeView>, hi: int, lo: int, name: Seq<char>, up: int)
    requires
        -1 <= lo <= hi,
        hi < scopes.len(),
        forall|j: int|
            lo < j <= hi ==> !(#[trigger] scopes[j]).vars.contains_key(name)
                && !scopes[j].namespace,
    ensures
        resolve_from(scopes, hi, name, up) == resolve_from(scopes, lo, name, up),
    decreases hi - lo,
{
    if hi > lo {
        lemma_resolve_skip(scopes, hi - 1, lo, name, up);
    }
}

/// Once the climb count is negative, only a function can still be returned.
proof fn lemma_resolve_neg(scopes: Seq<ScopeView>, i: int, name: Seq<char>, up: int)
    requires
        up < 0,
    ensures
        resolve_from(scopes, i, name, up) matches Some(v) ==> v is Function,
    decreases i + 1,
{
    if 0 <= i && i < scopes.len() {
        lemma_resolve_neg(
            scopes,
            i - 1,
            name,
            if scopes[i].namespace {
                up - 1
            } else {
                up
            },
        );
    }
}

/// Immediately after an assignment of a non-empty value to a plain name
/// whose visible binding (if any) is of the same kind, the name resolves to
/// exactly that value, whatever its kind.
pub proof fn lemma_set_then_resolve(sv: StoreView, name: Seq<char>, vv: VarView)
    requires
        sv.scopes.len() >= 1,
        name.len() > 0,
        !empty_like(vv),
        name != "NS_PLUGINS"@,
        dc_idx(name) < 0,
        match mut_lookup(sv.scopes, name) {
            Some(i) => same_kind(sv.scopes[i].vars[name], vv),
            None => true,
        },
    ensures
        resolve(set_effect(sv, name, vv).scopes, name) == Some(vv),
{
    let post = set_effect(sv, name, vv);
    lemma_plain_name(sv.scopes, name);
    assert(!(name == "NS_PLUGINS"@ && vv is Str)) by {
        reveal_strlit("NS_PLUGINS");
    }
    let top = sv.scopes.len() - 1;
    match mut_lookup(sv.scopes, name) {
        Some(i) => {
            assert(same_kind(sv.scopes[i].vars[name], vv));
            assert(post.scopes == scope_updated(sv.scopes, i, name, vv));
            lemma_mut_idx_props(sv.scopes, top, name);
            assert(post.scopes.len() == sv.scopes.len());
            assert(forall|j: int|
                i < j <= top ==> !(#[trigger] post.scopes[j]).vars.contains_key(name)
                    && !post.scopes[j].namespace);
            lemma_resolve_skip(post.scopes, top, i, name, 0);
            assert(post.scopes[i].vars.contains_key(name));
            assert(post.scopes[i].vars[name] == vv);
            assert(resolve_from(post.scopes, i, name, 0) == Some(vv));
            lemma_plain_name(post.scopes, name);
        },
        None => {
            assert(post.scopes == shadowed(sv.scopes, name, vv));
            assert(post.scopes[post.scopes.len() - 1].vars.contains_key(name));
            assert(post.scopes[post.scopes.len() - 1].vars[name] == vv);
            lemma_plain_name(post.scopes, name);
        },
    }
}

/// Immediately after an assignment of a non-empty string to a plain name
/// whose visible binding (if any) is itself a string, retrieving the name as
/// a string yields exactly that value.
pub proof fn lemma_set_then_get(sv: StoreView, name: Seq<char>, v: Seq<char>)
    requires
        sv.scopes.len() >= 1,
        name.len() > 0,
        v.len() > 0,
        name != "NS_PLUGINS"@,
        name != "MWD"@,
        name != "SWD"@,
        dc_idx(name) < 0,
        match mut_lookup(sv.scopes, name) {
            Some(i) => sv.scopes[i].vars[name] is Str,
            None => true,
        },
    ensures
        string_get_spec(set_effect(sv, name, VarView::Str(v)), name) == LookupView::Found(v),
{
    let vv = VarView::Str(v);
    let post = set_effect(sv, name, vv);
    lemma_set_then_resolve(sv, name, vv);
    assert(string_lookup(post, name) == Some(v));
    assert(plain_get(post, name) == LookupView::Found(v));
}

/// Assigning the empty string where the visible binding is a string deletes
/// the binding: the scope that held it, and in particular the current scope,
/// no longer binds the name.
pub proof fn lemma_set_empty_string_deletes(sv: StoreView, name: Seq<char>)
    requires
        sv.scopes.len() >= 1,
        name.len() > 0,
        name != "NS_PLUGINS"@,
        mut_lookup(sv.scopes, name) matches Some(i) && sv.scopes[i].vars[name] is Str,
    ensures
        mut_lookup(sv.scopes, name) matches Some(i) ==> !set_effect(
            sv,
            name,
            VarView::Str(Seq::empty()),
        ).scopes[i].vars.contains_key(name),
        !set_effect(sv, name, VarView::Str(Seq::empty())).scopes.last().vars.contains_key(name),
{
    let vv = VarView::Str(Seq::<char>::empty());
    let post = set_effect(sv, name, vv);
    let top = sv.scopes.len() - 1;
    lemma_mut_idx_props(sv.scopes, top, name);
    match mut_lookup(sv.scopes, name) {
        Some(i) => {
            assert(0 <= i <= top);
            assert(sv.scopes[i].vars[name] is Str);
            assert(same_kind(sv.scopes[i].vars[name], vv));
            assert(empty_like(vv));
            assert(post.scopes == scope_removed(sv.scopes, i, name));
            assert(post.scopes[i].vars == sv.scopes[i].vars.remove(name));
            assert(!post.scopes[i].vars.contains_key(name));
            if i < top {
                assert(!sv.scopes[top].vars.contains_key(name));
                assert(post.scopes[top] == sv.scopes[top]);
            }
        },
        None => {
            assert(false);
        },
    }
}

/// An unqualified lookup cannot see a non-function entry declared outside a
/// namespace boundary: if no scope at or inside the boundary binds the name,
/// resolution yields at most a function.
pub proof fn lemma_namespace_blocks(scopes: Seq<ScopeView>, b: int, name: Seq<char>)
    requires
        0 <= b < scopes.len(),
        scopes[b].namespace,
        forall|j: int| b <= j < scopes.len() ==> !(#[trigger] scopes[j]).vars.contains_key(name),
        dc_idx(name) < 0,
    ensures
        resolve(scopes, name) matches Some(v) ==> v is Function,
{
    lemma_plain_name(scopes, name);
    lemma_blocked_walk(scopes, scopes.len() - 1, b, name, 0);
}

proof fn lemma_blocked_walk(scopes: Seq<ScopeView>, hi: int, b: int, name: Seq<char>, up: int)
    requires
        0 <= b <= hi < scopes.len(),
        scopes[b].namespace,
        forall|j: int| b <= j <= hi ==> !(#[trigger] scopes[j]).vars.contains_key(name),
        up <= 0,
    ensures
        resolve_from(scopes, hi, name, up) matches Some(v) ==> v is Function,
    decreases hi - b,
{
    let up2 = if scopes[hi].namespace {
        up - 1
    } else {
        up
    };
    if hi == b {
        lemma_resolve_neg(scopes, hi - 1, name, up - 1);
    } else {
        lemma_blocked_walk(scopes, hi - 1, b, name, up2);
    }
}

/// The qualifier `super::` repeated `k` times.
pub open spec fn super_quals(k: nat) -> Seq<char>
    decreases k,
{
    if k == 0 {
        Seq::empty()
    } else {
        "super::"@ + super_quals((k - 1) as nat)
    }
}

proof fn lemma_super_quals_parse(name: Seq<char>, k: nat)
    requires
        count_supers(name) == 0,
    ensures
        count_supers(super_quals(k) + name) == k,
        strip_supers(super_quals(k) + name) == name,
        k > 0 ==> (super_quals(k) + name).len() > 0 && (super_quals(k) + name)[0] == 's',
    decreases k,
{
    reveal_strlit("super::");
    if k == 0 {
        assert(super_quals(0) + name =~= name);
    } else {
        let w = super_quals(k) + name;
        let rest = super_quals((k - 1) as nat) + name;
        assert(w =~= "super::"@ + rest);
        assert(has_prefix(w, "super::"@)) by {
            assert(w.subrange(0, 7) =~= "super::"@);
        }
        assert(w.skip(7) =~= rest);
        lemma_super_quals_parse(name, (k - 1) as nat);
        assert(w[0] == "super::"@[0]);
        assert("super::"@[0] == 's');
    }
}

proof fn lemma_resolve_prefix(
    s1: Seq<ScopeView>,
    s2: Seq<ScopeView>,
    i: int,
    name: Seq<char>,
    up: int,
)
    requires
        i < s1.len(),
        i < s2.len(),
        forall|j: int| 0 <= j <= i ==> (#[trigger] s1[j]) == s2[j],
    ensures
        resolve_from(s1, i, name, up) == resolve_from(s2, i, name, up),
    decreases i + 1,
{
    if i >= 0 {
        lemma_resolve_prefix(
            s1,
            s2,
            i - 1,
            name,
            if s1[i].namespace {
                up - 1
            } else {
                up
            },
        );
    }
}

proof fn lemma_pushed_walk(base: Seq<ScopeView>, pushed: Seq<ScopeView>, name: Seq<char>)
    requires
        forall|j: int| 0 <= j < pushed.len() ==> (#[trigger] pushed[j]).namespace,
        forall|j: int|
            0 <= j < pushed.len() ==> ((#[trigger] pushed[j]).vars.contains_key(name) ==> !(
            pushed[j].vars[name] is Function)),
    ensures
        resolve_from(base + pushed, base.len() + pushed.len() - 1, name, pushed.len() as int)
            == resolve_from(base + pushed, base.len() - 1, name, 0),
    decreases pushed.len(),
{
    let all = base + pushed;
    let k = pushed.len() as int;
    if k > 0 {
        let top = base.len() + k - 1;
        assert(all[top] == pushed[k - 1]);
        assert(all[top].namespace);
        assert(all[top].vars.contains_key(name) ==> !(all[top].vars[name] is Function));
        assert(resolve_from(all, top, name, k) == resolve_from(all, top - 1, name, k - 1));
        let shorter = base + pushed.drop_last();
        assert(forall|j: int| 0 <= j <= top - 1 ==> (#[trigger] all[j]) == shorter[j]);
        lemma_resolve_prefix(all, shorter, top - 1, name, k - 1);
        assert(forall|j: int|
            0 <= j < pushed.drop_last().len() ==> (#[trigger] pushed.drop_last()[j]) == pushed[j]);
        lemma_pushed_walk(base, pushed.drop_last(), name);
        lemma_resolve_prefix(all, shorter, base.len() - 1, name, 0);
    }
}

/// After nested namespace pushes, the name qualified by one `super::` per
/// push resolves exactly as the unqualified name did in the enclosing stack,
/// provided the pushed scopes bind it to no function.
pub proof fn lemma_super_reaches_enclosing(
    base: Seq<ScopeView>,
    pushed: Seq<ScopeView>,
    name: Seq<char>,
)
    requires
        base.len() >= 1,
        pushed.len() >= 1,
        forall|j: int| 0 <= j < pushed.len() ==> (#[trigger] pushed[j]).namespace,
        forall|j: int|
            0 <= j < pushed.len() ==> ((#[trigger] pushed[j]).vars.contains_key(name) ==> !(
            pushed[j].vars[name] is Function)),
        count_supers(name) == 0,
        !has_prefix(name, "global::"@),
    ensures
        resolve(base + pushed, super_quals(pushed.len()) + name) == resolve(base, name),
{
    reveal_strlit("super::");
    reveal_strlit("global::");
    let all = base + pushed;
    let w = super_quals(pushed.len()) + name;
    lemma_super_quals_parse(name, pushed.len());
    assert(!has_prefix(w, "global::"@)) by {
        assert(w[0] == 's');
        assert("global::"@[0] == 'g');
        if has_prefix(w, "global::"@) {
            assert(w[0] == "global::"@[0]);
        }
    }
    assert(base_name(w) == name);
    assert(climb_count(all, w) == pushed.len());
    lemma_pushed_walk(base, pushed, name);
    assert(resolve(all, w) == resolve_from(all, base.len() - 1, name, 0));
    assert(forall|j: int| 0 <= j < base.len() ==> (#[trigger] all[j]) == base[j]);
    lemma_resolve_prefix(all, base, base.len() - 1, name, 0);
    assert(base_name(name) == name) by {
        assert(count_supers(name) == 0);
    }
    assert(climb_count(base, name) == 0);
}

proof fn lemma_boundary_count_nonneg(scopes: Seq<ScopeView>)
    ensures
        boundary_count(scopes) >= 0,
    decreases scopes.len(),
{
    if scopes.len() > 0 {
        lemma_boundary_count_nonneg(scopes.drop_last());
    }
}

/// A `global::` qualifier means exactly as many `super::` qualifiers as the
/// stack has namespace boundaries.
pub proof fn lemma_global_equals_supers(scopes: Seq<ScopeView>, name: Seq<char>)
    requires
        count_supers(name) == 0,
        !has_prefix(name, "global::"@),
    ensures
        resolve(scopes, "global::"@ + name) == resolve(
            scopes,
            super_quals(boundary_count(scopes) as nat) + name,
        ),
{
    reveal_strlit("super::");
    reveal_strlit("global::");
    lemma_boundary_count_nonneg(scopes);
    let b = boundary_count(scopes) as nat;
    let g = "global::"@ + name;
    assert(has_prefix(g, "global::"@)) by {
        assert(g.subrange(0, 8) =~= "global::"@);
    }
    assert(g.skip(8) =~= name);
    assert(base_name(g) == name);
    assert(climb_count(scopes, g) == boundary_count(scopes));
    let w = super_quals(b) + name;
    lemma_super_quals_parse(name, b);
    assert(!has_prefix(w, "global::"@)) by {
        if b == 0 {
            assert(w =~= name);
        } else {
            assert(w[0] == 's');
            if has_prefix(w, "global::"@) {
                assert(w[0] == "global::"@[0]);
                assert("global::"@[0] == 'g');
            }
        }
    }
    assert(base_name(w) == name);
    assert(climb_count(scopes, w) == b);
}

} // verus!
