//! Attributes and the version markers on fields and variants.

use vstd::prelude::*;
use crate::version::{Version, Versions, lists_version};

verus! {

/// A path as it stands in an attribute or in code: whether it starts with
/// `::`, its segments, and whether any segment carries generic arguments.
#[derive(Clone, Debug)]
pub struct PathModel {
    pub leading_colon: bool,
    pub segments: Vec<String>,
    pub has_arguments: bool,
}

/// An attribute: its path, and the versions that its arguments list when
/// they read as `(versions("1", ...))`, else `None`.
#[derive(Clone, Debug)]
pub struct AttrModel {
    pub path: PathModel,
    pub versions: Option<Versions>,
}

/// A field of a struct or a variant of an enum, by its attributes.
#[derive(Clone, Debug)]
pub struct MemberModel {
    pub attrs: Vec<AttrModel>,
}

/// Which marker attribute restricts a member to some versions:
/// `transition::field` on fields, `transition::variant` on variants.
#[derive(Clone, Copy, Debug, PartialEq, Eq)]
pub enum Marker {
    Field,
    Variant,
}

/// A member that a version keeps: its index among the members, and the
/// indices of the attributes that it keeps, in their order.
#[derive(Clone, Debug)]
pub struct KeptMember {
    pub index: usize,
    pub attrs: Vec<usize>,
}

pub open spec fn transition_word() -> Seq<char> {
    seq!['t', 'r', 'a', 'n', 's', 'i', 't', 'i', 'o', 'n']
}

pub open spec fn marker_word(m: Marker) -> Seq<char> {
    match m {
        Marker::Field => seq!['f', 'i', 'e', 'l', 'd'],
        Marker::Variant => seq!['v', 'a', 'r', 'i', 'a', 'n', 't'],
    }
}

/// Whether `p` is nothing but the identifier `word`.
pub open spec fn path_is_ident(p: PathModel, word: Seq<char>) -> bool {
    &&& !p.leading_colon
    &&& p.segments@.len() == 1
    &&& !p.has_arguments
    &&& p.segments@[0]@ == word
}

/// Whether `a` is the marker `m`: its first two segments are `transition`
/// and the marker's word.
pub open spec fn is_marker(a: AttrModel, m: Marker) -> bool {
    &&& a.path.segments@.len() > 1
    &&& a.path.segments@[0]@ == transition_word()
    &&& a.path.segments@[1]@ == marker_word(m)
}

/// Whether every marker `m` among `attrs` lists its versions.
pub open spec fn markers_read(attrs: Seq<AttrModel>, m: Marker) -> bool {
    forall|j: int| 0 <= j < attrs.len() && #[trigger] is_marker(attrs[j], m) ==> attrs[j].versions is Some
}

/// Whether every marker `m` on every one of `members` lists its versions.
pub open spec fn members_markers_read(members: Seq<MemberModel>, m: Marker) -> bool {
    forall|i: int| 0 <= i < members.len() ==> markers_read(#[trigger] members[i].attrs@, m)
}

/// Whether version `v` keeps a member with attributes `attrs`: each of its
/// markers `m` lists `v`.
pub open spec fn member_kept(attrs: Seq<AttrModel>, m: Marker, v: u64) -> bool {
    forall|j: int| 0 <= j < attrs.len() && #[trigger] is_marker(attrs[j], m)
        ==> lists_version(attrs[j].versions.unwrap().0@, v)
}

/// The indices, below `n`, of the attributes among `attrs` that are not
/// the marker `m`, in order.
pub open spec fn kept_attrs_upto(attrs: Seq<AttrModel>, m: Marker, n: nat) -> Seq<usize>
    decreases n,
{
    if n == 0 {
        Seq::empty()
    } else {
        let prev = kept_attrs_upto(attrs, m, (n - 1) as nat);
        if is_marker(attrs[n - 1], m) {
            prev
        } else {
            prev.push((n - 1) as usize)
        }
    }
}

/// The indices of the attributes among `attrs` that are not the marker `m`.
pub open spec fn kept_attrs(attrs: Seq<AttrModel>, m: Marker) -> Seq<usize> {
    kept_attrs_upto(attrs, m, attrs.len())
}

/// The indices, below `n`, of the members that version `v` keeps, in order.
pub open spec fn kept_members_upto(members: Seq<MemberModel>, m: Marker, v: u64, n: nat) -> Seq<usize>
    decreases n,
{
    if n == 0 {
        Seq::empty()
    } else {
        let prev = kept_members_upto(members, m, v, (n - 1) as nat);
        if member_kept(members[n - 1].attrs@, m, v) {
            prev.push((n - 1) as usize)
        } else {
            prev
        }
    }
}

/// The indices of the members that version `v` keeps.
pub open spec fn kept_members(members: Seq<MemberModel>, m: Marker, v: u64) -> Seq<usize> {
    kept_members_upto(members, m, v, members.len())
}

/// Whether `r` is what version `v` makes of `members`: the members that it
/// keeps, in order, each with its attributes other than the marker `m`.
pub open spec fn filtered(members: Seq<MemberModel>, m: Marker, v: u64, r: Seq<KeptMember>) -> bool {
    let kept = kept_members(members, m, v);
    &&& r.len() == kept.len()
    &&& forall|k: int| 0 <= k < r.len() ==> {
        &&& (#[trigger] r[k]).index == kept[k]
        &&& r[k].attrs@ == kept_attrs(members[kept[k] as int].attrs@, m)
    }
}

fn text_is(s: &String, word: &str) -> (r: bool)
    ensures
        r == (s@ == word@),
{
    let w = String::from_str(word);
    s.eq(&w)
}

/// Whether `p` is nothing but the identifier `word`.
pub fn is_ident(p: &PathModel, word: &str) -> (r: bool)
    ensures
        r == path_is_ident(*p, word@),
{
    !p.leading_colon && p.segments.len() == 1 && !p.has_arguments && text_is(&p.segments[0], word)
}

/// Whether `a` is the marker `m`.
pub fn is_marker_attr(a: &AttrModel, m: Marker) -> (r: bool)
    ensures
        r == is_marker(*a, m),
{
    proof {
        reveal_strlit("transition");
        reveal_strlit("field");
        reveal_strlit("variant");
        assert("transition"@ =~= transition_word());
        assert("field"@ =~= marker_word(Marker::Field));
        assert("variant"@ =~= marker_word(Marker::Variant));
    }
    if a.path.segments.len() <= 1 {
        return false;
    }
    let word = match m {
        Marker::Field => "field",
        Marker::Variant => "variant",
    };
    text_is(&a.path.segments[0], "transition") && text_is(&a.path.segments[1], word)
}

/// Whether every marker `m` on `members` lists its versions.
pub fn markers_well_formed(members: &[MemberModel], m: Marker) -> (r: bool)
    ensures
        r == members_markers_read(members@, m),
{
    let mut i: usize = 0;
    while i < members.len()
        invariant
            i <= members@.len(),
            forall|k: int| 0 <= k < i ==> markers_read(#[trigger] members@[k].attrs@, m),
        decreases members@.len() - i,
    {
        let attrs = &members[i].attrs;
        let mut j: usize = 0;
        while j < attrs.len()
            invariant
                j <= attrs@.len(),
                i < members@.len(),
                attrs@ == members@[i as int].attrs@,
                forall|l: int| 0 <= l < j && #[trigger] is_marker(attrs@[l], m) ==> attrs@[l].versions is Some,
            decreases attrs@.len() - j,
        {
            if is_marker_attr(&attrs[j], m) && attrs[j].versions.is_none() {
                assert(!markers_read(members@[i as int].attrs@, m));
                return false;
            }
            j = j + 1;
        }
        i = i + 1;
    }
    true
}

/// What version `version` makes of `members`: the members whose every
/// marker `m` lists the version, in order, each without its markers.
pub fn filter_members(members: &[MemberModel], m: Marker, version: &Version) -> (r: Vec<KeptMember>)
    requires
        members_markers_read(members@, m),
    ensures
        filtered(members@, m, version.version, r@),
{
    let mut out: Vec<KeptMember> = Vec::new();
    let mut i: usize = 0;
    while i < members.len()
        invariant
            i <= members@.len(),
            members_markers_read(members@, m),
            out@.len() == kept_members_upto(members@, m, version.version, i as nat).len(),
            forall|k: int| 0 <= k < out@.len() ==> {
                &&& (#[trigger] out@[k]).index == kept_members_upto(members@, m, version.version, i as nat)[k]
                &&& out@[k].attrs@ == kept_attrs(members@[out@[k].index as int].attrs@, m)
            },
        decreases members@.len() - i,
    {
        let attrs = &members[i].attrs;
        assert(markers_read(members@[i as int].attrs@, m));
        let mut keep = true;
        let mut kept_attr_idx: Vec<usize> = Vec::new();
        let mut j: usize = 0;
        while j < attrs.len()
            invariant
                j <= attrs@.len(),
                markers_read(attrs@, m),
                keep == (forall|l: int| 0 <= l < j && #[trigger] is_marker(attrs@[l], m)
                    ==> lists_version(attrs@[l].versions.unwrap().0@, version.version)),
                kept_attr_idx@ == kept_attrs_upto(attrs@, m, j as nat),
            decreases attrs@.len() - j,
        {
            if is_marker_attr(&attrs[j], m) {
                match &attrs[j].versions {
                    Some(vs) => {
                        if !vs.contains(version) {
                            keep = false;
                        }
                    },
                    None => {},
                }
            } else {
                kept_attr_idx.push(j);
            }
            j = j + 1;
        }
        let ghost prev = kept_members_upto(members@, m, version.version, i as nat);
        if keep {
            out.push(KeptMember { index: i, attrs: kept_attr_idx });
        }
        proof {
            let next = kept_members_upto(members@, m, version.version, (i + 1) as nat);
            assert forall|k: int| 0 <= k < out@.len() implies {
                &&& (#[trigger] out@[k]).index == next[k]
                &&& out@[k].attrs@ == kept_attrs(members@[out@[k].index as int].attrs@, m)
            } by {
                if k < prev.len() {
                    assert(next[k] == prev[k]);
                }
            }
        }
        i = i + 1;
    }
    out
}

proof fn lemma_kept_members_upto(members: Seq<MemberModel>, m: Marker, v: u64, n: nat, j: int)
    requires
        n <= members.len(),
        members.len() <= usize::MAX,
        0 <= j < n,
    ensures
        kept_members_upto(members, m, v, n).contains(j as usize) <==> member_kept(members[j].attrs@, m, v),
    decreases n,
{
    let prev = kept_members_upto(members, m, v, (n - 1) as nat);
    assert forall|k: int| 0 <= k < prev.len() implies (#[trigger] prev[k]) < n - 1 by {
        lemma_kept_members_below(members, m, v, (n - 1) as nat, k);
    }
    if j < n - 1 {
        lemma_kept_members_upto(members, m, v, (n - 1) as nat, j);
        if member_kept(members[n - 1].attrs@, m, v) {
            let next = prev.push((n - 1) as usize);
            if next.contains(j as usize) {
                let w = choose|w: int| 0 <= w < next.len() && next[w] == j as usize;
                if w < prev.len() {
                    assert(prev[w] == j as usize);
                }
            }
            if prev.contains(j as usize) {
                let w = choose|w: int| 0 <= w < prev.len() && prev[w] == j as usize;
                assert(next[w] == j as usize);
            }
        }
    } else {
        if member_kept(members[n - 1].attrs@, m, v) {
            let next = prev.push((n - 1) as usize);
            assert(next[prev.len() as int] == j as usize);
        } else {
            if prev.contains(j as usize) {
                let w = choose|w: int| 0 <= w < prev.len() && prev[w] == j as usize;
                assert(prev[w] < n - 1);
            }
        }
    }
}

proof fn lemma_kept_members_below(members: Seq<MemberModel>, m: Marker, v: u64, n: nat, k: int)
    requires
        n <= members.len(),
        members.len() <= usize::MAX,
        0 <= k < kept_members_upto(members, m, v, n).len(),
    ensures
        kept_members_upto(members, m, v, n)[k] < n,
    decreases n,
{
    if n > 0 {
        let prev = kept_members_upto(members, m, v, (n - 1) as nat);
        if k < prev.len() {
            lemma_kept_members_below(members, m, v, (n - 1) as nat, k);
        }
    }
}

/// A version keeps a member exactly when each of the member's markers lists
/// that version; so a member without markers is kept by every version.
pub proof fn lemma_member_kept_iff_listed(members: Seq<MemberModel>, m: Marker, v: u64, j: int)
    requires
        members.len() <= usize::MAX,
        0 <= j < members.len(),
    ensures
        kept_members(members, m, v).contains(j as usize) <==> member_kept(members[j].attrs@, m, v),
        (forall|l: int| 0 <= l < members[j].attrs@.len() ==> !is_marker(#[trigger] members[j].attrs@[l], m))
            ==> kept_members(members, m, v).contains(j as usize),
{
    lemma_kept_members_upto(members, m, v, members.len(), j);
}

/// The indices, below `n`, of the attributes among `attrs` that are not
/// the bare `#[transition]`, in order.
pub open spec fn retained_upto(attrs: Seq<PathModel>, n: nat) -> Seq<usize>
    decreases n,
{
    if n == 0 {
        Seq::empty()
    } else {
        let prev = retained_upto(attrs, (n - 1) as nat);
        if path_is_ident(attrs[n - 1], transition_word()) {
            prev
        } else {
            prev.push((n - 1) as usize)
        }
    }
}

/// The indices of the attributes of an annotated item that stay on the
/// generated items: all but the bare `#[transition]`, in order.
pub fn retained_attrs(attrs: &[PathModel]) -> (r: Vec<usize>)
    ensures
        r@ == retained_upto(attrs@, attrs@.len()),
{
    let mut out: Vec<usize> = Vec::new();
    let mut i: usize = 0;
    while i < attrs.len()
        invariant
            i <= attrs@.len(),
            out@ == retained_upto(attrs@, i as nat),
        decreases attrs@.len() - i,
    {
        proof {
            reveal_strlit("transition");
            assert("transition"@ =~= transition_word());
        }
        if !is_ident(&attrs[i], "transition") {
            out.push(i);
        }
        i = i + 1;
    }
    out
}


proof fn lemma_retained_props(attrs: Seq<PathModel>, n: nat)
    requires
        n <= attrs.len(),
        attrs.len() <= usize::MAX,
    ensures
        forall|k: int| 0 <= k < retained_upto(attrs, n).len() ==> (#[trigger] retained_upto(attrs, n)[k]) < n,
        forall|k1: int, k2: int| 0 <= k1 < k2 < retained_upto(attrs, n).len() ==> retained_upto(attrs, n)[k1] < retained_upto(attrs, n)[k2],
        forall|j: int| 0 <= j < n ==> (retained_upto(attrs, n).contains(j as usize) <==> !path_is_ident(#[trigger] attrs[j], transition_word())),
    decreases n,
{
    if n > 0 {
        let np = (n - 1) as nat;
        lemma_retained_props(attrs, np);
        let prev = retained_upto(attrs, np);
        let cur = retained_upto(attrs, n);
        assert forall|j: int| 0 <= j < n implies (cur.contains(j as usize) <==> !path_is_ident(#[trigger] attrs[j], transition_word())) by {
            if cur.contains(j as usize) {
                let w = choose|w: int| 0 <= w < cur.len() && cur[w] == j as usize;
                if w < prev.len() {
                    assert(prev[w] == j as usize);
                    assert(prev.contains(j as usize));
                }
            }
            if j < n - 1 && prev.contains(j as usize) {
                let w = choose|w: int| 0 <= w < prev.len() && prev[w] == j as usize;
                assert(cur[w] == j as usize);
            }
            if j == n - 1 {
                if prev.contains(j as usize) {
                    let w = choose|w: int| 0 <= w < prev.len() && prev[w] == j as usize;
                    assert(prev[w] < n - 1);
                }
                if !path_is_ident(attrs[j], transition_word()) {
                    assert(cur[prev.len() as int] == j as usize);
                }
            }
        }
    }
}

proof fn lemma_kept_attrs_props(attrs: Seq<AttrModel>, m: Marker, n: nat)
    requires
        n <= attrs.len(),
        attrs.len() <= usize::MAX,
    ensures
        forall|k: int| 0 <= k < kept_attrs_upto(attrs, m, n).len() ==> (#[trigger] kept_attrs_upto(attrs, m, n)[k]) < n,
        forall|k1: int, k2: int| 0 <= k1 < k2 < kept_attrs_upto(attrs, m, n).len() ==> kept_attrs_upto(attrs, m, n)[k1] < kept_attrs_upto(attrs, m, n)[k2],
        forall|j: int| 0 <= j < n ==> (kept_attrs_upto(attrs, m, n).contains(j as usize) <==> !is_marker(#[trigger] attrs[j], m)),
    decreases n,
{
    if n > 0 {
        let np = (n - 1) as nat;
        lemma_kept_attrs_props(attrs, m, np);
        let prev = kept_attrs_upto(attrs, m, np);
        let cur = kept_attrs_upto(attrs, m, n);
        assert forall|j: int| 0 <= j < n implies (cur.contains(j as usize) <==> !is_marker(#[trigger] attrs[j], m)) by {
            if cur.contains(j as usize) {
                let w = choose|w: int| 0 <= w < cur.len() && cur[w] == j as usize;
                if w < prev.len() {
                    assert(prev[w] == j as usize);
                    assert(prev.contains(j as usize));
                }
            }
            if j < n - 1 && prev.contains(j as usize) {
                let w = choose|w: int| 0 <= w < prev.len() && prev[w] == j as usize;
                assert(cur[w] == j as usize);
            }
            if j == n - 1 {
                if prev.contains(j as usize) {
                    let w = choose|w: int| 0 <= w < prev.len() && prev[w] == j as usize;
                    assert(prev[w] < n - 1);
                }
                if !is_marker(attrs[j], m) {
                    assert(cur[prev.len() as int] == j as usize);
                }
            }
        }
    }
}

proof fn lemma_kept_members_props(members: Seq<MemberModel>, m: Marker, v: u64, n: nat)
    requires
        n <= members.len(),
        members.len() <= usize::MAX,
    ensures
        forall|k: int| 0 <= k < kept_members_upto(members, m, v, n).len() ==> (#[trigger] kept_members_upto(members, m, v, n)[k]) < n,
        forall|k1: int, k2: int| 0 <= k1 < k2 < kept_members_upto(members, m, v, n).len() ==> kept_members_upto(members, m, v, n)[k1] < kept_members_upto(members, m, v, n)[k2],
        forall|j: int| 0 <= j < n ==> (kept_members_upto(members, m, v, n).contains(j as usize) <==> member_kept((#[trigger] members[j]).attrs@, m, v)),
    decreases n,
{
    if n > 0 {
        let np = (n - 1) as nat;
        lemma_kept_members_props(members, m, v, np);
        let prev = kept_members_upto(members, m, v, np);
        let cur = kept_members_upto(members, m, v, n);
        assert forall|j: int| 0 <= j < n implies (cur.contains(j as usize) <==> member_kept((#[trigger] members[j]).attrs@, m, v)) by {
            if cur.contains(j as usize) {
                let w = choose|w: int| 0 <= w < cur.len() && cur[w] == j as usize;
                if w < prev.len() {
                    assert(prev[w] == j as usize);
                    assert(prev.contains(j as usize));
                }
            }
            if j < n - 1 && prev.contains(j as usize) {
                let w = choose|w: int| 0 <= w < prev.len() && prev[w] == j as usize;
                assert(cur[w] == j as usize);
            }
            if j == n - 1 {
                if prev.contains(j as usize) {
                    let w = choose|w: int| 0 <= w < prev.len() && prev[w] == j as usize;
                    assert(prev[w] < n - 1);
                }
                if member_kept(members[j].attrs@, m, v) {
                    assert(cur[prev.len() as int] == j as usize);
                }
            }
        }
    }
}

/// Whether `kept` holds, in increasing order and once each, exactly the
/// indices of the attributes among `attrs` that are not a bare `#[transition]`.
pub open spec fn keeps_all_but_bare_transition(attrs: Seq<PathModel>, kept: Seq<usize>) -> bool {
    &&& forall|k: int| 0 <= k < kept.len() ==> (#[trigger] kept[k]) < attrs.len()
    &&& forall|k1: int, k2: int| 0 <= k1 < k2 < kept.len() ==> kept[k1] < kept[k2]
    &&& forall|j: int| 0 <= j < attrs.len() ==> (kept.contains(j as usize) <==> !{
        let p = #[trigger] attrs[j];
        &&& !p.leading_colon
        &&& p.segments@.len() == 1
        &&& !p.has_arguments
        &&& p.segments@[0]@ == seq!['t', 'r', 'a', 'n', 's', 'i', 't', 'i', 'o', 'n']
    })
}

/// The attributes that stay are exactly those that are not a bare
/// `#[transition]`, each once, in their order.
pub proof fn lemma_retained_attrs(attrs: Seq<PathModel>)
    requires
        attrs.len() <= usize::MAX,
    ensures
        keeps_all_but_bare_transition(attrs, retained_upto(attrs, attrs.len())),
{
    lemma_retained_props(attrs, attrs.len());
}

/// Whether `r` selects from `members` as version `v` must: the members
/// whose every marker `m` lists `v` (and no others), in their order, each
/// with exactly its attributes other than the marker `m`, in their order.
pub open spec fn selects_by_markers(members: Seq<MemberModel>, m: Marker, v: u64, r: Seq<KeptMember>) -> bool {
    &&& forall|k1: int, k2: int| 0 <= k1 < k2 < r.len() ==> r[k1].index < r[k2].index
    &&& forall|j: int| #![trigger members[j]] 0 <= j < members.len() ==> ((exists|k: int| 0 <= k < r.len() && #[trigger] r[k].index == j) <==> (
            forall|l: int| 0 <= l < members[j].attrs@.len() && is_marker(#[trigger] members[j].attrs@[l], m)
                ==> exists|x: int| 0 <= x < members[j].attrs@[l].versions.unwrap().0@.len()
                    && #[trigger] members[j].attrs@[l].versions.unwrap().0@[x].version == v))
    &&& forall|k: int| 0 <= k < r.len() ==> {
            let attrs = members[(#[trigger] r[k]).index as int].attrs@;
            &&& r[k].index < members.len()
            &&& forall|a1: int, a2: int| 0 <= a1 < a2 < r[k].attrs@.len() ==> r[k].attrs@[a1] < r[k].attrs@[a2]
            &&& forall|a: int| 0 <= a < attrs.len() ==> (r[k].attrs@.contains(a as usize) <==> !is_marker(#[trigger] attrs[a], m))
            &&& forall|x: int| 0 <= x < r[k].attrs@.len() ==> (#[trigger] r[k].attrs@[x]) < attrs.len()
        }
}

/// The members that version `v` keeps are exactly those whose every marker
/// `m` lists `v`, each once, in their order; each keeps exactly its
/// attributes other than the marker `m`, in their order.
pub proof fn lemma_filtered_members(members: Seq<MemberModel>, m: Marker, v: u64, r: Seq<KeptMember>)
    requires
        members.len() <= usize::MAX,
        filtered(members, m, v, r),
    ensures
        selects_by_markers(members, m, v, r),
{
    let kept = kept_members(members, m, v);
    lemma_kept_members_props(members, m, v, members.len());
    assert forall|j: int| #![trigger members[j]] 0 <= j < members.len() implies ((exists|k: int| 0 <= k < r.len() && #[trigger] r[k].index == j) <==> (
            forall|l: int| 0 <= l < members[j].attrs@.len() && is_marker(#[trigger] members[j].attrs@[l], m)
                ==> exists|x: int| 0 <= x < members[j].attrs@[l].versions.unwrap().0@.len()
                    && #[trigger] members[j].attrs@[l].versions.unwrap().0@[x].version == v)) by {
        if exists|k: int| 0 <= k < r.len() && #[trigger] r[k].index == j {
            let k = choose|k: int| 0 <= k < r.len() && #[trigger] r[k].index == j;
            assert(kept[k] == j as usize);
            assert(kept.contains(j as usize));
        }
        if member_kept(members[j].attrs@, m, v) {
            assert(kept.contains(j as usize));
            let k = choose|k: int| 0 <= k < kept.len() && kept[k] == j as usize;
            assert(r[k].index == j);
        }
    }
    assert forall|k: int| 0 <= k < r.len() implies {
        let attrs = members[(#[trigger] r[k]).index as int].attrs@;
        &&& r[k].index < members.len()
        &&& forall|a1: int, a2: int| 0 <= a1 < a2 < r[k].attrs@.len() ==> r[k].attrs@[a1] < r[k].attrs@[a2]
        &&& forall|a: int| 0 <= a < attrs.len() ==> (r[k].attrs@.contains(a as usize) <==> !is_marker(#[trigger] attrs[a], m))
        &&& forall|x: int| 0 <= x < r[k].attrs@.len() ==> (#[trigger] r[k].attrs@[x]) < attrs.len()
    } by {
        assert(r[k].index == kept[k]);
        let attrs = members[r[k].index as int].attrs@;
        assert(attrs.len() <= usize::MAX) by {
            assert(members[r[k].index as int].attrs.len() <= usize::MAX);
        }
        lemma_kept_attrs_props(attrs, m, attrs.len());
    }
}

} // verus!
