//! What the attribute macros generate for each version: the per-version
//! items and their names, the version-selecting macro arms, and the renaming
//! of the versioned types inside per-version impls.

use vstd::prelude::*;
use crate::decimal::{decimal, push_decimal, parse_u64_spec, lemma_parse_decimal_round_trip};
use crate::version::{
    Version, Versions, versioned_ident, varint_len, ascending, pow128, lemma_to_ident_injective,
    lemma_ascending_unique, lemma_varint_len_exact,
};
use crate::attr::{
    PathModel, MemberModel, KeptMember, Marker, members_markers_read, filtered, filter_members,
    retained_attrs, retained_upto, selects_by_markers, keeps_all_but_bare_transition,
    lemma_filtered_members, lemma_retained_attrs,
};

verus! {

/// A struct to version: its name, its fields, and whether the fields are
/// named (`struct S { a: u64 }`) rather than positional or absent.
#[derive(Clone, Debug)]
pub struct StructModel {
    pub ident: String,
    pub fields: Vec<MemberModel>,
    pub named_fields: bool,
}

/// An enum to version: its name and its variants.
#[derive(Clone, Debug)]
pub struct EnumModel {
    pub ident: String,
    pub variants: Vec<MemberModel>,
}

/// One generated version of an item: the version, the item's new name, the
/// members it keeps (`None`: all of them, untouched), and the byte size of
/// the version number as a varint.
#[derive(Clone, Debug)]
pub struct VersionedItem {
    pub version: Version,
    pub ident: String,
    pub members: Option<Vec<KeptMember>>,
    pub varint_size: usize,
}

/// One arm of the macros that name a version's type: the version's literal
/// text, and the type's name.
#[derive(Clone, Debug)]
pub struct MacroArm {
    pub version_literal: String,
    pub ident: String,
}

/// Everything `#[versioned]` or `#[versioned_enum]` generates: the versions in
/// ascending order, the per-version items, the macro arms, the name of the
/// variant macro, and the indices of the item attributes that stay.
#[derive(Clone, Debug)]
pub struct VersionedPlan {
    pub versions: Versions,
    pub items: Vec<VersionedItem>,
    pub arms: Vec<MacroArm>,
    pub variant_macro: String,
    pub kept_attrs: Vec<usize>,
}

/// Whether `item` is version `v` of the item named `ident`.
pub open spec fn item_for(item: VersionedItem, ident: Seq<char>, v: Version) -> bool {
    &&& item.version == v
    &&& item.ident@ == versioned_ident(ident, v.version)
    &&& item.varint_size as nat == varint_len(v.version as nat)
}

/// Whether `items` are the versions `vs` of struct `input`, one each, in order.
pub open spec fn struct_items(input: StructModel, vs: Seq<Version>, items: Seq<VersionedItem>) -> bool {
    &&& items.len() == vs.len()
    &&& forall|i: int| 0 <= i < items.len() ==> {
        &&& item_for(#[trigger] items[i], input.ident@, vs[i])
        &&& if input.named_fields {
            items[i].members matches Some(km)
                && filtered(input.fields@, Marker::Field, vs[i].version, km@)
        } else {
            items[i].members is None
        }
    }
}

/// Whether `items` are the versions `vs` of enum `input`, one each, in order.
pub open spec fn enum_items(input: EnumModel, vs: Seq<Version>, items: Seq<VersionedItem>) -> bool {
    &&& items.len() == vs.len()
    &&& forall|i: int| 0 <= i < items.len() ==> {
        &&& item_for(#[trigger] items[i], input.ident@, vs[i])
        &&& items[i].members matches Some(km)
        &&& filtered(input.variants@, Marker::Variant, vs[i].version, km@)
    }
}

/// Whether `arms` are the macro arms for versions `vs` of the item `ident`.
pub open spec fn macro_arms(ident: Seq<char>, vs: Seq<Version>, arms: Seq<MacroArm>) -> bool {
    &&& arms.len() == vs.len()
    &&& forall|i: int| 0 <= i < arms.len() ==> {
        &&& (#[trigger] arms[i]).version_literal@ == decimal(vs[i].version as nat)
        &&& arms[i].ident@ == versioned_ident(ident, vs[i].version)
    }
}

/// The name of the macro that names each version's enum variant.
pub open spec fn variant_macro_name(ident: Seq<char>) -> Seq<char> {
    ident + seq!['V', 'a', 'r', 'i', 'a', 'n', 't']
}

/// Whether `r` is what `#[versioned]` generates for struct `input` with item
/// attributes `attrs` and the listed `versions`: the versions in ascending
/// order, one struct per version in that order, the macro arms, the variant
/// macro's name, and the attributes that stay.
pub open spec fn struct_plan(attrs: Seq<PathModel>, input: StructModel, versions: Seq<Version>, r: VersionedPlan) -> bool {
    &&& ascending(r.versions.0@)
    &&& r.versions.0@.to_multiset() == versions.to_multiset()
    &&& struct_items(input, r.versions.0@, r.items@)
    &&& macro_arms(input.ident@, r.versions.0@, r.arms@)
    &&& r.variant_macro@ == variant_macro_name(input.ident@)
    &&& r.kept_attrs@ == retained_upto(attrs, attrs.len())
}

/// Whether `r` is what `#[versioned_enum]` generates for enum `input` with
/// item attributes `attrs` and the listed `versions`.
pub open spec fn enum_plan(attrs: Seq<PathModel>, input: EnumModel, versions: Seq<Version>, r: VersionedPlan) -> bool {
    &&& ascending(r.versions.0@)
    &&& r.versions.0@.to_multiset() == versions.to_multiset()
    &&& enum_items(input, r.versions.0@, r.items@)
    &&& macro_arms(input.ident@, r.versions.0@, r.arms@)
    &&& r.variant_macro@ == variant_macro_name(input.ident@)
    &&& r.kept_attrs@ == retained_upto(attrs, attrs.len())
}

/// Whether two generated items agree: same version, name, varint size, and
/// the same kept members with the same kept attributes.
pub open spec fn same_item(x: VersionedItem, y: VersionedItem) -> bool {
    &&& x.version == y.version
    &&& x.ident@ == y.ident@
    &&& x.varint_size == y.varint_size
    &&& match (x.members, y.members) {
        (None, None) => true,
        (Some(a), Some(b)) => a@.len() == b@.len() && forall|k: int| 0 <= k < a@.len() ==> {
            &&& (#[trigger] a@[k]).index == b@[k].index
            &&& a@[k].attrs@ == b@[k].attrs@
        },
        _ => false,
    }
}

/// Whether two plans generate the same code.
pub open spec fn same_plan(p: VersionedPlan, q: VersionedPlan) -> bool {
    &&& p.versions.0@ == q.versions.0@
    &&& p.items@.len() == q.items@.len()
    &&& forall|i: int| 0 <= i < p.items@.len() ==> same_item(#[trigger] p.items@[i], q.items@[i])
    &&& p.arms@.len() == q.arms@.len()
    &&& forall|i: int| 0 <= i < p.arms@.len() ==> {
        &&& (#[trigger] p.arms@[i]).version_literal@ == q.arms@[i].version_literal@
        &&& p.arms@[i].ident@ == q.arms@[i].ident@
    }
    &&& p.variant_macro@ == q.variant_macro@
    &&& p.kept_attrs@ == q.kept_attrs@
}

/// Two lists of the same versions, in whatever order, make `#[versioned]`
/// generate the same code, in ascending order of version.
pub proof fn lemma_versioned_order_independent(
    attrs: Seq<PathModel>,
    input: StructModel,
    v1: Seq<Version>,
    v2: Seq<Version>,
    p1: VersionedPlan,
    p2: VersionedPlan,
)
    requires
        v1.to_multiset() == v2.to_multiset(),
        struct_plan(attrs, input, v1, p1),
        struct_plan(attrs, input, v2, p2),
    ensures
        same_plan(p1, p2),
        ascending(p1.versions.0@),
{
    lemma_ascending_unique(p1.versions.0@, p2.versions.0@);
    let vs = p1.versions.0@;
    assert forall|i: int| 0 <= i < p1.items@.len() implies same_item(#[trigger] p1.items@[i], p2.items@[i]) by {
        assert(item_for(p1.items@[i], input.ident@, vs[i]));
        assert(item_for(p2.items@[i], input.ident@, vs[i]));
    }
    assert forall|i: int| 0 <= i < p1.arms@.len() implies {
        &&& (#[trigger] p1.arms@[i]).version_literal@ == p2.arms@[i].version_literal@
        &&& p1.arms@[i].ident@ == p2.arms@[i].ident@
    } by {
        assert(p2.arms@[i].version_literal@ == decimal(vs[i].version as nat));
    }
}

/// Two lists of the same versions, in whatever order, make
/// `#[versioned_enum]` generate the same code, in ascending order of version.
pub proof fn lemma_versioned_enum_order_independent(
    attrs: Seq<PathModel>,
    input: EnumModel,
    v1: Seq<Version>,
    v2: Seq<Version>,
    p1: VersionedPlan,
    p2: VersionedPlan,
)
    requires
        v1.to_multiset() == v2.to_multiset(),
        enum_plan(attrs, input, v1, p1),
        enum_plan(attrs, input, v2, p2),
    ensures
        same_plan(p1, p2),
        ascending(p1.versions.0@),
{
    lemma_ascending_unique(p1.versions.0@, p2.versions.0@);
    let vs = p1.versions.0@;
    assert forall|i: int| 0 <= i < p1.items@.len() implies same_item(#[trigger] p1.items@[i], p2.items@[i]) by {
        assert(item_for(p1.items@[i], input.ident@, vs[i]));
        assert(item_for(p2.items@[i], input.ident@, vs[i]));
    }
    assert forall|i: int| 0 <= i < p1.arms@.len() implies {
        &&& (#[trigger] p1.arms@[i]).version_literal@ == p2.arms@[i].version_literal@
        &&& p1.arms@[i].ident@ == p2.arms@[i].ident@
    } by {
        assert(p2.arms@[i].version_literal@ == decimal(vs[i].version as nat));
    }
}

/// The fields that version `version` keeps of `input`; `None` for a struct
/// whose fields are not named, which every version keeps whole.
pub fn filter_fields(input: &StructModel, version: &Version) -> (r: Option<Vec<KeptMember>>)
    requires
        input.named_fields ==> members_markers_read(input.fields@, Marker::Field),
    ensures
        if input.named_fields {
            r matches Some(km) && filtered(input.fields@, Marker::Field, version.version, km@)
        } else {
            r is None
        },
{
    if input.named_fields {
        Some(filter_members(input.fields.as_slice(), Marker::Field, version))
    } else {
        None
    }
}

/// The variants that version `version` keeps of `input`.
pub fn filter_variants(input: &EnumModel, version: &Version) -> (r: Vec<KeptMember>)
    requires
        members_markers_read(input.variants@, Marker::Variant),
    ensures
        filtered(input.variants@, Marker::Variant, version.version, r@),
{
    filter_members(input.variants.as_slice(), Marker::Variant, version)
}

/// One struct for each of `versions`, in their order: renamed for its
/// version, with the fields that its version keeps.
pub fn generate_versioned_struct(input: &StructModel, versions: &Versions) -> (r: Vec<VersionedItem>)
    requires
        versions.0@.len() > 0 && input.named_fields ==> members_markers_read(input.fields@, Marker::Field),
    ensures
        struct_items(*input, versions.0@, r@),
{
    let mut out: Vec<VersionedItem> = Vec::new();
    let mut i: usize = 0;
    while i < versions.0.len()
        invariant
            i <= versions.0@.len(),
            versions.0@.len() > 0 && input.named_fields ==> members_markers_read(input.fields@, Marker::Field),
            struct_items(*input, versions.0@.take(i as int), out@),
        decreases versions.0@.len() - i,
    {
        let v = versions.0[i];
        let ident = v.to_ident(input.ident.as_str());
        let members = filter_fields(input, &v);
        let varint_size = v.varint_size();
        out.push(VersionedItem { version: v, ident, members, varint_size });
        i = i + 1;
    }
    assert(versions.0@.take(i as int) =~= versions.0@);
    out
}

/// One enum for each of `versions`, in their order: renamed for its
/// version, with the variants that its version keeps.
pub fn generate_versioned_enum(input: &EnumModel, versions: &Versions) -> (r: Vec<VersionedItem>)
    requires
        versions.0@.len() > 0 ==> members_markers_read(input.variants@, Marker::Variant),
    ensures
        enum_items(*input, versions.0@, r@),
{
    let mut out: Vec<VersionedItem> = Vec::new();
    let mut i: usize = 0;
    while i < versions.0.len()
        invariant
            i <= versions.0@.len(),
            versions.0@.len() > 0 ==> members_markers_read(input.variants@, Marker::Variant),
            enum_items(*input, versions.0@.take(i as int), out@),
        decreases versions.0@.len() - i,
    {
        let v = versions.0[i];
        let ident = v.to_ident(input.ident.as_str());
        let members = filter_variants(input, &v);
        let varint_size = v.varint_size();
        out.push(VersionedItem { version: v, ident, members: Some(members), varint_size });
        i = i + 1;
    }
    assert(versions.0@.take(i as int) =~= versions.0@);
    out
}

/// The arms of the macros that name the type, and the enum variant, of each
/// of `versions` of the item `ident`: the version's text, and the type's name.
pub fn generate_versioned_f_like_macros(ident: &str, versions: &Versions) -> (r: Vec<MacroArm>)
    ensures
        macro_arms(ident@, versions.0@, r@),
{
    let mut out: Vec<MacroArm> = Vec::new();
    let mut i: usize = 0;
    while i < versions.0.len()
        invariant
            i <= versions.0@.len(),
            macro_arms(ident@, versions.0@.take(i as int), out@),
        decreases versions.0@.len() - i,
    {
        let v = versions.0[i];
        let mut literal = String::new();
        push_decimal(&mut literal, v.version);
        assert(literal@ =~= decimal(v.version as nat));
        let name = v.to_ident(ident);
        out.push(MacroArm { version_literal: literal, ident: name });
        i = i + 1;
    }
    assert(versions.0@.take(i as int) =~= versions.0@);
    out
}

/// The name of the macro that names each version's enum variant.
pub fn variant_macro_ident(ident: &str) -> (r: String)
    ensures
        r@ == variant_macro_name(ident@),
{
    let mut s = String::from_str(ident);
    proof {
        reveal_strlit("Variant");
    }
    s.append("Variant");
    assert(s@ =~= variant_macro_name(ident@));
    s
}

/// What `#[versioned(versions(...))]` generates for struct `input` with item
/// attributes `attrs`: `versions` in ascending order, one struct per version
/// in that order, the macro arms, and the attributes that stay.
pub fn versioned(attrs: &[PathModel], input: &StructModel, versions: Versions) -> (r: VersionedPlan)
    requires
        versions.0@.len() > 0 && input.named_fields ==> members_markers_read(input.fields@, Marker::Field),
    ensures
        struct_plan(attrs@, *input, versions.0@, r),
{
    let mut versions = versions;
    versions.sort();
    let items = generate_versioned_struct(input, &versions);
    let arms = generate_versioned_f_like_macros(input.ident.as_str(), &versions);
    let variant_macro = variant_macro_ident(input.ident.as_str());
    let kept_attrs = retained_attrs(attrs);
    VersionedPlan { versions, items, arms, variant_macro, kept_attrs }
}

/// What `#[versioned_enum(versions(...))]` generates for enum `input` with
/// item attributes `attrs`: `versions` in ascending order, one enum per
/// version in that order, the macro arms, and the attributes that stay.
pub fn versioned_enum(attrs: &[PathModel], input: &EnumModel, versions: Versions) -> (r: VersionedPlan)
    requires
        versions.0@.len() > 0 ==> members_markers_read(input.variants@, Marker::Variant),
    ensures
        enum_plan(attrs@, *input, versions.0@, r),
{
    let mut versions = versions;
    versions.sort();
    let items = generate_versioned_enum(input, &versions);
    let arms = generate_versioned_f_like_macros(input.ident.as_str(), &versions);
    let variant_macro = variant_macro_ident(input.ident.as_str());
    let kept_attrs = retained_attrs(attrs);
    VersionedPlan { versions, items, arms, variant_macro, kept_attrs }
}


/// The version text in each macro arm reads back as that arm's version, so
/// `Item!["3"]` names the type of version 3.
pub proof fn lemma_macro_arm_reads_back(ident: Seq<char>, vs: Seq<Version>, arms: Seq<MacroArm>, i: int)
    requires
        macro_arms(ident, vs, arms),
        0 <= i < arms.len(),
    ensures
        parse_u64_spec(arms[i].version_literal@) == Some(vs[i].version),
        names_version(arms[i].ident@, ident, vs[i].version),
{
    lemma_parse_decimal_round_trip(vs[i].version);
    lemma_versioned_ident_reads_back(ident, vs[i].version);
}

/// The name of version `v` of the item `ident` is `ident`, then `V`, then a
/// text that reads back as `v`.
pub proof fn lemma_versioned_ident_reads_back(ident: Seq<char>, v: u64)
    ensures
        names_version(versioned_ident(ident, v), ident, v),
{
    lemma_parse_decimal_round_trip(v);
    crate::decimal::lemma_decimal_nonempty(v as nat);
    let nn = versioned_ident(ident, v);
    assert(nn.subrange(0, ident.len() as int) =~= ident);
    assert(nn.subrange(ident.len() + 1int, nn.len() as int) =~= decimal(v as nat));
}

/// Items generated for two different versions have different names.
pub proof fn lemma_versioned_names_distinct(ident: Seq<char>, vs: Seq<Version>, items: Seq<VersionedItem>, i: int, j: int)
    requires
        items.len() == vs.len(),
        forall|k: int| 0 <= k < items.len() ==> item_for(#[trigger] items[k], ident, vs[k]),
        0 <= i < items.len(),
        0 <= j < items.len(),
        vs[i].version != vs[j].version,
    ensures
        items[i].ident@ != items[j].ident@,
{
    assert(item_for(items[i], ident, vs[i]));
    assert(item_for(items[j], ident, vs[j]));
    if items[i].ident@ == items[j].ident@ {
        lemma_to_ident_injective(ident, vs[i].version, vs[j].version);
    }
}

/// The text of an optional name.
pub open spec fn opt_text(o: Option<String>) -> Option<Seq<char>> {
    match o {
        Some(s) => Some(s@),
        None => None,
    }
}

/// Whether `list` holds a name with text `name`.
pub open spec fn names_listed(list: Seq<String>, name: Seq<char>) -> bool {
    exists|i: int| 0 <= i < list.len() && #[trigger] list[i]@ == name
}

/// The identifier that `p` is, where it is nothing but one identifier.
pub open spec fn plain_ident(p: PathModel) -> Option<Seq<char>> {
    if !p.leading_colon && p.segments@.len() == 1 && !p.has_arguments {
        Some(p.segments@[0]@)
    } else {
        None
    }
}

/// The identifier that `p` is, where it is nothing but one identifier.
pub fn path_ident(p: &PathModel) -> (r: Option<String>)
    ensures
        opt_text(r) == plain_ident(*p),
{
    if !p.leading_colon && p.segments.len() == 1 && !p.has_arguments {
        Some(p.segments[0].clone())
    } else {
        None
    }
}

/// Renames, inside one version's impl, the versioned types to that
/// version's types.
#[derive(Clone, Debug)]
pub struct ImplVisitor {
    pub version: Version,
    pub struct_ident: Vec<String>,
}

impl ImplVisitor {
    /// The new name of the identifier `name`: the version's type name where
    /// `name` is one of the versioned types, else none.
    pub open spec fn renamed(&self, name: Seq<char>) -> Option<Seq<char>> {
        if names_listed(self.struct_ident@, name) {
            Some(versioned_ident(name, self.version.version))
        } else {
            None
        }
    }

    /// The new name of the identifier `name`, if it changes.
    pub fn rename(&self, name: &String) -> (r: Option<String>)
        ensures
            opt_text(r) == self.renamed(name@),
    {
        let mut i: usize = 0;
        while i < self.struct_ident.len()
            invariant
                i <= self.struct_ident@.len(),
                forall|j: int| 0 <= j < i ==> self.struct_ident@[j]@ != name@,
            decreases self.struct_ident@.len() - i,
        {
            if self.struct_ident[i].eq(name) {
                return Some(self.version.to_ident(name.as_str()));
            }
            i = i + 1;
        }
        None
    }

    /// The new first segment of a path in a type, a plain path, a typed
    /// expression or a struct expression: only a path that is nothing but
    /// one identifier is renamed.
    pub fn rename_ident_path(&self, p: &PathModel) -> (r: Option<String>)
        ensures
            opt_text(r) == (match plain_ident(*p) {
                Some(n) => self.renamed(n),
                None => None,
            }),
    {
        match path_ident(p) {
            Some(n) => self.rename(&n),
            None => None,
        }
    }

    /// The new first segment of a path expression such as `Test::new`: its
    /// first segment is renamed whatever follows it.
    pub fn rename_leading_segment(&self, p: &PathModel) -> (r: Option<String>)
        requires
            p.segments@.len() > 0,
        ensures
            opt_text(r) == self.renamed(p.segments@[0]@),
    {
        self.rename(&p.segments[0])
    }
}

fn copy_names(list: &Vec<String>) -> (r: Vec<String>)
    ensures
        r@ == list@,
{
    let mut out: Vec<String> = Vec::new();
    let mut i: usize = 0;
    while i < list.len()
        invariant
            i <= list@.len(),
            out@ == list@.take(i as int),
        decreases list@.len() - i,
    {
        out.push(list[i].clone());
        assert(out@ =~= list@.take(i + 1));
        i = i + 1;
    }
    assert(list@.take(i as int) =~= list@);
    out
}

/// Whether `r` holds one renaming for each of `vs`, in order, each renaming
/// the names `names`.
pub open spec fn visitors_for(vs: Seq<Version>, names: Seq<String>, r: Seq<ImplVisitor>) -> bool {
    &&& r.len() == vs.len()
    &&& forall|i: int| 0 <= i < r.len() ==> {
        &&& (#[trigger] r[i]).version == vs[i]
        &&& r[i].struct_ident@ == names
    }
}

/// Whether `r` holds the renamings of `#[impl_version]` for the given
/// `structures(...)` names, the impl's self type and the listed versions.
pub open spec fn impls_for(
    struct_ident: Option<Vec<String>>,
    self_ty: Option<PathModel>,
    vs: Seq<Version>,
    r: Seq<ImplVisitor>,
) -> bool {
    match struct_ident {
        Some(names) => visitors_for(vs, names@, r),
        None => match self_ty {
            Some(p) => match plain_ident(p) {
                Some(n) => r.len() == vs.len() && forall|i: int| 0 <= i < r.len() ==> {
                    &&& (#[trigger] r[i]).version == vs[i]
                    &&& r[i].struct_ident@.len() == 1
                    &&& r[i].struct_ident@[0]@ == n
                },
                None => r.len() == 0,
            },
            None => r.len() == 0,
        },
    }
}

/// The renamings of `#[impl_version(versions(...))]`, one per version in the
/// order of `versions`: of the types that `structures(...)` names where it
/// is given, else of the impl's self type where that is one identifier;
/// none where it is neither.
pub fn generate_versioned_impls(
    struct_ident: &Option<Vec<String>>,
    self_ty: &Option<PathModel>,
    versions: &Versions,
) -> (r: Vec<ImplVisitor>)
    ensures
        impls_for(*struct_ident, *self_ty, versions.0@, r@),
{
    let names: Option<Vec<String>> = match struct_ident {
        Some(list) => Some(copy_names(list)),
        None => match self_ty {
            Some(p) => match path_ident(p) {
                Some(n) => {
                    let mut one: Vec<String> = Vec::new();
                    one.push(n);
                    Some(one)
                },
                None => None,
            },
            None => None,
        },
    };
    let mut out: Vec<ImplVisitor> = Vec::new();
    match names {
        Some(list) => {
            let mut i: usize = 0;
            while i < versions.0.len()
                invariant
                    i <= versions.0@.len(),
                    visitors_for(versions.0@.take(i as int), list@, out@),
                decreases versions.0@.len() - i,
            {
                out.push(ImplVisitor { version: versions.0[i], struct_ident: copy_names(&list) });
                i = i + 1;
            }
            assert(versions.0@.take(i as int) =~= versions.0@);
        },
        None => {},
    }
    out
}


/// Whether `name` is the name of version `v` of the item named `ident`:
/// `ident`, then `V`, then a text that reads back as `v`.
pub open spec fn names_version(name: Seq<char>, ident: Seq<char>, v: u64) -> bool {
    &&& name.len() > ident.len() + 1
    &&& name.subrange(0, ident.len() as int) == ident
    &&& name[ident.len() as int] == 'V'
    &&& parse_u64_spec(name.subrange(ident.len() + 1int, name.len() as int)) == Some(v)
}

/// Whether `size` is the number of base-128 digits of `v`.
pub open spec fn base128_digits(v: u64, size: usize) -> bool {
    &&& v < pow128(size as nat)
    &&& (size == 1 || pow128((size - 1) as nat) <= v)
}

proof fn lemma_item_for(item: VersionedItem, ident: Seq<char>, v: Version)
    requires
        item_for(item, ident, v),
    ensures
        item.version == v,
        names_version(item.ident@, ident, item.version.version),
        base128_digits(item.version.version, item.varint_size),
{
    let name = item.ident@;
    lemma_parse_decimal_round_trip(v.version);
    crate::decimal::lemma_decimal_nonempty(v.version as nat);
    assert(name.subrange(0, ident.len() as int) =~= ident);
    assert(name.subrange(ident.len() + 1int, name.len() as int) =~= decimal(v.version as nat));
    lemma_varint_len_exact(v.version as nat);
}

/// Each struct that `#[versioned]` generates is that of its own version:
/// it carries the version, a name that reads back as the version, the
/// version's size in base-128 digits (its varint bytes), and, where the
/// fields are named, exactly the fields whose every `transition::field`
/// marker lists that version number, in order, without their markers,
/// wherever the version stands in the list.
pub proof fn lemma_versioned_struct_law(input: StructModel, vs: Seq<Version>, items: Seq<VersionedItem>, i: int)
    requires
        struct_items(input, vs, items),
        0 <= i < items.len(),
    ensures
        items[i].version == vs[i],
        names_version(items[i].ident@, input.ident@, items[i].version.version),
        base128_digits(items[i].version.version, items[i].varint_size),
        input.named_fields ==> (items[i].members matches Some(km)
            && selects_by_markers(input.fields@, Marker::Field, items[i].version.version, km@)),
        !input.named_fields ==> items[i].members is None,
{
    lemma_item_for(items[i], input.ident@, vs[i]);
    if input.named_fields {
        let km = items[i].members.unwrap();
        assert(input.fields@.len() <= usize::MAX) by {
            assert(input.fields.len() <= usize::MAX);
        }
        lemma_filtered_members(input.fields@, Marker::Field, vs[i].version, km@);
    }
}

/// Each enum that `#[versioned_enum]` generates is that of its own version:
/// it carries the version, a name that reads back as the version, the
/// version's size in base-128 digits, and exactly the variants whose every
/// `transition::variant` marker lists that version number, in order,
/// without their markers, wherever the version stands in the list.
pub proof fn lemma_versioned_enum_law(input: EnumModel, vs: Seq<Version>, items: Seq<VersionedItem>, i: int)
    requires
        enum_items(input, vs, items),
        0 <= i < items.len(),
    ensures
        items[i].version == vs[i],
        names_version(items[i].ident@, input.ident@, items[i].version.version),
        base128_digits(items[i].version.version, items[i].varint_size),
        items[i].members matches Some(km)
            && selects_by_markers(input.variants@, Marker::Variant, items[i].version.version, km@),
{
    lemma_item_for(items[i], input.ident@, vs[i]);
    let km = items[i].members.unwrap();
    assert(input.variants@.len() <= usize::MAX) by {
        assert(input.variants.len() <= usize::MAX);
    }
    lemma_filtered_members(input.variants@, Marker::Variant, vs[i].version, km@);
}

/// `#[versioned]` and `#[versioned_enum]` keep on the generated items every
/// attribute of the annotated item but a bare `#[transition]`, in order.
pub proof fn lemma_versioned_attrs_law(attrs: Seq<PathModel>, input: StructModel, e: EnumModel, vs: Seq<Version>, p: VersionedPlan, q: VersionedPlan)
    requires
        attrs.len() <= usize::MAX,
        struct_plan(attrs, input, vs, p),
        enum_plan(attrs, e, vs, q),
    ensures
        keeps_all_but_bare_transition(attrs, p.kept_attrs@),
        keeps_all_but_bare_transition(attrs, q.kept_attrs@),
{
    lemma_retained_attrs(attrs);
}

/// With `structures(...)` given, every version's impl renames exactly the
/// listed names, each to its name for that version; without it, exactly
/// the impl's self type where that is one identifier, and there is no impl
/// where it is not.
pub proof fn lemma_impl_renaming_law(
    struct_ident: Option<Vec<String>>,
    self_ty: Option<PathModel>,
    vs: Seq<Version>,
    r: Seq<ImplVisitor>,
    i: int,
    name: Seq<char>,
)
    requires
        impls_for(struct_ident, self_ty, vs, r),
    ensures
        struct_ident matches Some(names) ==> r.len() == vs.len(),
        (struct_ident is None && (self_ty is None || plain_ident(self_ty.unwrap()) is None)) ==> r.len() == 0,
        0 <= i < r.len() ==> {
            &&& r[i].version == vs[i]
            &&& (exists|k: int| 0 <= k < r[i].struct_ident@.len() && #[trigger] r[i].struct_ident@[k]@ == name) <==> (
                match struct_ident {
                    Some(names) => exists|k: int| 0 <= k < names@.len() && #[trigger] names@[k]@ == name,
                    None => !self_ty.unwrap().leading_colon && self_ty.unwrap().segments@.len() == 1
                        && !self_ty.unwrap().has_arguments && self_ty.unwrap().segments@[0]@ == name,
                })
            &&& r[i].renamed(name) is Some <==> (exists|k: int| 0 <= k < r[i].struct_ident@.len() && #[trigger] r[i].struct_ident@[k]@ == name)
            &&& r[i].renamed(name) matches Some(new_name) ==> names_version(new_name, name, vs[i].version)
        },
{
    if 0 <= i < r.len() {
        match struct_ident {
            Some(names) => {
                assert(r[i].struct_ident@ == names@);
            },
            None => {
                assert(r[i].struct_ident@.len() == 1);
                if exists|k: int| 0 <= k < r[i].struct_ident@.len() && #[trigger] r[i].struct_ident@[k]@ == name {
                    let k = choose|k: int| 0 <= k < r[i].struct_ident@.len() && #[trigger] r[i].struct_ident@[k]@ == name;
                    assert(k == 0);
                }
                if plain_ident(self_ty.unwrap()) == Some(name) {
                    assert(r[i].struct_ident@[0]@ == name);
                }
            },
        }
        if r[i].renamed(name) is Some {
            let v = r[i].version.version;
            lemma_parse_decimal_round_trip(v);
            crate::decimal::lemma_decimal_nonempty(v as nat);
            let nn = versioned_ident(name, v);
            assert(nn.subrange(0, name.len() as int) =~= name);
            assert(nn.subrange(name.len() + 1int, nn.len() as int) =~= decimal(v as nat));
        }
    }
}

} // verus!
