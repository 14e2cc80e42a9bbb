use transition::attr::{AttrModel, KeptMember, MemberModel, PathModel};
use transition::generation::{
    generate_versioned_impls, versioned, versioned_enum, EnumModel, StructModel,
};
use transition::version::{MetaItem, Version, Versions};
use transition::args::{impl_structures, StructuresToReplace};

fn path(segments: &[&str]) -> PathModel {
    PathModel {
        leading_colon: false,
        segments: segments.iter().map(|s| s.to_string()).collect(),
        has_arguments: false,
    }
}

fn versions(texts: &[&str]) -> Versions {
    let items: Vec<MetaItem> = texts.iter().map(|t| MetaItem::Str(t.to_string())).collect();
    Versions::from_list(&items)
}

fn marker(kind: &str, texts: &[&str]) -> AttrModel {
    AttrModel { path: path(&["transition", kind]), versions: Some(versions(texts)) }
}

fn plain_member() -> MemberModel {
    MemberModel { attrs: vec![] }
}

fn kept_indices(members: &Option<Vec<KeptMember>>) -> Vec<usize> {
    members.as_ref().unwrap().iter().map(|k| k.index).collect()
}

#[test]
fn basic() {
    // #[transition::versioned(versions("1", "2", "3"))]
    // struct Test { a: u64, #[transition::field(versions("3"))] b: u64 }
    let input = StructModel {
        ident: "Test".to_string(),
        fields: vec![plain_member(), MemberModel { attrs: vec![marker("field", &["3"])] }],
        named_fields: true,
    };
    let plan = versioned(&[], &input, versions(&["1", "2", "3"]));
    let names: Vec<&str> = plan.items.iter().map(|i| i.ident.as_str()).collect();
    assert_eq!(names, vec!["TestV1", "TestV2", "TestV3"]);
    assert_eq!(kept_indices(&plan.items[0].members), vec![0]);
    assert_eq!(kept_indices(&plan.items[1].members), vec![0]);
    assert_eq!(kept_indices(&plan.items[2].members), vec![0, 1]);
    // the marker itself does not stay on the field
    assert!(plan.items[2].members.as_ref().unwrap()[1].attrs.is_empty());
    let consts: Vec<(u64, usize)> =
        plan.items.iter().map(|i| (i.version.version, i.varint_size)).collect();
    assert_eq!(consts, vec![(1, 1), (2, 1), (3, 1)]);
    assert_eq!(plan.variant_macro, "TestVariant");
    let arms: Vec<(&str, &str)> =
        plan.arms.iter().map(|a| (a.version_literal.as_str(), a.ident.as_str())).collect();
    assert_eq!(arms, vec![("1", "TestV1"), ("2", "TestV2"), ("3", "TestV3")]);

    // #[transition::impl_version(versions("1", "2", "3"))] impl Test { ... }
    let visitors =
        generate_versioned_impls(&None, &Some(path(&["Test"])), &versions(&["1", "2", "3"]));
    assert_eq!(visitors.len(), 3);
    // `Test::test_method(self.a)` inside version 2
    assert_eq!(
        visitors[1].rename_leading_segment(&path(&["Test", "test_method"])),
        Some("TestV2".to_string())
    );
    assert_eq!(visitors[1].rename_ident_path(&path(&["Self"])), None);
    // #[transition::impl_version(versions("1", "2"), structures("Test"))]
    let visitors = generate_versioned_impls(
        &Some(vec!["Test".to_string()]),
        &Some(path(&["TestSerializer"])),
        &versions(&["1", "2"]),
    );
    assert_eq!(visitors.len(), 2);
    assert_eq!(visitors[0].rename_ident_path(&path(&["Test"])), Some("TestV1".to_string()));
    assert_eq!(visitors[0].rename_ident_path(&path(&["TestSerializer"])), None);
}

#[test]
fn enum_test() {
    // #[transition::versioned_enum(versions("1", "2", "3"))]
    // enum Human { Alice(Alice), Bob(Bob), #[transition::variant(versions("3"))] Charlie(Charlie) }
    let input = EnumModel {
        ident: "Human".to_string(),
        variants: vec![
            plain_member(),
            plain_member(),
            MemberModel { attrs: vec![marker("variant", &["3"])] },
        ],
    };
    let plan = versioned_enum(&[], &input, versions(&["1", "2", "3"]));
    let names: Vec<&str> = plan.items.iter().map(|i| i.ident.as_str()).collect();
    assert_eq!(names, vec!["HumanV1", "HumanV2", "HumanV3"]);
    assert_eq!(kept_indices(&plan.items[0].members), vec![0, 1]);
    assert_eq!(kept_indices(&plan.items[1].members), vec![0, 1]);
    assert_eq!(kept_indices(&plan.items[2].members), vec![0, 1, 2]);
    let visitors =
        generate_versioned_impls(&None, &Some(path(&["Human"])), &versions(&["3"]));
    assert_eq!(visitors.len(), 1);
    assert_eq!(visitors[0].version, Version { version: 3 });
    // `Self::Charlie(Charlie { c: 3 })` names no versioned type
    assert_eq!(visitors[0].rename_leading_segment(&path(&["Self", "Charlie"])), None);
    assert_eq!(visitors[0].rename_ident_path(&path(&["Charlie"])), None);
}

#[test]
fn tuple_struct() {
    // #[transition::versioned(versions("1", "2"))] struct Wrap(u64);
    let input = StructModel {
        ident: "Wrap".to_string(),
        fields: vec![plain_member()],
        named_fields: false,
    };
    let plan = versioned(&[], &input, versions(&["1", "2"]));
    let names: Vec<&str> = plan.items.iter().map(|i| i.ident.as_str()).collect();
    assert_eq!(names, vec!["WrapV1", "WrapV2"]);
    assert!(plan.items.iter().all(|i| i.members.is_none()));
    let arms: Vec<(&str, &str)> =
        plan.arms.iter().map(|a| (a.version_literal.as_str(), a.ident.as_str())).collect();
    assert_eq!(arms, vec![("1", "WrapV1"), ("2", "WrapV2")]);
    let visitors =
        generate_versioned_impls(&None, &Some(path(&["Wrap"])), &versions(&["1", "2"]));
    assert_eq!(visitors[0].rename_ident_path(&path(&["Wrap"])), Some("WrapV1".to_string()));
    assert_eq!(visitors[1].rename_ident_path(&path(&["Wrap"])), Some("WrapV2".to_string()));
    // #[transition::impl_version(versions("1", "2"), structure = "Wrap")]
    // impl Serializer<Wrap> for WrapSerializer { ... }
    let structure = StructuresToReplace::from_list(&[MetaItem::Str("Wrap".to_string())]).unwrap();
    let names = impl_structures(None, Some(structure));
    assert_eq!(names, Some(vec!["Wrap".to_string()]));
    let visitors =
        generate_versioned_impls(&names, &Some(path(&["WrapSerializer"])), &versions(&["1", "2"]));
    assert_eq!(visitors.len(), 2);
    assert_eq!(visitors[0].rename_ident_path(&path(&["Wrap"])), Some("WrapV1".to_string()));
    assert_eq!(visitors[1].rename_ident_path(&path(&["Wrap"])), Some("WrapV2".to_string()));
    assert_eq!(visitors[1].rename_ident_path(&path(&["WrapSerializer"])), None);
    // `Wrap(0)` in the deserializer is a call through a path expression
    assert_eq!(visitors[0].rename_leading_segment(&path(&["Wrap"])), Some("WrapV1".to_string()));
}

#[test]
fn version_order_does_not_matter() {
    let input = StructModel {
        ident: "Test".to_string(),
        fields: vec![plain_member(), MemberModel { attrs: vec![marker("field", &["3"])] }],
        named_fields: true,
    };
    let a = versioned(&[], &input, versions(&["3", "1", "2"]));
    let b = versioned(&[], &input, versions(&["1", "2", "3"]));
    assert_eq!(a.versions.0, b.versions.0);
    let names = |p: &transition::generation::VersionedPlan| {
        p.items.iter().map(|i| (i.ident.clone(), kept_indices(&i.members))).collect::<Vec<_>>()
    };
    assert_eq!(names(&a), names(&b));
    assert_eq!(a.arms.len(), 3);
    assert_eq!(a.arms[0].ident, "TestV1");
    let e = EnumModel { ident: "E".to_string(), variants: vec![plain_member()] };
    let x = versioned_enum(&[], &e, versions(&["2", "1"]));
    let names: Vec<&str> = x.items.iter().map(|i| i.ident.as_str()).collect();
    assert_eq!(names, vec!["EV1", "EV2"]);
}

#[test]
fn no_versions_reads_no_markers() {
    // with no versions nothing is generated, and unread markers are no bar
    let input = StructModel {
        ident: "Empty".to_string(),
        fields: vec![MemberModel {
            attrs: vec![AttrModel { path: path(&["transition", "field"]), versions: None }],
        }],
        named_fields: true,
    };
    let plan = versioned(&[], &input, versions(&[]));
    assert!(plan.items.is_empty());
    assert!(plan.arms.is_empty());
    let e = EnumModel {
        ident: "E".to_string(),
        variants: vec![MemberModel {
            attrs: vec![AttrModel { path: path(&["transition", "variant"]), versions: None }],
        }],
    };
    assert!(versioned_enum(&[], &e, versions(&[])).items.is_empty());
}
