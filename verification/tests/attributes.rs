use transition::attr::{
    filter_members, is_ident, is_marker_attr, markers_well_formed, retained_attrs, AttrModel,
    Marker, MemberModel, PathModel,
};
use transition::generation::{
    filter_fields, generate_versioned_f_like_macros, generate_versioned_impls, path_ident,
    variant_macro_ident, ImplVisitor, StructModel,
};
use transition::version::{MetaItem, Version, Versions};

fn path(segments: &[&str]) -> PathModel {
    PathModel {
        leading_colon: false,
        segments: segments.iter().map(|s| s.to_string()).collect(),
        has_arguments: false,
    }
}

fn versions(texts: &[&str]) -> Versions {
    let items: Vec<MetaItem> = texts.iter().map(|t| MetaItem::Str(t.to_string())).collect();
    Versions::from_list(&items)
}

fn attr(segments: &[&str], texts: Option<&[&str]>) -> AttrModel {
    AttrModel { path: path(segments), versions: texts.map(versions) }
}

#[test]
fn markers_are_recognised() {
    assert!(is_marker_attr(&attr(&["transition", "field"], None), Marker::Field));
    assert!(is_marker_attr(&attr(&["transition", "field", "x"], None), Marker::Field));
    assert!(!is_marker_attr(&attr(&["transition", "field"], None), Marker::Variant));
    assert!(is_marker_attr(&attr(&["transition", "variant"], None), Marker::Variant));
    assert!(!is_marker_attr(&attr(&["field"], None), Marker::Field));
    assert!(!is_marker_attr(&attr(&["serde", "field"], None), Marker::Field));
    assert!(is_ident(&path(&["transition"]), "transition"));
    let mut colon = path(&["transition"]);
    colon.leading_colon = true;
    assert!(!is_ident(&colon, "transition"));
}

#[test]
fn filtering_keeps_listed_members() {
    let members = vec![
        MemberModel { attrs: vec![attr(&["doc"], None), attr(&["transition", "field"], Some(&["2", "3"]))] },
        MemberModel { attrs: vec![attr(&["transition", "field"], Some(&["1"]))] },
        MemberModel {
            attrs: vec![
                attr(&["transition", "field"], Some(&["1", "2"])),
                attr(&["transition", "field"], Some(&["2", "3"])),
            ],
        },
        MemberModel { attrs: vec![attr(&["serde", "skip"], None)] },
    ];
    assert!(markers_well_formed(&members, Marker::Field));
    let v2 = filter_members(&members, Marker::Field, &Version { version: 2 });
    let idx: Vec<usize> = v2.iter().map(|k| k.index).collect();
    assert_eq!(idx, vec![0, 2, 3]);
    assert_eq!(v2[0].attrs, vec![0]);
    assert!(v2[1].attrs.is_empty());
    assert_eq!(v2[2].attrs, vec![0]);
    let v1 = filter_members(&members, Marker::Field, &Version { version: 1 });
    let idx: Vec<usize> = v1.iter().map(|k| k.index).collect();
    assert_eq!(idx, vec![1, 3]);
    // markers of the other kind are ordinary attributes here
    let v9 = filter_members(&members, Marker::Variant, &Version { version: 9 });
    assert_eq!(v9.len(), 4);
    assert_eq!(v9[2].attrs, vec![0, 1]);
    let broken = vec![MemberModel { attrs: vec![attr(&["transition", "field"], None)] }];
    assert!(!markers_well_formed(&broken, Marker::Field));
    assert!(markers_well_formed(&broken, Marker::Variant));
}

#[test]
fn positional_fields_are_never_filtered() {
    let s = StructModel {
        ident: "W".to_string(),
        fields: vec![MemberModel { attrs: vec![attr(&["transition", "field"], Some(&["1"]))] }],
        named_fields: false,
    };
    assert!(filter_fields(&s, &Version { version: 2 }).is_none());
}

#[test]
fn bare_transition_attribute_is_dropped() {
    let attrs = vec![path(&["derive"]), path(&["transition"]), path(&["transition", "x"]), path(&["doc"])];
    assert_eq!(retained_attrs(&attrs), vec![0, 2, 3]);
}

#[test]
fn macro_names() {
    let arms = generate_versioned_f_like_macros("Test", &versions(&["10", "2"]));
    let got: Vec<(&str, &str)> =
        arms.iter().map(|a| (a.version_literal.as_str(), a.ident.as_str())).collect();
    assert_eq!(got, vec![("10", "TestV10"), ("2", "TestV2")]);
    assert_eq!(variant_macro_ident("Human"), "HumanVariant");
}

#[test]
fn impl_renaming() {
    let visitor = ImplVisitor {
        version: Version { version: 4 },
        struct_ident: vec!["A".to_string(), "B".to_string()],
    };
    assert_eq!(visitor.rename(&"B".to_string()), Some("BV4".to_string()));
    assert_eq!(visitor.rename(&"C".to_string()), None);
    let mut generic = path(&["A"]);
    generic.has_arguments = true;
    assert_eq!(visitor.rename_ident_path(&generic), None);
    assert_eq!(visitor.rename_ident_path(&path(&["A", "new"])), None);
    assert_eq!(visitor.rename_leading_segment(&path(&["A", "new"])), Some("AV4".to_string()));
    assert_eq!(path_ident(&path(&["A"])), Some("A".to_string()));
    assert_eq!(path_ident(&path(&["a", "A"])), None);
    // no structures and a self type that is not one identifier: no impls
    assert!(generate_versioned_impls(&None, &Some(path(&["m", "T"])), &versions(&["1"])).is_empty());
    assert!(generate_versioned_impls(&None, &None, &versions(&["1"])).is_empty());
}
