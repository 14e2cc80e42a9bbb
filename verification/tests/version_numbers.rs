use transition::args::{impl_structures, StructuresToReplace};
use transition::decimal::{parse_u64, push_decimal};
use transition::version::{MetaItem, Version, Versions};

fn items(texts: &[&str]) -> Vec<MetaItem> {
    texts.iter().map(|t| MetaItem::Str(t.to_string())).collect()
}

#[test]
fn parse_accepts_what_str_parse_accepts() {
    let cases = [
        "0", "7", "+7", "007", "18446744073709551615", "18446744073709551616", "", "+", "-1",
        "1a", " 1", "1_000", "99999999999999999999999",
    ];
    for c in cases {
        assert_eq!(parse_u64(c), c.parse::<u64>().ok(), "{}", c);
    }
    assert_eq!(parse_u64("+42"), Some(42));
    assert_eq!(parse_u64("18446744073709551615"), Some(u64::MAX));
    assert_eq!(parse_u64("18446744073709551616"), None);
    assert_eq!(parse_u64(""), None);
}

#[test]
fn decimal_round_trip() {
    for n in [0u64, 1, 9, 10, 99, 100, 12345, u64::MAX] {
        let mut s = String::new();
        push_decimal(&mut s, n);
        assert_eq!(s, n.to_string());
        assert_eq!(parse_u64(&s), Some(n));
    }
    let mut s = String::from("x");
    push_decimal(&mut s, 305);
    assert_eq!(s, "x305");
}

#[test]
fn version_names_and_parsing() {
    assert_eq!(Version { version: 12 }.to_ident("Test"), "TestV12");
    assert_eq!(Version { version: 0 }.to_ident(""), "V0");
    assert_ne!(Version { version: 1 }.to_ident("A"), Version { version: 11 }.to_ident("A"));
    assert_eq!(Version::parse("07"), Some(Version { version: 7 }));
    assert_eq!(Version::parse("x"), None);
    assert_eq!(Version::from_string("+3"), Version { version: 3 });
}

#[test]
fn varint_sizes() {
    let expect = [
        (0u64, 1usize),
        (1, 1),
        (127, 1),
        (128, 2),
        (16383, 2),
        (16384, 3),
        ((1 << 63) - 1, 9),
        (1 << 63, 10),
        (u64::MAX, 10),
    ];
    for (n, len) in expect {
        assert_eq!(Version { version: n }.varint_size(), len, "{}", n);
    }
}

#[test]
fn from_list_keeps_literals_in_order() {
    let list = vec![
        MetaItem::Str("3".to_string()),
        MetaItem::Other,
        MetaItem::Str("1".to_string()),
    ];
    let vs = Versions::from_list(&list);
    assert_eq!(vs.0, vec![Version { version: 3 }, Version { version: 1 }]);
    assert!(Versions::try_from_list(&items(&["1", "two"])).is_none());
    assert_eq!(
        Versions::try_from_list(&items(&["2"])).unwrap().0,
        vec![Version { version: 2 }]
    );
    assert!(Versions::from_list(&[]).0.is_empty());
}

#[test]
fn sort_orders_versions() {
    let mut vs = Versions::from_list(&items(&["3", "1", "2", "1", "10"]));
    vs.sort();
    let nums: Vec<u64> = vs.0.iter().map(|v| v.version).collect();
    assert_eq!(nums, vec![1, 1, 2, 3, 10]);
    assert!(vs.contains(&Version { version: 10 }));
    assert!(!vs.contains(&Version { version: 4 }));
}

#[test]
fn structures_read_as_identifiers() {
    let s = StructuresToReplace::from_list(&[
        MetaItem::Str("Test".to_string()),
        MetaItem::Other,
        MetaItem::Str(" Other ".to_string()),
    ])
    .unwrap();
    assert_eq!(s.0, vec!["Test".to_string(), "Other".to_string()]);
    let e = StructuresToReplace::from_list(&[
        MetaItem::Other,
        MetaItem::Str("Test".to_string()),
        MetaItem::Str("1abc".to_string()),
        MetaItem::Str("a b".to_string()),
    ])
    .unwrap_err();
    assert_eq!((e.index, e.text.as_str()), (2, "1abc"));
    let e = StructuresToReplace::from_list(&items(&["a b"])).unwrap_err();
    assert_eq!((e.index, e.text.as_str()), (0, "a b"));
    assert!(StructuresToReplace::from_list(&[]).unwrap().0.is_empty());
    let e = StructuresToReplace::from_list(&items(&["A_1", "fn"])).unwrap_err();
    assert_eq!((e.index, e.text.as_str()), (1, "fn"));
    let s = StructuresToReplace::from_list(&items(&["_x", "async", "Z9"])).unwrap();
    assert_eq!(s.0, vec!["_x".to_string(), "async".to_string(), "Z9".to_string()]);
}

#[test]
fn structures_from_outcomes() {
    let list = vec![
        MetaItem::Str("A".to_string()),
        MetaItem::Other,
        MetaItem::Str("B".to_string()),
    ];
    let ok = StructuresToReplace::from_outcomes(
        &list,
        &[Some("A".to_string()), None, Some("B".to_string())],
    )
    .unwrap();
    assert_eq!(ok.0, vec!["A".to_string(), "B".to_string()]);
    let err = StructuresToReplace::from_outcomes(&list, &[Some("A".to_string()), None, None])
        .unwrap_err();
    assert_eq!((err.index, err.text.as_str()), (2, "B"));
    let err = StructuresToReplace::from_outcomes(&list, &[None, None, None]).unwrap_err();
    assert_eq!((err.index, err.text.as_str()), (0, "A"));
}

#[test]
fn impl_structures_join() {
    let a = StructuresToReplace(vec!["A".to_string(), "B".to_string()]);
    let c = StructuresToReplace(vec!["C".to_string()]);
    assert_eq!(impl_structures(None, None), None);
    assert_eq!(impl_structures(Some(a.clone()), None), Some(vec!["A".to_string(), "B".to_string()]));
    assert_eq!(
        impl_structures(Some(a), Some(c)),
        Some(vec!["A".to_string(), "B".to_string(), "C".to_string()])
    );
}
