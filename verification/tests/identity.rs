use domi::id::{Id, PassthroughHasher, DATA_KEY};
use std::collections::HashSet;

#[test]
fn root_identifier_is_repeatable() {
    assert_eq!(Id::new("button"), Id::new("button"));
    assert_eq!(Id::new(""), Id::new(""));
}

#[test]
fn child_identifier_is_repeatable() {
    let parent = Id::new("list");
    assert_eq!(parent.with("item"), parent.with("item"));
    assert_eq!(Id(7).with("item"), Id(7).with("item"));
}

#[test]
fn root_identifier_is_the_hash_of_the_key() {
    assert_eq!(Id::new("a"), Id(12269146538841877247));
    assert_eq!(Id::new(""), Id(3117886703346944619));
}

#[test]
fn child_identifier_is_the_hash_of_parent_and_key() {
    assert_eq!(Id::new("a").with("b"), Id(2307768020636442842));
    assert_eq!(Id(0).with("x"), Id(9373688811085439469));
}

#[test]
fn child_identifier_differs_from_parent_and_from_root() {
    let parent = Id::new("a");
    assert_ne!(parent.with("b"), parent);
    assert_ne!(parent.with("b"), Id::new("b"));
    assert_ne!(parent.with("a"), parent);
}

#[test]
fn child_identifier_depends_on_the_parent() {
    assert_ne!(Id::new("a").with("item"), Id::new("b").with("item"));
}

#[test]
fn ten_thousand_keys_under_one_parent_do_not_collide() {
    let parent = Id::new("parent");
    let mut seen: HashSet<u64> = HashSet::new();
    for i in 0..12000u32 {
        let key = format!("item-{i:08}");
        assert!(seen.insert(parent.with(&key).0), "collision at {key}");
    }
    assert_eq!(seen.len(), 12000);
}

#[test]
fn ten_thousand_root_keys_do_not_collide() {
    let mut seen: HashSet<u64> = HashSet::new();
    for i in 0..12000u32 {
        let key = format!("{i}");
        assert!(seen.insert(Id::new(&key).0), "collision at {key}");
    }
    assert_eq!(seen.len(), 12000);
}

#[test]
fn distinct_keys_are_not_always_kept_apart() {
    // the hash is not injective: these two keys are a known collision
    assert_eq!(Id::new("row-00019"), Id::new("row-00092"));
    assert_eq!(Id::new("row-00019"), Id(17634594113695043543));
}

#[test]
fn marker_text_is_the_decimal_numeral() {
    assert_eq!(Id(0).to_string(), "0");
    assert_eq!(Id(7).to_string(), "7");
    assert_eq!(Id(10).to_string(), "10");
    assert_eq!(Id(1234567890).to_string(), "1234567890");
    assert_eq!(Id(u64::MAX).to_string(), "18446744073709551615");
}

#[test]
fn marker_text_is_read_back() {
    assert_eq!(Id::from_marker("0"), Some(Id(0)));
    assert_eq!(Id::from_marker("42"), Some(Id(42)));
    assert_eq!(Id::from_marker("18446744073709551615"), Some(Id(u64::MAX)));
    assert_eq!(Id::from_marker("+42"), Some(Id(42)));
    assert_eq!(Id::from_marker("007"), Some(Id(7)));
}

#[test]
fn unreadable_marker_text_gives_no_identifier() {
    assert_eq!(Id::from_marker(""), None);
    assert_eq!(Id::from_marker("+"), None);
    assert_eq!(Id::from_marker("-1"), None);
    assert_eq!(Id::from_marker("12a"), None);
    assert_eq!(Id::from_marker("a12"), None);
    assert_eq!(Id::from_marker(" 12"), None);
    assert_eq!(Id::from_marker("1 2"), None);
    assert_eq!(Id::from_marker("++1"), None);
    assert_eq!(Id::from_marker("18446744073709551616"), None);
    assert_eq!(Id::from_marker("99999999999999999999999"), None);
    assert_eq!(Id::from_marker("\u{665}"), None);
}

#[test]
fn marker_round_trip() {
    for id in [Id(0), Id(9), Id(10), Id(99), Id(100), Id::new("button"), Id(u64::MAX)] {
        assert_eq!(Id::from_marker(&id.to_string()), Some(id));
    }
}

#[test]
fn marker_text_agrees_with_the_standard_numeral() {
    for n in [0u64, 1, 9, 10, 11, 101, 65535, 4294967296, u64::MAX - 1, u64::MAX] {
        assert_eq!(Id(n).to_string(), format!("{n}"));
        assert_eq!(Id::from_marker(&format!("{n}")), Some(Id(n)));
    }
}

#[test]
fn data_key_names_the_marker() {
    assert_eq!(DATA_KEY, "__domi_id");
}

#[test]
fn passthrough_hasher_hands_an_identifier_through() {
    let mut hasher = PassthroughHasher::default();
    assert_eq!(hasher.finish(), 0);
    hasher.write_u64(Id::new("button").0);
    assert_eq!(hasher.finish(), Id::new("button").0);
    hasher.write_u64(7);
    assert_eq!(hasher.finish(), 7);
}

#[test]
fn passthrough_hasher_shifts_bytes_in() {
    let mut hasher = PassthroughHasher::default();
    hasher.write(&[]);
    assert_eq!(hasher.finish(), 0);
    hasher.write(&[0x01, 0x02]);
    assert_eq!(hasher.finish(), 0x0102);
    hasher.write(&[0xff]);
    assert_eq!(hasher.finish(), 0x0102ff);
    hasher.write(&[1, 2, 3, 4, 5, 6, 7, 8]);
    assert_eq!(hasher.finish(), 0x0102030405060708);
}
