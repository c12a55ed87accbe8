//! Addresses, blocks and texts.

use pocketstream_network::json::{read, read_array, Json};
use pocketstream_network::net::{subnet_key_for, Ipv4Addr, Ipv4Network};
use pocketstream_network::text::{
    contains, double_quotes, is_before, replace_char, same_ignoring_case, trim,
};
use pocketstream_network::textmap::{TextMap, TextSet};

#[test]
fn addresses_read_back() {
    for s in ["0.0.0.0", "10.0.0.255", "192.168.1.1", "255.255.255.255"] {
        assert_eq!(Ipv4Addr::parse(s).unwrap().text(), s);
    }
    for s in ["", "1.2.3", "1.2.3.4.5", "256.0.0.1", "01.2.3.4", "1.2.3.4 ", "a.b.c.d", "1..2.3"] {
        assert_eq!(Ipv4Addr::parse(s), None);
    }
    assert_eq!(Ipv4Addr::new(1, 2, 3, 4).to_num(), 0x01020304);
    assert_eq!(Ipv4Addr::from_num(0x01020304), Ipv4Addr::new(1, 2, 3, 4));
    assert!(Ipv4Addr::new(169, 254, 3, 4).is_link_local());
    assert!(!Ipv4Addr::new(169, 253, 3, 4).is_link_local());
}

#[test]
fn blocks_are_bounded() {
    let n = Ipv4Network::parse("172.28.5.4/20").unwrap();
    assert_eq!(n.network(), Ipv4Addr::new(172, 28, 0, 0));
    assert_eq!(n.broadcast(), Ipv4Addr::new(172, 28, 15, 255));
    assert!(n.contains(Ipv4Addr::new(172, 28, 15, 255)));
    assert!(!n.contains(Ipv4Addr::new(172, 28, 16, 0)));
    let all = Ipv4Network::new(Ipv4Addr::new(1, 2, 3, 4), 0).unwrap();
    assert_eq!(all.broadcast(), Ipv4Addr::new(255, 255, 255, 255));
    assert!(Ipv4Network::new(Ipv4Addr::new(1, 2, 3, 4), 33).is_none());
    assert_eq!(Ipv4Network::parse("10.0.0.0/255.255.0.0").unwrap().prefix(), 16);
    assert_eq!(Ipv4Network::parse("10.0.0.1").unwrap().prefix(), 32);
    assert!(Ipv4Network::read("10.0.0.0/33").is_err());
    assert!(Ipv4Network::read("x/24").is_err());
}

#[test]
fn a_subnet_key_is_a_block() {
    let key = subnet_key_for(Ipv4Addr::new(10, 1, 2, 77));
    assert_eq!(key, "10.1.2.0/24");
    assert!(Ipv4Network::parse(&key).unwrap().contains(Ipv4Addr::new(10, 1, 2, 77)));
}

#[test]
fn texts_are_handled_by_character() {
    assert_eq!(trim("\u{a0} \r\nx y\t"), "x y");
    assert_eq!(trim("  "), "");
    assert!(contains("abcabd", "abd"));
    assert!(!contains("ab", "abc"));
    assert_eq!(replace_char("a-b-c", '-', ':'), "a:b:c");
    assert_eq!(double_quotes("it's"), "it''s");
    assert!(same_ignoring_case("Up", "uP"));
    assert!(is_before("10", "9"));
    assert!(!is_before("a", "a"));
}

#[test]
fn json_is_read_by_member() {
    let v = read(r#"{"a":1,"b":"x","c":true,"d":-1,"e":[1,2]}"#).unwrap();
    assert_eq!(v.number_of("a"), Some(1));
    assert_eq!(v.text_of("b"), Some("x"));
    assert_eq!(v.bool_of("c"), Some(true));
    assert_eq!(v.number_of("d"), None);
    assert!(v.get("missing").is_none());
    assert!(matches!(v.get("e"), Some(Json::Array(list)) if list.len() == 2));
    assert_eq!(read_array("[1,null]").unwrap().len(), 2);
    assert!(read_array("{}").is_err());
    assert!(matches!(read("{"), Err(e) if e.contains("EOF")));
}

#[test]
fn maps_keep_the_order_of_arrival() {
    let mut m: TextMap<u8> = TextMap::new();
    m.insert("b".into(), 1);
    m.insert("a".into(), 2);
    m.insert("b".into(), 3);
    assert_eq!(m.len(), 2);
    assert_eq!(m.key_at(0), "b");
    assert_eq!(m.value_at(0), &3);
    m.remove_all(&vec!["b".to_string(), "c".to_string()]);
    assert_eq!(m.get("b"), None);
    assert_eq!(m.get("a"), Some(&2));
    assert!(m.remove("a"));
    assert!(m.is_empty());
    let mut s = TextSet::new();
    assert!(s.insert("x".into()));
    assert!(!s.insert("x".into()));
    assert!(s.remove("x"));
    assert_eq!(s.len(), 0);
}
