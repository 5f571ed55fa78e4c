use dmatcher::Dmatcher;

#[test]
fn matches() {
    let mut matcher = Dmatcher::new();
    matcher.insert("apple.com", 1).unwrap();
    matcher.insert("apple.cn", 2).unwrap();
    assert_eq!(matcher.matches("store.apple.com").unwrap(), Some(1));
    assert_eq!(matcher.matches("baidu").unwrap(), None);
    assert_eq!(matcher.matches("你好.store.www.apple.cn").unwrap(), Some(2));
}

#[test]
fn payload_retrieval() {
    let mut matcher = Dmatcher::new();
    matcher.insert("apple.com", 1).unwrap();
    matcher.insert("apple.cn", 2).unwrap();
    assert_eq!(matcher.matches("store.apple.com").unwrap(), Some(1));
    assert_eq!(matcher.matches("baidu").unwrap(), None);
    assert_eq!(matcher.matches("x.apple.cn").unwrap(), Some(2));
}

#[test]
fn suffix_scenario() {
    let mut matcher = Dmatcher::new();
    matcher.insert("apple.com", 1).unwrap();
    assert_eq!(matcher.matches("apple.com").unwrap(), Some(1));
    assert_eq!(matcher.matches("store.apple.com").unwrap(), Some(1));
    assert_eq!(matcher.matches("baidu").unwrap(), None);
    assert_eq!(matcher.matches("你好.store.www.apple.com").unwrap(), Some(1));
}

#[test]
fn sibling_branches() {
    let mut matcher = Dmatcher::new();
    matcher.insert("apple.com", 1).unwrap();
    matcher.insert("apple.cn", 2).unwrap();
    assert_eq!(matcher.matches("apple.cn").unwrap(), Some(2));
    assert_eq!(matcher.matches("apple.com").unwrap(), Some(1));
    assert_eq!(matcher.matches("foo.cn").unwrap(), None);
    assert_eq!(matcher.matches("foo.com").unwrap(), None);
}

#[test]
fn routing_node_is_not_a_rule() {
    let mut matcher = Dmatcher::new();
    matcher.insert("apple.com", 1).unwrap();
    // "com" reaches the intermediate routing node exactly: boolean suffix
    // semantics would say true, but no payload is stored there.
    assert_eq!(matcher.matches("com").unwrap(), None);
    assert_eq!(matcher.matches("x.com").unwrap(), None);
    assert_eq!(matcher.matches("x.apple.com").unwrap(), Some(1));
}

#[test]
fn idempotent_insert() {
    let mut once = Dmatcher::new();
    once.insert("apple.com", 1).unwrap();
    let mut twice = Dmatcher::new();
    twice.insert("apple.com", 1).unwrap();
    twice.insert("apple.com", 1).unwrap();
    let probes = ["apple.com", "store.apple.com", "apple.cn", "com", "baidu"];
    for probe in probes {
        assert_eq!(once.matches(probe).unwrap(), twice.matches(probe).unwrap());
    }
}

#[test]
fn order_independence() {
    let mut ab = Dmatcher::new();
    ab.insert("apple.com", 1).unwrap();
    ab.insert("apple.cn", 2).unwrap();
    let mut ba = Dmatcher::new();
    ba.insert("apple.cn", 2).unwrap();
    ba.insert("apple.com", 1).unwrap();
    let probes = ["apple.com", "apple.cn", "x.apple.com", "x.apple.cn", "com", "cn", "baidu"];
    for probe in probes {
        assert_eq!(ab.matches(probe).unwrap(), ba.matches(probe).unwrap());
    }
}

#[test]
fn empty_label_tolerance() {
    let mut matcher = Dmatcher::new();
    matcher.insert("apple.com", 1).unwrap();
    assert_eq!(matcher.matches(".apple.com").unwrap(), Some(1));
    assert_eq!(matcher.matches("apple.com.").unwrap(), Some(1));
    assert_eq!(matcher.matches("store..apple.com").unwrap(), Some(1));
    let mut dotted = Dmatcher::new();
    dotted.insert(".apple..com.", 5).unwrap();
    assert_eq!(dotted.matches("apple.com").unwrap(), Some(5));
}

#[test]
fn last_write_wins() {
    let mut matcher = Dmatcher::new();
    matcher.insert("apple.com", 1).unwrap();
    matcher.insert("apple.com", 7).unwrap();
    assert_eq!(matcher.matches("apple.com").unwrap(), Some(7));
    assert_eq!(matcher.matches("x.apple.com").unwrap(), Some(7));
}

#[test]
fn malformed_label_rejected() {
    let mut matcher = Dmatcher::new();
    let long = "a".repeat(64) + ".com";
    assert!(matcher.insert(&long, 1).is_err());
    assert!(matcher.matches(&long).is_err());
    let longest = "a".repeat(63) + ".com";
    matcher.insert(&longest, 2).unwrap();
    assert_eq!(matcher.matches(&longest).unwrap(), Some(2));
}

#[test]
fn empty_rule_matches_everything() {
    let mut matcher = Dmatcher::new();
    matcher.insert("", 9).unwrap();
    assert_eq!(matcher.matches("").unwrap(), Some(9));
    assert_eq!(matcher.matches("anything.example").unwrap(), Some(9));
}

#[test]
fn insert_lines_bulk() {
    let mut matcher = Dmatcher::new();
    matcher.insert_lines("apple.com\n\nbaidu.com\n".to_string(), 3).unwrap();
    assert_eq!(matcher.matches("x.apple.com").unwrap(), Some(3));
    assert_eq!(matcher.matches("baidu.com").unwrap(), Some(3));
    assert_eq!(matcher.matches("qq.com").unwrap(), None);
}

#[test]
fn insert_lines_stops_at_first_error() {
    let mut matcher = Dmatcher::new();
    let text = format!("good.com\n{}.com\nafter.com", "a".repeat(64));
    assert!(matcher.insert_lines(text, 1).is_err());
    assert_eq!(matcher.matches("good.com").unwrap(), Some(1));
    assert_eq!(matcher.matches("after.com").unwrap(), None);
}

#[test]
fn normalization_punycode() {
    let mut matcher = Dmatcher::new();
    matcher.insert("你好.com", 4).unwrap();
    // the rule is stored in IDNA/punycode form, so its encoded spelling
    // reaches the same trie path
    assert_eq!(matcher.matches("xn--6qq79v.com").unwrap(), Some(4));
    assert_eq!(matcher.matches("你好.com").unwrap(), Some(4));
    let mut encoded = Dmatcher::new();
    encoded.insert("xn--6qq79v.com", 5).unwrap();
    assert_eq!(encoded.matches("你好.com").unwrap(), Some(5));
}

#[test]
fn normalization_case() {
    let mut matcher = Dmatcher::new();
    matcher.insert("APPLE.com", 6).unwrap();
    assert_eq!(matcher.matches("apple.com").unwrap(), Some(6));
    assert_eq!(matcher.matches("ApPlE.CoM").unwrap(), Some(6));
}

#[test]
fn shadowed_suffix() {
    let mut matcher = Dmatcher::new();
    matcher.insert("apple.com", 1).unwrap();
    matcher.insert("store.apple.com", 2).unwrap();
    assert_eq!(matcher.matches("store.apple.com").unwrap(), Some(2));
    assert_eq!(matcher.matches("x.store.apple.com").unwrap(), Some(2));
    assert_eq!(matcher.matches("apple.com").unwrap(), Some(1));
    // a deeper rule below "apple.com" keeps the walk going, so an unrelated
    // sibling of it no longer hits the early-exit shortcut
    assert_eq!(matcher.matches("foo.apple.com").unwrap(), None);
}

#[test]
fn default_is_empty() {
    let matcher: Dmatcher<u32> = Default::default();
    assert_eq!(matcher.matches("apple.com").unwrap(), None);
}
