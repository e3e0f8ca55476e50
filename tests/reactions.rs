use emoji_reactions::engine::{
    aggregate, get_reactions, merge_counts, toggle_reaction, TargetSummary,
};
use emoji_reactions::identity::{anonymize, caller_uid, resolve_address, to_hex};
use emoji_reactions::store::{Presence, ReactionStore, StoreError};
use emoji_reactions::text::{blank, trimmed_first_entry};
use emoji_reactions::validate::{
    check_toggle_request, contains_string, parse_universe, validate_toggle, ClientError,
};

fn universe(items: &[&str]) -> Vec<String> {
    items.iter().map(|s| s.to_string()).collect()
}

fn summary(r: &TargetSummary) -> (String, usize, bool) {
    (r.target.clone(), r.count, r.reacted)
}

#[test]
fn anonymize_is_lowercase_sha256_hex() {
    assert_eq!(
        anonymize("abc"),
        "ba7816bf8f01cfea414140de5dae2223b00361a396177a9cb410ff61f20015ad"
    );
    assert_eq!(
        anonymize(""),
        "e3b0c44298fc1c149afbf4c8996fb92427ae41e4649b934ca495991b7852b855"
    );
}

#[test]
fn anonymize_is_deterministic_and_hides_the_address() {
    let a = anonymize("203.0.113.7");
    let b = anonymize("203.0.113.7");
    assert_eq!(a, b);
    assert_ne!(a, "203.0.113.7");
    assert_eq!(a.len(), 64);
    assert!(a.chars().all(|c| c.is_ascii_hexdigit() && !c.is_ascii_uppercase()));
    assert_ne!(anonymize("203.0.113.8"), a);
}

#[test]
fn hex_encoding_of_bytes() {
    assert_eq!(to_hex(&vec![0u8, 255, 16, 9, 171]), "00ff1009ab");
    assert_eq!(to_hex(&vec![]), "");
}

#[test]
fn forwarded_header_first_entry_is_trimmed() {
    assert_eq!(trimmed_first_entry("  10.0.0.1 , 10.0.0.2"), "10.0.0.1");
    assert_eq!(trimmed_first_entry("10.0.0.3"), "10.0.0.3");
    assert_eq!(trimmed_first_entry(" , 10.0.0.2"), "");
    assert_eq!(trimmed_first_entry(""), "");
}

#[test]
fn address_resolution_prefers_forwarded_header() {
    assert_eq!(
        resolve_address(Some(" 198.51.100.1, 10.0.0.1"), Some("127.0.0.1")),
        Some("198.51.100.1".to_string())
    );
    assert_eq!(
        resolve_address(Some("  , 10.0.0.1"), Some("127.0.0.1")),
        Some("127.0.0.1".to_string())
    );
    assert_eq!(resolve_address(None, Some("127.0.0.1")), Some("127.0.0.1".to_string()));
    assert_eq!(resolve_address(None, None), None);
    assert_eq!(resolve_address(Some(" "), None), None);
    assert_eq!(resolve_address(None, Some("")), None);
}

#[test]
fn caller_identity_is_hash_of_resolved_address() {
    assert_eq!(caller_uid(Some("abc, def"), None), Some(anonymize("abc")));
    assert_eq!(caller_uid(None, Some("abc")), Some(anonymize("abc")));
    assert_eq!(caller_uid(None, None), None);
}

#[test]
fn blank_slugs() {
    assert!(blank(""));
    assert!(blank(" \t\n"));
    assert!(blank("\u{3000}\u{a0}"));
    assert!(!blank(" post1 "));
}

#[test]
fn validation_rejects_blank_slug_blank_target_and_non_emoji() {
    assert_eq!(validate_toggle("", "👍"), Err(ClientError::SlugBlank));
    assert_eq!(validate_toggle("   ", "👍"), Err(ClientError::SlugBlank));
    assert_eq!(validate_toggle("post1", ""), Err(ClientError::TargetBlank));
    assert_eq!(validate_toggle("post1", "a"), Err(ClientError::TargetNotEmoji));
    assert_eq!(validate_toggle("post1", "👍"), Ok(()));
    assert_eq!(validate_toggle("post1", "👍🏽"), Ok(()));
    assert_eq!(validate_toggle("", ""), Err(ClientError::SlugBlank));
}

#[test]
fn validation_order_given_emoji_answer() {
    assert_eq!(check_toggle_request("post1", "x", false), Err(ClientError::TargetNotEmoji));
    assert_eq!(check_toggle_request("post1", "x", true), Ok(()));
    assert_eq!(check_toggle_request("post1", "", true), Err(ClientError::TargetBlank));
    assert_eq!(check_toggle_request(" ", "", false), Err(ClientError::SlugBlank));
}

#[test]
fn universe_keeps_emoji_characters_once_in_order() {
    assert_eq!(parse_universe("👍❤️a👍🔥"), universe(&["👍", "❤️", "🔥"]));
    assert_eq!(parse_universe("❤❤️"), universe(&["❤", "❤️"]));
    assert_eq!(parse_universe("👍🏽👍"), universe(&["👍🏽", "👍"]));
    assert_eq!(
        parse_universe("👨\u{200d}💻x"),
        universe(&["👨\u{200d}💻"])
    );
    assert_eq!(parse_universe("\u{fe0f}a👍"), universe(&["👍"]));
    assert_eq!(parse_universe(""), Vec::<String>::new());
    assert_eq!(parse_universe("abc"), Vec::<String>::new());
    assert!(contains_string(&universe(&["👍", "🔥"]), &"🔥".to_string()));
    assert!(!contains_string(&universe(&["👍"]), &"🔥".to_string()));
}

#[test]
fn insert_twice_is_a_constraint_violation() {
    let mut s = ReactionStore::new();
    assert_eq!(s.insert("post1", "👍", "u1"), Ok(()));
    assert_eq!(s.insert("post1", "👍", "u1"), Err(StoreError::ConstraintViolation));
    assert!(s.has_reaction("post1", "👍", "u1"));
    assert_eq!(s.count("post1", "👍", "u1"), (1, true));
}

#[test]
fn delete_of_absent_row_is_a_no_op() {
    let mut s = ReactionStore::new();
    s.delete("post1", "👍", "u1");
    assert!(!s.has_reaction("post1", "👍", "u1"));
    s.insert("post1", "👍", "u1").unwrap();
    s.insert("post1", "👍", "u2").unwrap();
    s.delete("post1", "👍", "u1");
    assert!(!s.has_reaction("post1", "👍", "u1"));
    assert_eq!(s.count("post1", "👍", "u2"), (1, true));
}

#[test]
fn toggle_parity() {
    for n in 0..7 {
        let mut s = ReactionStore::new();
        let mut last = Presence::Absent;
        for _ in 0..n {
            last = s.toggle("post1", "👍", "u1");
        }
        assert_eq!(s.has_reaction("post1", "👍", "u1"), n % 2 == 1);
        if n > 0 {
            assert_eq!(last == Presence::Present, n % 2 == 1);
        }
    }
}

#[test]
fn counts_are_distinct_identities_regardless_of_order() {
    let mut a = ReactionStore::new();
    let mut b = ReactionStore::new();
    for uid in ["u1", "u2", "u3", "u2"] {
        a.toggle("post1", "🔥", uid);
    }
    for uid in ["u2", "u3", "u2", "u1"] {
        b.toggle("post1", "🔥", uid);
    }
    assert_eq!(a.count("post1", "🔥", "u2"), (2, false));
    assert_eq!(b.count("post1", "🔥", "u2"), (2, false));
    assert_eq!(a.count("post1", "🔥", "u1"), (2, true));
    assert_eq!(a.count("post2", "🔥", "u1"), (0, false));
}

#[test]
fn aggregation_of_empty_store_is_complete() {
    let s = ReactionStore::new();
    let r = get_reactions(&s, Some("post1"), "u1", &universe(&["👍", "❤️"])).unwrap();
    let got: Vec<_> = r.iter().map(summary).collect();
    assert_eq!(
        got,
        vec![("👍".to_string(), 0, false), ("❤️".to_string(), 0, false)]
    );
}

#[test]
fn aggregation_reports_counts_and_drops_targets_outside_universe() {
    let mut s = ReactionStore::new();
    s.toggle("post1", "👍", "u1");
    s.toggle("post1", "👍", "u2");
    s.toggle("post1", "🔥", "u1");
    s.toggle("post2", "👍", "u3");
    let r = aggregate(&s, "post1", "u2", &universe(&["👍", "❤"]));
    let got: Vec<_> = r.iter().map(summary).collect();
    assert_eq!(got, vec![("👍".to_string(), 2, true), ("❤".to_string(), 0, false)]);
}

#[test]
fn read_path_without_slug_is_client_error() {
    let s = ReactionStore::new();
    assert!(matches!(
        get_reactions(&s, None, "u1", &universe(&["👍"])),
        Err(ClientError::MissingSlug)
    ));
}

#[test]
fn rejected_toggle_leaves_store_unchanged() {
    let mut s = ReactionStore::new();
    assert_eq!(toggle_reaction(&mut s, "post1", "a", "u1"), Err(ClientError::TargetNotEmoji));
    assert_eq!(toggle_reaction(&mut s, "", "👍", "u1"), Err(ClientError::SlugBlank));
    assert_eq!(toggle_reaction(&mut s, "post1", "", "u1"), Err(ClientError::TargetBlank));
    assert!(!s.has_reaction("post1", "a", "u1"));
    assert_eq!(toggle_reaction(&mut s, "post1", "👍", "u1"), Ok(Presence::Present));
    assert_eq!(toggle_reaction(&mut s, "post1", "👍", "u1"), Ok(Presence::Absent));
}

#[test]
fn interleaved_toggles_converge() {
    for n in [1usize, 2, 5, 8] {
        for offset in 0..3usize {
            let mut s = ReactionStore::new();
            let mut others = 0usize;
            for i in 0..n {
                if (i + offset) % 3 == 0 {
                    let other = format!("v{}", i);
                    assert_eq!(
                        toggle_reaction(&mut s, "post1", "👍", &other),
                        Ok(Presence::Present)
                    );
                    others += 1;
                }
                assert!(toggle_reaction(&mut s, "post1", "👍", "u1").is_ok());
            }
            assert_eq!(s.has_reaction("post1", "👍", "u1"), n % 2 == 1);
            let expected = others + if n % 2 == 1 { 1 } else { 0 };
            assert_eq!(s.count("post1", "👍", "u1"), (expected, n % 2 == 1));
        }
    }
}

#[test]
fn grouped_query_lists_each_reacted_target_once() {
    let mut s = ReactionStore::new();
    s.toggle("post1", "🔥", "u1");
    s.toggle("post1", "👍", "u1");
    s.toggle("post1", "🔥", "u2");
    s.toggle("post2", "🎉", "u2");
    let got: Vec<_> = s.group("post1", "u2").iter().map(summary).collect();
    assert_eq!(got, vec![("🔥".to_string(), 2, true), ("👍".to_string(), 1, false)]);
    assert!(s.group("post3", "u1").is_empty());
}

#[test]
fn merge_seeds_universe_and_drops_other_targets() {
    let groups = vec![
        TargetSummary { target: "🔥".to_string(), count: 3, reacted: true },
        TargetSummary { target: "🎉".to_string(), count: 7, reacted: false },
    ];
    let got: Vec<_> = merge_counts(&universe(&["👍", "🔥"]), &groups)
        .iter()
        .map(summary)
        .collect();
    assert_eq!(got, vec![("👍".to_string(), 0, false), ("🔥".to_string(), 3, true)]);
    let later = vec![
        TargetSummary { target: "👍".to_string(), count: 1, reacted: false },
        TargetSummary { target: "👍".to_string(), count: 2, reacted: true },
    ];
    let got: Vec<_> = merge_counts(&universe(&["👍"]), &later).iter().map(summary).collect();
    assert_eq!(got, vec![("👍".to_string(), 2, true)]);
}

#[test]
fn configured_universe_reports_two_code_point_heart() {
    let s = ReactionStore::new();
    let u = parse_universe("👍❤️");
    let r = get_reactions(&s, Some("post1"), "u1", &u).unwrap();
    let got: Vec<_> = r.iter().map(summary).collect();
    assert_eq!(
        got,
        vec![("👍".to_string(), 0, false), ("❤️".to_string(), 0, false)]
    );
}

#[test]
fn read_path_with_blank_slug_is_client_error() {
    let mut s = ReactionStore::new();
    s.toggle(" ", "👍", "u1");
    assert!(matches!(
        get_reactions(&s, Some(" "), "u1", &universe(&["👍"])),
        Err(ClientError::SlugBlank)
    ));
    assert!(matches!(
        get_reactions(&s, Some(""), "u1", &universe(&["👍"])),
        Err(ClientError::SlugBlank)
    ));
}
