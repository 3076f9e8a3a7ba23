use pluginbaby::codec::{decode, encode};
use pluginbaby::pack::Pack;

#[test]
fn round_trip_empty() {
    let packs: Vec<Pack> = Vec::new();
    let text = encode(&packs);
    assert_eq!(text, "");
    let back = decode(&text).unwrap();
    assert_eq!(back.len(), 0);
}

#[test]
fn encode_exact_text() {
    let packs = vec![Pack::new(
        String::from("/home/user/plugins/foo"),
        "https://example.org/foo.git",
        "origin",
    )];
    let text = encode(&packs);
    assert_eq!(
        text,
        "- path: /home/user/plugins/foo\n  url: https://example.org/foo.git\n  remote_name: origin\n"
    );
}

#[test]
fn round_trip_two_records() {
    let packs = vec![
        Pack::new(String::from("/srv/a"), "https://example.org/a", "origin"),
        Pack::new(String::from("/srv/b"), "git@example.org:b", "upstream"),
    ];
    let text = encode(&packs);
    let back = decode(&text).unwrap();
    assert_eq!(back.len(), 2);
    assert_eq!(back[0].path().as_str(), "/srv/a");
    assert_eq!(back[0].url().as_str(), "https://example.org/a");
    assert_eq!(back[0].remote_name().as_str(), "origin");
    assert_eq!(back[1].path().as_str(), "/srv/b");
    assert_eq!(back[1].url().as_str(), "git@example.org:b");
    assert_eq!(back[1].remote_name().as_str(), "upstream");
}

#[test]
fn decode_known_text() {
    let text = "- path: /opt/x\n  url: https://example.org/x\n  remote_name: origin\n";
    let packs = decode(text).unwrap();
    assert_eq!(packs.len(), 1);
    assert_eq!(packs[0].path().as_str(), "/opt/x");
    assert_eq!(packs[0].url().as_str(), "https://example.org/x");
    assert_eq!(packs[0].remote_name().as_str(), "origin");
}

#[test]
fn decode_empty_field_values() {
    let text = "- path: \n  url: \n  remote_name: \n";
    let packs = decode(text).unwrap();
    assert_eq!(packs.len(), 1);
    assert_eq!(packs[0].path().as_str(), "");
    assert_eq!(packs[0].url().as_str(), "");
    assert_eq!(packs[0].remote_name().as_str(), "");
}

#[test]
fn decode_malformed_fails() {
    assert!(decode("garbage").is_err());
    assert!(decode("- path: /a\n").is_err());
    assert!(decode("- path: /a\n  url: u\n").is_err());
    assert!(decode("  url: u\n- path: /a\n  remote_name: origin\n").is_err());
    assert!(decode("- path: /a\n  url: u\n  remote_name: origin\nleftover").is_err());
    assert!(decode("- path: /a\n  url: u\n  remote_name: origin").is_err());
}

#[test]
fn round_trip_with_line_breaks_and_backslashes() {
    // Escaping makes the round trip exact for every record.
    let packs = vec![
        Pack::new(String::from("/srv/a\nb"), "https://example.org/a?x=1\\2", "ori\ngin"),
        Pack::new(String::from("\\"), "\n", "\\n"),
    ];
    let text = encode(&packs);
    let back = decode(&text).unwrap();
    assert_eq!(back.len(), 2);
    assert_eq!(back[0].path().as_str(), "/srv/a\nb");
    assert_eq!(back[0].url().as_str(), "https://example.org/a?x=1\\2");
    assert_eq!(back[0].remote_name().as_str(), "ori\ngin");
    assert_eq!(back[1].path().as_str(), "\\");
    assert_eq!(back[1].url().as_str(), "\n");
    assert_eq!(back[1].remote_name().as_str(), "\\n");
}

#[test]
fn encode_escapes_exactly() {
    let packs = vec![Pack::new(String::from("/a\nb"), "u\\v", "origin")];
    assert_eq!(
        encode(&packs),
        "- path: /a\\nb\n  url: u\\\\v\n  remote_name: origin\n"
    );
}

#[test]
fn decode_ignores_indentation() {
    // The labels may stand under any leading whitespace, or none.
    let flat = "- path: /opt/x\nurl: https://example.org/x\nremote_name: origin\n";
    let deep = "   - path: /opt/x\n\turl: https://example.org/x\n  \t remote_name: origin\n";
    for text in [flat, deep] {
        let packs = decode(text).unwrap();
        assert_eq!(packs.len(), 1);
        assert_eq!(packs[0].path().as_str(), "/opt/x");
        assert_eq!(packs[0].url().as_str(), "https://example.org/x");
        assert_eq!(packs[0].remote_name().as_str(), "origin");
    }
}

#[test]
fn decode_rejects_bad_escapes() {
    assert!(decode("- path: /a\\qb\n  url: u\n  remote_name: origin\n").is_err());
    assert!(decode("- path: /a\\\n  url: u\n  remote_name: origin\n").is_err());
}

#[test]
fn round_trip_preserves_order() {
    let packs = vec![
        Pack::new(String::from("/r/one"), "u1", "origin"),
        Pack::new(String::from("/r/two"), "u2", "origin"),
        Pack::new(String::from("/r/three"), "u3", "origin"),
    ];
    let back = decode(&encode(&packs)).unwrap();
    let paths: Vec<&str> = back.iter().map(|p| p.path().as_str()).collect();
    assert_eq!(paths, vec!["/r/one", "/r/two", "/r/three"]);
}
