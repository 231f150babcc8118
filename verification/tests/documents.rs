use ssh_config_manager::{parse_document, serialize_document, validate_unique_hosts, ConfigDocument, HostEntry};

const SAMPLE: &str = "# exemplo\nHost github\n    HostName github.com\n    User git\n\nHost server\n    Port 2222\n";

#[test]
fn parse_keeps_lines_and_order() {
    let d = parse_document(SAMPLE);
    assert_eq!(d.prefix, ["# exemplo"]);
    assert_eq!(d.hosts[0].body, ["    HostName github.com", "    User git", ""]);
    assert_eq!(d.hosts[1].names, "server");
    assert_eq!(d.hosts[1].body, ["    Port 2222"]);
    assert!(!d.contains_match);
}

#[test]
fn parse_host_keyword_any_case_and_equals() {
    let d = parse_document("HOST=a b\n  x\nhost c\r\n");
    assert_eq!(d.hosts.len(), 2);
    assert_eq!(d.hosts[0].names, "a b");
    assert_eq!(d.hosts[0].body, ["  x"]);
    assert_eq!(d.hosts[1].names, "c");
    assert!(d.prefix.is_empty());
}

#[test]
fn parse_notices_match() {
    assert!(parse_document("Host a\nMatch host b\n  User c\n").contains_match);
    assert!(parse_document("match all\n").contains_match);
    assert!(!parse_document("# Match\n").contains_match);
}

#[test]
fn empty_document() {
    let d = ConfigDocument::default();
    assert!(d.prefix.is_empty() && d.hosts.is_empty() && !d.contains_match);
    assert_eq!(serialize_document(&d), "");
    assert_eq!(parse_document("").hosts.len(), 0);
}

#[test]
fn serialize_separates_blocks_once() {
    let d = parse_document(SAMPLE);
    assert_eq!(
        serialize_document(&d),
        "# exemplo\n\nHost github\n    HostName github.com\n    User git\n\nHost server\n    Port 2222\n"
    );
}

#[test]
fn serialize_trims_header_names() {
    let d = ConfigDocument {
        prefix: vec![],
        hosts: vec![
            HostEntry { names: "  a  ".to_owned(), body: vec!["  User x".to_owned()] },
            HostEntry { names: "b".to_owned(), body: vec![] },
        ],
        contains_match: false,
    };
    assert_eq!(serialize_document(&d), "Host a\n  User x\n\nHost b\n");
}

#[test]
fn read_after_write_law_on_values() {
    let d = ConfigDocument {
        prefix: vec!["# x".to_owned()],
        hosts: vec![
            HostEntry { names: " one ".to_owned(), body: vec!["  User 1".to_owned()] },
            HostEntry { names: "two".to_owned(), body: vec!["  User 2".to_owned(), "".to_owned()] },
            HostEntry { names: "three".to_owned(), body: vec![] },
        ],
        contains_match: false,
    };
    let r = parse_document(&serialize_document(&d));
    assert_eq!(r.prefix, ["# x", ""]);
    assert_eq!(r.hosts.len(), 3);
    assert_eq!(r.hosts[0].names, "one");
    assert_eq!(r.hosts[0].body, ["  User 1", ""]);
    assert_eq!(r.hosts[1].body, ["  User 2", ""]);
    assert_eq!(r.hosts[2].body, Vec::<String>::new());
    // Writing what was read back gives the same text.
    assert_eq!(serialize_document(&r), serialize_document(&d));
}

#[test]
fn duplicate_aliases_are_reported() {
    let d = parse_document("Host a b\nHost c a\n");
    assert_eq!(validate_unique_hosts(&d), Err("O alias 'a' aparece em mais de um bloco Host.".to_owned()));
    let d = parse_document("Host x x\n");
    assert_eq!(validate_unique_hosts(&d), Err("O alias 'x' aparece em mais de um bloco Host.".to_owned()));
    let d = parse_document("Host * a\nHost *\nHost !b b?\nHost !b\n");
    assert_eq!(validate_unique_hosts(&d), Ok(()));
    let d = parse_document("Host a\nHost b\n");
    assert_eq!(validate_unique_hosts(&d), Ok(()));
}
