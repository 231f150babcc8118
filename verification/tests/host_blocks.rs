use ssh_config_manager::HostEntry;

fn block(lines: &[&str]) -> HostEntry {
    HostEntry { names: "server".to_owned(), body: lines.iter().map(|l| l.to_string()).collect() }
}

#[test]
fn new_block_has_example_directives() {
    let h = HostEntry::new();
    assert_eq!(h.names, "novo-host");
    assert_eq!(
        h.body,
        vec![
            "    HostName servidor.exemplo.com",
            "    User usuario",
            "    Port 22",
            "    IdentityFile ~/.ssh/id_ed25519",
        ]
    );
    assert_eq!(h.option("Port"), "22");
}

#[test]
fn option_reads_first_match_ignoring_ascii_case() {
    let h = block(&["  # User commented", "  user=first", "  User second"]);
    assert_eq!(h.option("USER"), "first");
    assert_eq!(h.option("Port"), "");
}

#[test]
fn set_option_replaces_first_and_removes_repeats() {
    let mut h = block(&["  User a", "  # note", "  user b", "  Port 1", "  USER c"]);
    h.set_option("User", "  new  ");
    assert_eq!(h.body, vec!["    User new", "  # note", "  Port 1"]);
    assert_eq!(h.option("user"), "new");
}

#[test]
fn set_option_appends_when_missing() {
    let mut h = block(&["  # note"]);
    h.set_option("Port", "2222");
    assert_eq!(h.body, vec!["  # note", "    Port 2222"]);
    assert_eq!(h.names, "server");
}

#[test]
fn blank_value_removes_directive() {
    let mut h = block(&["  User a", "  Port 1", "  user=b"]);
    h.set_option("User", "   ");
    assert_eq!(h.body, vec!["  Port 1"]);
    assert_eq!(h.option("User"), "");
}

#[test]
fn set_option_read_back_law_on_values() {
    let mut h = block(&["  HostName x", "  User y"]);
    h.set_option("HostName", " example.org ");
    assert_eq!(h.option("HostName"), "example.org");
    assert_eq!(h.option("User"), "y");
    h.set_option("User", "a=b");
    assert_eq!(h.body[1], "    User a=b");
    assert_eq!(h.option("User"), "a=b");
    // A leading `=` is read as the separator of `Key=value`.
    h.set_option("User", " =x");
    assert_eq!(h.body[1], "    User =x");
    assert_eq!(h.option("User"), "x");
}

#[test]
fn subtitle_and_search_text() {
    let h = block(&["  HostName example.org", "  User git"]);
    assert_eq!(h.subtitle(), "git@example.org");
    assert_eq!(h.search_text(), "server example.org git");
    let h = block(&["  HostName example.org"]);
    assert_eq!(h.subtitle(), "example.org");
    let h = block(&["  User git"]);
    assert_eq!(h.subtitle(), "HostName não definido");
}

#[test]
fn existing_key_equals_value_line_is_replaced() {
    let mut h = block(&["    User x=y", "  # note"]);
    assert_eq!(h.option("User"), "x=y");
    h.set_option("User", "z");
    assert_eq!(h.body, vec!["    User z", "  # note"]);
}
