use ssh_config_manager::editor::parse_u16;
use ssh_config_manager::{HostEditor, HostEntry};

fn form(names: &str, host_name: &str, user: &str, port: &str, identity_file: &str) -> HostEditor {
    HostEditor {
        names: names.to_owned(),
        host_name: host_name.to_owned(),
        user: user.to_owned(),
        port: port.to_owned(),
        identity_file: identity_file.to_owned(),
    }
}

#[test]
fn port_parsing_agrees_with_std() {
    let samples = [
        "", "+", "-", "0", "00", "+0", "22", "+22", "-1", "65535", "65536", "070000", "1a", " 1",
        "99999999999999999999", "0065535", "٣",
    ];
    for s in samples {
        assert_eq!(parse_u16(s), s.parse::<u16>().ok(), "{:?}", s);
    }
}

#[test]
fn validation_messages() {
    assert_eq!(form("", "", "", "", "").validate(), Err("O campo Host não pode ficar vazio.".to_owned()));
    assert_eq!(form("  ", "", "", "", "").validate(), Err("O campo Host não pode ficar vazio.".to_owned()));
    assert_eq!(form("a\nb", "", "", "", "").validate(), Err("Host não pode conter quebra de linha.".to_owned()));
    assert_eq!(form("a", "x\r", "", "", "").validate(), Err("HostName não pode conter quebra de linha.".to_owned()));
    assert_eq!(form("a", "", "u\n", "", "").validate(), Err("User não pode conter quebra de linha.".to_owned()));
    assert_eq!(form("a", "", "", "2\n2", "").validate(), Err("Port não pode conter quebra de linha.".to_owned()));
    assert_eq!(form("a", "", "", "", "k\n").validate(), Err("IdentityFile não pode conter quebra de linha.".to_owned()));
    assert_eq!(form("a", "", "", "abc", "").validate(), Err("Port deve ser um número entre 1 e 65535.".to_owned()));
    assert_eq!(form("a", "", "", "65536", "").validate(), Err("Port deve ser um número entre 1 e 65535.".to_owned()));
    assert_eq!(form("a", "", "", " 0 ", "").validate(), Err("Port deve ser maior que zero.".to_owned()));
    assert_eq!(form("a", "", "", "", "").validate(), Ok(()));
    assert_eq!(form("a", "h", "u", " 22 ", "k").validate(), Ok(()));
    assert_eq!(form("a", "", "", "00", "").validate(), Err("Port deve ser maior que zero.".to_owned()));
    assert_eq!(form("a", "", "", "+0", "").validate(), Err("Port deve ser maior que zero.".to_owned()));
    assert_eq!(form("a", "", "", "+22", "").validate(), Ok(()));
    assert_eq!(form("a", "", "", "65535", "").validate(), Ok(()));
}

#[test]
fn from_host_reads_known_directives() {
    let h = HostEntry {
        names: "a b".to_owned(),
        body: vec!["  hostname=h.org".to_owned(), "  USER git".to_owned(), "  Port 2".to_owned()],
    };
    let e = HostEditor::from_host(&h);
    assert_eq!(e.names, "a b");
    assert_eq!(e.host_name, "h.org");
    assert_eq!(e.user, "git");
    assert_eq!(e.port, "2");
    assert_eq!(e.identity_file, "");
}

#[test]
fn apply_then_read_back_gives_the_form() {
    let mut h = HostEntry {
        names: "old".to_owned(),
        body: vec!["  # keep".to_owned(), "  HostName old.org".to_owned(), "  Compression yes".to_owned()],
    };
    let e = form("web", "new.org", "root", "2200", "");
    e.apply_to(&mut h);
    assert_eq!(h.names, "web");
    assert_eq!(
        h.body,
        vec!["  # keep", "    HostName new.org", "  Compression yes", "    User root", "    Port 2200"]
    );
    assert!(HostEditor::from_host(&h).same_fields(&e));
}

#[test]
fn apply_trims_names_and_values() {
    let mut h = HostEntry { names: "x".to_owned(), body: vec![] };
    let e = form("  web  ", " a ", "", "", "");
    e.apply_to(&mut h);
    assert_eq!(h.names, "web");
    assert_eq!(h.body, vec!["    HostName a"]);
    assert!(!HostEditor::from_host(&h).same_fields(&e));
}

#[test]
fn apply_value_with_equals_reads_back() {
    let mut h = HostEntry { names: "x".to_owned(), body: vec!["  # c".to_owned()] };
    let e = form("x", "h", "a=b", "", "");
    e.apply_to(&mut h);
    assert_eq!(h.body, vec!["  # c", "    HostName h", "    User a=b"]);
    assert!(HostEditor::from_host(&h).same_fields(&e));
}
