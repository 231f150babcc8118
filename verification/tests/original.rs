use ssh_config_manager::{parse_document, validate_unique_hosts, HostEditor, HostEntry};

#[test]
fn parses_hosts_and_known_options() {
    let text = "# exemplo\nHost github\n    HostName github.com\n    User git\n\nHost server\n    Port 2222\n";
    let document = parse_document(text);

    assert_eq!(document.prefix, ["# exemplo"]);
    assert_eq!(document.hosts.len(), 2);
    assert_eq!(document.hosts[0].names, "github");
    assert_eq!(document.hosts[0].option("hostname"), "github.com");
    assert_eq!(document.hosts[1].option("Port"), "2222");
}

#[test]
fn editing_preserves_unknown_directives_and_comments() {
    let mut host = HostEntry {
        names: "server".to_owned(),
        body: vec![
            "    # comentário importante".to_owned(),
            "    ForwardAgent yes".to_owned(),
            "    User old".to_owned(),
        ],
    };

    host.set_option("User", "new");

    assert!(host.body.iter().any(|line| line.contains("comentário")));
    assert!(host.body.iter().any(|line| line.contains("ForwardAgent")));
    assert_eq!(host.option("User"), "new");
}

#[test]
fn rejects_invalid_port_and_duplicate_alias() {
    let editor = HostEditor {
        names: "server".to_owned(),
        port: "70000".to_owned(),
        ..Default::default()
    };
    assert!(editor.validate().is_err());

    let document = parse_document("Host same\nHost same\n");
    assert!(validate_unique_hosts(&document).is_err());
}
