use ssh_config_manager::{split_directive, split_lines};

#[test]
fn splits_space_and_equals_syntax() {
    assert_eq!(split_directive("User ubuntu"), Some(("User", "ubuntu")));
    assert_eq!(split_directive("User=ubuntu"), Some(("User", "ubuntu")));
    assert_eq!(split_directive("   User   ubuntu  "), Some(("User", "ubuntu")));
    assert_eq!(split_directive(" User = ubuntu "), Some(("User", "ubuntu")));
    assert_eq!(split_directive("A = b = c"), Some(("A", "b = c")));
    assert_eq!(split_directive("ForwardAgent"), Some(("ForwardAgent", "")));
    assert_eq!(split_directive("Host a b\tc"), Some(("Host", "a b\tc")));
    assert_eq!(split_directive("\tIdentityFile\t~/.ssh/id"), Some(("IdentityFile", "~/.ssh/id")));
    assert_eq!(split_directive("Host a=b"), Some(("Host", "a=b")));
    assert_eq!(split_directive("    User x=y"), Some(("User", "x=y")));
    assert_eq!(split_directive("User =x"), Some(("User", "x")));
    assert_eq!(split_directive("Key==v"), Some(("Key", "=v")));
    assert_eq!(split_directive("=x"), Some(("", "x")));
}

#[test]
fn blank_lines_and_comments_hold_no_directive() {
    assert_eq!(split_directive(""), None);
    assert_eq!(split_directive("    "), None);
    assert_eq!(split_directive("# comment"), None);
    assert_eq!(split_directive("   #User x"), None);
    assert_eq!(split_directive("User #x"), Some(("User", "#x")));
}

#[test]
fn lines_agree_with_std() {
    let samples = [
        "",
        "\n",
        "a",
        "a\n",
        "a\nb",
        "a\r\nb\r\n",
        "a\r",
        "a\r\rb\n",
        "\n\nx\n\n",
        "Host a\n    User b\r\n\nHost c",
    ];
    for s in samples {
        let expected: Vec<String> = s.lines().map(|l| l.to_owned()).collect();
        assert_eq!(split_lines(s), expected, "{:?}", s);
    }
}
