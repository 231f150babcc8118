use ssh_config_manager::{ManagerApp, StatusKind, StatusMessage};

const SAMPLE: &str = "# exemplo\nHost github\n    HostName github.com\n    User git\n\nHost server\n    Port 2222\n";

fn loaded() -> ManagerApp {
    ManagerApp::load(Ok(SAMPLE.to_owned()))
}

#[test]
fn load_selects_first_block() {
    let app = loaded();
    assert_eq!(app.selected, Some(0));
    assert_eq!(app.editor.names, "github");
    assert_eq!(app.editor.user, "git");
    assert_eq!(app.status.kind, StatusKind::Success);
    assert_eq!(app.status.text, "2 host(s) carregado(s).");
    assert!(!app.dirty && !app.confirm_delete && app.search.is_empty());
    assert!(!app.editor_has_changes());
}

#[test]
fn load_error_gives_empty_state() {
    let app = ManagerApp::load(Err("Não foi possível abrir x: not found".to_owned()));
    assert_eq!(app.selected, None);
    assert!(app.document.hosts.is_empty());
    assert_eq!(app.status.kind, StatusKind::Error);
    assert_eq!(app.status.text, "Não foi possível abrir x: not found");
}

#[test]
fn pending_changes_block_selection_and_new_block() {
    let mut app = loaded();
    app.editor.user = "alice".to_owned();
    assert!(app.editor_has_changes());
    app.select_host(1);
    assert_eq!(app.selected, Some(0));
    assert_eq!(app.status.kind, StatusKind::Warning);
    app.add_host();
    assert_eq!(app.document.hosts.len(), 2);
    assert_eq!(app.status.text, "Aplique ou desfaça o formulário atual antes de criar outro host.");
    app.revert_editor();
    assert_eq!(app.editor.user, "git");
    assert_eq!(app.status.text, "Formulário restaurado.");
    app.select_host(1);
    assert_eq!(app.selected, Some(1));
    assert_eq!(app.editor.port, "2222");
    assert_eq!(app.status.text, "Host selecionado.");
}

#[test]
fn apply_save_and_finish() {
    let mut app = loaded();
    app.editor.user = "alice".to_owned();
    app.apply_editor();
    assert!(app.dirty);
    assert_eq!(app.status.kind, StatusKind::Success);
    assert!(!app.editor_has_changes());
    let text = app.save().expect("saving is allowed");
    assert!(text.contains("    User alice\n"));
    app.save_finished(Ok("config.bak".to_owned()));
    assert!(!app.dirty);
    assert_eq!(app.status.text, "Arquivo salvo. Backup: config.bak");
    app.save_finished(Err("disk full".to_owned()));
    assert_eq!(app.status.kind, StatusKind::Error);
}

#[test]
fn invalid_form_is_not_applied() {
    let mut app = loaded();
    app.editor.port = "70000".to_owned();
    app.apply_editor();
    assert!(!app.dirty);
    assert_eq!(app.status.text, "Port deve ser um número entre 1 e 65535.");
    assert_eq!(app.document.hosts[0].body, ["    HostName github.com", "    User git", ""]);
}

#[test]
fn add_and_delete_blocks() {
    let mut app = loaded();
    app.add_host();
    assert_eq!(app.document.hosts.len(), 3);
    assert_eq!(app.selected, Some(2));
    assert_eq!(app.editor.names, "novo-host");
    assert!(app.dirty);
    app.confirm_delete = true;
    app.delete_selected();
    assert_eq!(app.document.hosts.len(), 2);
    assert_eq!(app.selected, Some(1));
    assert_eq!(app.editor.names, "server");
    assert!(!app.confirm_delete);
    app.select_host(0);
    app.delete_selected();
    assert_eq!(app.selected, Some(0));
    assert_eq!(app.editor.names, "server");
    app.delete_selected();
    assert_eq!(app.selected, None);
    assert_eq!(app.editor.names, "");
    assert_eq!(app.status.text, "Host removido em memória. Salve para confirmar.");
    app.delete_selected();
    assert!(app.document.hosts.is_empty());
}

#[test]
fn save_refuses_match_and_duplicates() {
    let mut app = ManagerApp::load(Ok("Host a\nMatch all\n".to_owned()));
    assert_eq!(app.save(), None);
    assert_eq!(
        app.status.text,
        "O arquivo contém Match. Por segurança, esta versão permite visualizar, mas não salvar."
    );
    let mut app = ManagerApp::load(Ok("Host a\nHost a\n".to_owned()));
    assert_eq!(app.save(), None);
    assert_eq!(app.status.text, "O alias 'a' aparece em mais de um bloco Host.");
    let mut app = loaded();
    app.editor.host_name = "x".to_owned();
    assert_eq!(app.save(), None);
    assert_eq!(app.status.text, "Existem campos não aplicados. Clique em Aplicar alterações primeiro.");
}

#[test]
fn open_and_reload() {
    let mut app = loaded();
    app.add_host();
    assert!(!app.open_file());
    assert_eq!(app.status.text, "Salve ou desfaça as alterações antes de abrir outro arquivo.");
    let mut app = loaded();
    app.search = "git".to_owned();
    assert!(app.open_file());
    app.file_opened(Ok("Host z\n".to_owned()));
    assert_eq!(app.status.text, "Arquivo aberto. 1 host(s) carregado(s).");
    assert!(app.search.is_empty());
    assert_eq!(app.editor.names, "z");
    app.file_opened(Err("denied".to_owned()));
    assert_eq!(app.status.text, "denied");
    assert_eq!(app.document.hosts.len(), 1);
    app.reload(Ok(SAMPLE.to_owned()));
    assert_eq!(app.document.hosts.len(), 2);
    assert_eq!(app.status.text, "Arquivo recarregado.");
    app.reload(Err("gone".to_owned()));
    assert_eq!(app.status.kind, StatusKind::Error);
    assert_eq!(app.document.hosts.len(), 2);
}

#[test]
fn search_filters_blocks_ignoring_case() {
    let mut app = loaded();
    assert_eq!(app.visible_hosts(), vec![0, 1]);
    app.search = "  GITHUB.COM ".to_owned();
    assert_eq!(app.visible_hosts(), vec![0]);
    app.search = "SERV".to_owned();
    assert_eq!(app.visible_hosts(), vec![1]);
    app.search = "nothing".to_owned();
    assert!(app.visible_hosts().is_empty());
}

#[test]
fn status_titles() {
    assert_eq!(StatusMessage::information("x".to_owned()).title(), "INFORMAÇÃO");
    assert_eq!(StatusMessage::success("x".to_owned()).title(), "SUCESSO");
    assert_eq!(StatusMessage::warning("x".to_owned()).title(), "ATENÇÃO");
    assert_eq!(StatusMessage::error("x".to_owned()).title(), "ERRO");
}

#[test]
fn offered_actions() {
    let mut app = loaded();
    assert!(!app.can_save());
    assert!(app.can_reload());
    assert!(app.can_open_file());
    app.editor.user = "x".to_owned();
    assert!(!app.can_open_file());
    app.apply_editor();
    assert!(app.can_save());
    assert!(!app.can_reload());
    assert!(!app.can_open_file());
}
