//! The state of the editor window and the decisions of each user action.
//! Reading and writing files stays with the caller, which hands over what
//! it read and what became of a write.
use vstd::prelude::*;
use crate::document::{
    all_aliases, document_text, duplicate_alias_message, empty_document, first_repeated, host_views, parse_document, parsed_document, serialize_document, validate_unique_hosts,
    ConfigDocument, DocView,
};
use crate::editor::{
    editor_of, empty_editor, host_with_editor, is_normalized, law_form_reads_back_after_apply,
    validation_error, EditorView, HostEditor,
};
use crate::host::{
    new_host_body, new_host_names, option_value, search_text_of, HostEntry, HostView,
};
use crate::status::{StatusKind, StatusMessage, StatusView};
use crate::text::{
    contains_str, contains_text, decimal, decimal_string, lowercase, push_str, to_lowercase, trim,
    trim_str,
};

verus! {

/// The full state of the application, apart from the path of the file.
pub struct ManagerApp {
    pub document: ConfigDocument,
    pub selected: Option<usize>,
    pub editor: HostEditor,
    /// Text used to filter the list of blocks.
    pub search: String,
    pub dirty: bool,
    pub confirm_delete: bool,
    pub status: StatusMessage,
}

/// What the application state holds.
pub struct AppView {
    pub document: DocView,
    pub selected: Option<usize>,
    pub editor: EditorView,
    pub search: Seq<char>,
    pub dirty: bool,
    pub confirm_delete: bool,
    pub status: StatusView,
}

impl View for ManagerApp {
    type V = AppView;

    open spec fn view(&self) -> AppView {
        AppView {
            document: self.document@,
            selected: self.selected,
            editor: self.editor@,
            search: self.search@,
            dirty: self.dirty,
            confirm_delete: self.confirm_delete,
            status: self.status@,
        }
    }
}

/// A block is selected exactly when there is one, and the selection
/// points at a block.
pub open spec fn well_formed(a: AppView) -> bool {
    match a.selected {
        Some(i) => i < a.document.hosts.len(),
        None => a.document.hosts.len() == 0,
    }
}

/// The form differs from the selected block.
pub open spec fn pending_changes(a: AppView) -> bool {
    &&& a.selected is Some
    &&& a.selected.unwrap() < a.document.hosts.len()
    &&& a.editor != editor_of(a.document.hosts[a.selected.unwrap() as int])
}

/// The selection after a document is opened: its first block, if any.
pub open spec fn first_selection(d: DocView) -> Option<usize> {
    if d.hosts.len() > 0 {
        Some(0usize)
    } else {
        None
    }
}

/// The form shown for a selection.
pub open spec fn editor_for(d: DocView, sel: Option<usize>) -> EditorView {
    match sel {
        Some(i) => editor_of(d.hosts[i as int]),
        None => empty_editor(),
    }
}

/// `<n> host(s) carregado(s).`
pub open spec fn loaded_message(n: nat) -> Seq<char> {
    decimal(n) + " host(s) carregado(s)."@
}

/// The status with the given kind and text.
pub open spec fn status_of(kind: StatusKind, text: Seq<char>) -> StatusView {
    StatusView { kind, text }
}

/// The state after a file was read at start-up: its content, or the
/// message of the read error.
pub open spec fn loaded_app(read: Result<Seq<char>, Seq<char>>) -> AppView {
    match read {
        Ok(c) => {
            let d = parsed_document(c);
            AppView {
                document: d,
                selected: first_selection(d),
                editor: editor_for(d, first_selection(d)),
                search: seq![],
                dirty: false,
                confirm_delete: false,
                status: status_of(StatusKind::Success, loaded_message(d.hosts.len())),
            }
        },
        Err(e) => AppView {
            document: empty_document(),
            selected: None,
            editor: empty_editor(),
            search: seq![],
            dirty: false,
            confirm_delete: false,
            status: status_of(StatusKind::Error, e),
        },
    }
}

/// The text of a read outcome.
pub open spec fn read_view(read: Result<String, String>) -> Result<Seq<char>, Seq<char>> {
    match read {
        Ok(c) => Ok(c@),
        Err(e) => Err(e@),
    }
}

/// The two states differ at most in their status message.
pub open spec fn same_but_status(a: AppView, b: AppView) -> bool {
    &&& a.document == b.document
    &&& a.selected == b.selected
    &&& a.editor == b.editor
    &&& a.search == b.search
    &&& a.dirty == b.dirty
    &&& a.confirm_delete == b.confirm_delete
}

/// A block's search text (lower-cased) matches the query (lower-cased):
/// the query is empty or occurs in it.
pub open spec fn matches_query(text_lower: Seq<char>, query_lower: Seq<char>) -> bool {
    query_lower.len() == 0 || contains_text(text_lower, query_lower)
}

/// The block at `i` is shown by the list filter.
pub open spec fn is_visible(a: AppView, i: int) -> bool {
    matches_query(lowercase(search_text_of(a.document.hosts[i])), lowercase(trim(a.search)))
}

/// Whether a block whose lower-cased search text is `text_lower` is shown
/// for the lower-cased query `query_lower`.
pub fn host_matches(text_lower: &str, query_lower: &str) -> (r: bool)
    ensures
        r == matches_query(text_lower@, query_lower@),
{
    query_lower.is_empty() || contains_str(text_lower, query_lower)
}

/// Whether a block is listed depends on its search text and on the query
/// only up to lower-casing: it is listed exactly when the lower-cased
/// trimmed query is empty or occurs in the lower-cased search text, so two
/// blocks whose search texts lower-case alike, filtered by queries that
/// lower-case alike, are listed alike.
pub proof fn law_visibility_ignores_case(a: AppView, i: int, b: AppView, j: int)
    requires
        0 <= i < a.document.hosts.len(),
        0 <= j < b.document.hosts.len(),
        lowercase(trim(a.search)) == lowercase(trim(b.search)),
        lowercase(search_text_of(a.document.hosts[i])) == lowercase(
            search_text_of(b.document.hosts[j]),
        ),
    ensures
        is_visible(a, i) <==> (lowercase(trim(a.search)).len() == 0 || contains_text(
            lowercase(search_text_of(a.document.hosts[i])),
            lowercase(trim(a.search)),
        )),
        is_visible(a, i) == is_visible(b, j),
{
}

/// The form counts as changed exactly when a block is selected and one of
/// the five fields differs from what that block holds: its names, or the
/// value of its `HostName`, `User`, `Port` or `IdentityFile` directive.
pub proof fn law_pending_changes_fieldwise(a: AppView)
    ensures
        pending_changes(a) <==> match a.selected {
            Some(s) => s < a.document.hosts.len() && {
                let h = a.document.hosts[s as int];
                ||| a.editor.names != h.names
                ||| a.editor.host_name != option_value(h.body, "HostName"@)
                ||| a.editor.user != option_value(h.body, "User"@)
                ||| a.editor.port != option_value(h.body, "Port"@)
                ||| a.editor.identity_file != option_value(h.body, "IdentityFile"@)
            },
            None => false,
        },
{
}

/// The state after the form is written to the block at `i`.
pub open spec fn applied_to_selection(a: AppView, i: usize) -> AppView {
    AppView {
        document: DocView {
            hosts: a.document.hosts.update(i as int, host_with_editor(a.document.hosts[i as int], a.editor)),
            ..a.document
        },
        dirty: true,
        status: status_of(
            StatusKind::Success,
            "Alterações aplicadas em memória. Clique em Salvar para gravar o arquivo."@,
        ),
        ..a
    }
}

/// After a normalized form is applied to the selected block, the form no
/// longer differs from the block: nothing is pending.
pub proof fn law_apply_leaves_nothing_pending(a: AppView)
    requires
        well_formed(a),
        a.selected is Some,
        is_normalized(a.editor),
    ensures
        well_formed(applied_to_selection(a, a.selected.unwrap())),
        !pending_changes(applied_to_selection(a, a.selected.unwrap())),
{
    let i = a.selected.unwrap();
    law_form_reads_back_after_apply(a.document.hosts[i as int], a.editor);
}

impl ManagerApp {
    /// The form for a selection of the document.
    fn editor_for_selection(document: &ConfigDocument, selected: Option<usize>) -> (r: HostEditor)
        requires
            selected matches Some(i) ==> i < document@.hosts.len(),
        ensures
            r@ == editor_for(document@, selected),
    {
        match selected {
            Some(index) => HostEditor::from_host(&document.hosts[index]),
            None => HostEditor::default(),
        }
    }

    /// The first block of a document, if any.
    fn first_host(document: &ConfigDocument) -> (r: Option<usize>)
        ensures
            r == first_selection(document@),
    {
        if document.hosts.len() > 0 {
            Some(0)
        } else {
            None
        }
    }

    /// Builds the application from what reading the file gave: its content
    /// or the message of the error.
    pub fn load(read: Result<String, String>) -> (r: Self)
        ensures
            well_formed(r@),
            r@ == loaded_app(read_view(read)),
    {
        match read {
            Ok(content) => {
                let document = parse_document(content.as_str());
                let selected = Self::first_host(&document);
                let editor = Self::editor_for_selection(&document, selected);
                let mut text = decimal_string(document.hosts.len());
                push_str(&mut text, " host(s) carregado(s).");
                ManagerApp {
                    document,
                    selected,
                    editor,
                    search: String::new(),
                    dirty: false,
                    confirm_delete: false,
                    status: StatusMessage::success(text),
                }
            },
            Err(error) => ManagerApp {
                document: ConfigDocument::default(),
                selected: None,
                editor: HostEditor::default(),
                search: String::new(),
                dirty: false,
                confirm_delete: false,
                status: StatusMessage::error(error),
            },
        }
    }

    /// Whether the form differs from the selected block.
    pub fn editor_has_changes(&self) -> (r: bool)
        ensures
            r == pending_changes(self@),
    {
        match self.selected {
            Some(index) => {
                if index < self.document.hosts.len() {
                    let stored = HostEditor::from_host(&self.document.hosts[index]);
                    !self.editor.same_fields(&stored)
                } else {
                    false
                }
            },
            None => false,
        }
    }

    /// Selects a block of the list, unless the form holds changes that were
    /// not applied.
    pub fn select_host(&mut self, index: usize)
        requires
            index < old(self)@.document.hosts.len() || pending_changes(old(self)@),
            well_formed(old(self)@),
        ensures
            well_formed(final(self)@),
            pending_changes(old(self)@) ==> same_but_status(final(self)@, old(self)@)
                && final(self)@.status == status_of(
                StatusKind::Warning,
                "Aplique ou desfaça as alterações do formulário antes de trocar de host."@,
            ),
            !pending_changes(old(self)@) ==> final(self)@ == (AppView {
                selected: Some(index),
                editor: editor_of(old(self)@.document.hosts[index as int]),
                status: status_of(StatusKind::Information, "Host selecionado."@),
                ..old(self)@
            }),
    {
        if self.editor_has_changes() {
            self.status = StatusMessage::warning(
                "Aplique ou desfaça as alterações do formulário antes de trocar de host.".to_owned(),
            );
            return;
        }
        self.selected = Some(index);
        self.editor = HostEditor::from_host(&self.document.hosts[index]);
        self.status = StatusMessage::information("Host selecionado.".to_owned());
    }

    /// Validates the form and writes it to the selected block.
    pub fn apply_editor(&mut self)
        requires
            well_formed(old(self)@),
        ensures
            well_formed(final(self)@),
            validation_error(old(self)@.editor) matches Some(m) ==> same_but_status(
                final(self)@,
                old(self)@,
            ) && final(self)@.status == status_of(StatusKind::Error, m),
            validation_error(old(self)@.editor) is None && old(self)@.selected is None
                ==> final(self)@ == old(self)@,
            validation_error(old(self)@.editor) is None && old(self)@.selected is Some
                ==> final(self)@ == applied_to_selection(old(self)@, old(self)@.selected.unwrap()),
    {
        match self.editor.validate() {
            Err(message) => {
                self.status = StatusMessage::error(message);
                return;
            },
            Ok(()) => {},
        }
        let index = match self.selected {
            Some(index) => index,
            None => {
                return;
            },
        };
        let ghost old_hosts = self.document.hosts@;
        let mut host = self.document.hosts.remove(index);
        self.editor.apply_to(&mut host);
        self.document.hosts.insert(index, host);
        proof {
            assert(host_views(self.document.hosts@) =~= host_views(old_hosts).update(
                index as int,
                host@,
            ));
        }
        self.dirty = true;
        self.status = StatusMessage::success(
            "Alterações aplicadas em memória. Clique em Salvar para gravar o arquivo.".to_owned(),
        );
    }

    /// Appends a new block and selects it, unless the form holds changes
    /// that were not applied.
    pub fn add_host(&mut self)
        requires
            well_formed(old(self)@),
        ensures
            well_formed(final(self)@),
            pending_changes(old(self)@) ==> same_but_status(final(self)@, old(self)@)
                && final(self)@.status == status_of(
                StatusKind::Warning,
                "Aplique ou desfaça o formulário atual antes de criar outro host."@,
            ),
            !pending_changes(old(self)@) ==> final(self)@ == (AppView {
                document: DocView {
                    hosts: old(self)@.document.hosts.push(
                        HostView { names: new_host_names(), body: new_host_body() },
                    ),
                    ..old(self)@.document
                },
                selected: Some(old(self)@.document.hosts.len() as usize),
                editor: editor_of(HostView { names: new_host_names(), body: new_host_body() }),
                dirty: true,
                status: status_of(StatusKind::Information, "Novo host criado em memória."@),
                ..old(self)@
            }),
    {
        if self.editor_has_changes() {
            self.status = StatusMessage::warning(
                "Aplique ou desfaça o formulário atual antes de criar outro host.".to_owned(),
            );
            return;
        }
        let ghost old_hosts = self.document.hosts@;
        let host = HostEntry::new();
        let ghost hv = host@;
        self.document.hosts.push(host);
        assert(host_views(self.document.hosts@) =~= host_views(old_hosts).push(hv));
        let index = self.document.hosts.len() - 1;
        self.selected = Some(index);
        self.editor = HostEditor::from_host(&self.document.hosts[index]);
        self.dirty = true;
        self.status = StatusMessage::information("Novo host criado em memória.".to_owned());
    }

    /// Removes the selected block (after the user confirmed it); the
    /// selection moves to the block now at that place, or the last one.
    pub fn delete_selected(&mut self)
        requires
            well_formed(old(self)@),
        ensures
            well_formed(final(self)@),
            old(self)@.selected is None ==> final(self)@ == old(self)@,
            old(self)@.selected matches Some(i) ==> {
                let hosts = old(self)@.document.hosts.remove(i as int);
                let sel = if hosts.len() == 0 {
                    None
                } else if i < hosts.len() {
                    Some(i)
                } else {
                    Some((hosts.len() - 1) as usize)
                };
                final(self)@ == (AppView {
                    document: DocView { hosts, ..old(self)@.document },
                    selected: sel,
                    editor: editor_for(DocView { hosts, ..old(self)@.document }, sel),
                    dirty: true,
                    confirm_delete: false,
                    status: status_of(
                        StatusKind::Warning,
                        "Host removido em memória. Salve para confirmar."@,
                    ),
                    ..old(self)@
                })
            },
    {
        let index = match self.selected {
            Some(index) => index,
            None => {
                return;
            },
        };
        let ghost old_hosts = self.document.hosts@;
        self.document.hosts.remove(index);
        assert(host_views(self.document.hosts@) =~= host_views(old_hosts).remove(index as int));
        self.selected = if self.document.hosts.len() == 0 {
            None
        } else if index < self.document.hosts.len() {
            Some(index)
        } else {
            Some(self.document.hosts.len() - 1)
        };
        self.editor = Self::editor_for_selection(&self.document, self.selected);
        self.dirty = true;
        self.confirm_delete = false;
        self.status = StatusMessage::warning(
            "Host removido em memória. Salve para confirmar.".to_owned(),
        );
    }

    /// Takes the file again, as read anew (its content or the message of
    /// the read error). The caller offers this only without unsaved edits.
    pub fn reload(&mut self, read: Result<String, String>)
        requires
            well_formed(old(self)@),
        ensures
            well_formed(final(self)@),
            read matches Err(e) ==> same_but_status(final(self)@, old(self)@)
                && final(self)@.status == status_of(StatusKind::Error, e@),
            read matches Ok(c) ==> {
                let d = parsed_document(c@);
                final(self)@ == (AppView {
                    document: d,
                    selected: first_selection(d),
                    editor: editor_for(d, first_selection(d)),
                    dirty: false,
                    status: status_of(StatusKind::Success, "Arquivo recarregado."@),
                    ..old(self)@
                })
            },
    {
        match read {
            Ok(content) => {
                self.document = parse_document(content.as_str());
                self.selected = Self::first_host(&self.document);
                self.editor = Self::editor_for_selection(&self.document, self.selected);
                self.dirty = false;
                self.status = StatusMessage::success("Arquivo recarregado.".to_owned());
            },
            Err(error) => {
                self.status = StatusMessage::error(error);
            },
        }
    }

    /// Whether another file may be chosen: not while there are unsaved or
    /// unapplied edits, which would be lost (the status then says so).
    pub fn open_file(&mut self) -> (r: bool)
        requires
            well_formed(old(self)@),
        ensures
            well_formed(final(self)@),
            r == !(old(self)@.dirty || pending_changes(old(self)@)),
            r ==> final(self)@ == old(self)@,
            !r ==> same_but_status(final(self)@, old(self)@) && final(self)@.status == status_of(
                StatusKind::Warning,
                "Salve ou desfaça as alterações antes de abrir outro arquivo."@,
            ),
    {
        if self.dirty || self.editor_has_changes() {
            self.status = StatusMessage::warning(
                "Salve ou desfaça as alterações antes de abrir outro arquivo.".to_owned(),
            );
            return false;
        }
        true
    }

    /// Takes the file the user chose, as read (its content or the message
    /// of the read error).
    pub fn file_opened(&mut self, read: Result<String, String>)
        requires
            well_formed(old(self)@),
        ensures
            well_formed(final(self)@),
            read matches Err(e) ==> same_but_status(final(self)@, old(self)@)
                && final(self)@.status == status_of(StatusKind::Error, e@),
            read matches Ok(c) ==> {
                let d = parsed_document(c@);
                final(self)@ == (AppView {
                    document: d,
                    selected: first_selection(d),
                    editor: editor_for(d, first_selection(d)),
                    search: seq![],
                    dirty: false,
                    confirm_delete: false,
                    status: status_of(
                        StatusKind::Success,
                        "Arquivo aberto. "@ + loaded_message(d.hosts.len()),
                    ),
                })
            },
    {
        match read {
            Ok(content) => {
                let document = parse_document(content.as_str());
                let mut text = "Arquivo aberto. ".to_owned();
                let count = decimal_string(document.hosts.len());
                push_str(&mut text, count.as_str());
                push_str(&mut text, " host(s) carregado(s).");
                assert(text@ =~= "Arquivo aberto. "@ + loaded_message(document@.hosts.len()));
                self.document = document;
                self.selected = Self::first_host(&self.document);
                self.editor = Self::editor_for_selection(&self.document, self.selected);
                self.search = String::new();
                self.dirty = false;
                self.confirm_delete = false;
                self.status = StatusMessage::success(text);
            },
            Err(error) => {
                self.status = StatusMessage::error(error);
            },
        }
    }

    /// Checks the document before it is written: returns the text to write,
    /// or `None` (with the reason in the status) when the form holds
    /// unapplied changes, the file holds `Match`, or an alias repeats.
    pub fn save(&mut self) -> (r: Option<String>)
        requires
            well_formed(old(self)@),
        ensures
            well_formed(final(self)@),
            same_but_status(final(self)@, old(self)@),
            r is Some <==> !pending_changes(old(self)@) && !old(self)@.document.contains_match
                && first_repeated(all_aliases(old(self)@.document.hosts)) is None,
            r matches Some(t) ==> t@ == document_text(old(self)@.document) && final(self)@
                == old(self)@,
            pending_changes(old(self)@) ==> final(self)@.status == status_of(
                StatusKind::Warning,
                "Existem campos não aplicados. Clique em Aplicar alterações primeiro."@,
            ),
            !pending_changes(old(self)@) && old(self)@.document.contains_match
                ==> final(self)@.status == status_of(
                StatusKind::Error,
                "O arquivo contém Match. Por segurança, esta versão permite visualizar, mas não salvar."@,
            ),
            !pending_changes(old(self)@) && !old(self)@.document.contains_match
                ==> match first_repeated(all_aliases(old(self)@.document.hosts)) {
                Some(w) => final(self)@.status == status_of(
                    StatusKind::Error,
                    duplicate_alias_message(w),
                ),
                None => true,
            },
    {
        if self.editor_has_changes() {
            self.status = StatusMessage::warning(
                "Existem campos não aplicados. Clique em Aplicar alterações primeiro.".to_owned(),
            );
            return None;
        }
        if self.document.contains_match {
            self.status = StatusMessage::error(
                "O arquivo contém Match. Por segurança, esta versão permite visualizar, mas não salvar.".to_owned(),
            );
            return None;
        }
        match validate_unique_hosts(&self.document) {
            Err(message) => {
                self.status = StatusMessage::error(message);
                return None;
            },
            Ok(()) => {},
        }
        Some(serialize_document(&self.document))
    }

    /// Takes the outcome of writing the file: the name of the backup made
    /// before it, or the message of the error.
    pub fn save_finished(&mut self, written: Result<String, String>)
        requires
            well_formed(old(self)@),
        ensures
            well_formed(final(self)@),
            written matches Err(e) ==> same_but_status(final(self)@, old(self)@)
                && final(self)@.status == status_of(StatusKind::Error, e@),
            written matches Ok(b) ==> final(self)@ == (AppView {
                dirty: false,
                status: status_of(StatusKind::Success, "Arquivo salvo. Backup: "@ + b@),
                ..old(self)@
            }),
    {
        match written {
            Ok(backup) => {
                self.dirty = false;
                let mut text = "Arquivo salvo. Backup: ".to_owned();
                push_str(&mut text, backup.as_str());
                self.status = StatusMessage::success(text);
            },
            Err(error) => {
                self.status = StatusMessage::error(error);
            },
        }
    }

    /// Restores the form from the selected block (the "undo" button).
    pub fn revert_editor(&mut self)
        requires
            well_formed(old(self)@),
        ensures
            well_formed(final(self)@),
            old(self)@.selected is None ==> final(self)@ == old(self)@,
            old(self)@.selected matches Some(i) ==> final(self)@ == (AppView {
                editor: editor_of(old(self)@.document.hosts[i as int]),
                status: status_of(StatusKind::Information, "Formulário restaurado."@),
                ..old(self)@
            }),
    {
        match self.selected {
            Some(index) => {
                self.editor = HostEditor::from_host(&self.document.hosts[index]);
                self.status = StatusMessage::information("Formulário restaurado.".to_owned());
            },
            None => {},
        }
    }

    /// The indices of the blocks the list shows for the search text, in
    /// order.
    pub fn visible_hosts(&self) -> (r: Vec<usize>)
        ensures
            forall|k: int| 0 <= k < r@.len() ==> r@[k] < self@.document.hosts.len(),
            forall|k: int, l: int| 0 <= k < l < r@.len() ==> r@[k] < r@[l],
            forall|i: int|
                0 <= i < self@.document.hosts.len() ==> (r@.contains(i as usize) <==> is_visible(
                    self@,
                    i,
                )),
            trim(self@.search).len() == 0 ==> forall|i: int|
                0 <= i < self@.document.hosts.len() ==> #[trigger] r@.contains(i as usize),
    {
        let query = to_lowercase(trim_str(self.search.as_str()));
        let mut r: Vec<usize> = Vec::new();
        let n = self.document.hosts.len();
        let mut i: usize = 0;
        while i < n
            invariant
                n == self@.document.hosts.len(),
                query@ == lowercase(trim(self@.search)),
                trim(self@.search).len() == 0 ==> query@.len() == 0,
                i <= n,
                forall|k: int| 0 <= k < r@.len() ==> r@[k] < i,
                forall|k: int, l: int| 0 <= k < l < r@.len() ==> r@[k] < r@[l],
                forall|j: int| 0 <= j < i ==> (r@.contains(j as usize) <==> is_visible(self@, j)),
            decreases n - i,
        {
            let host = &self.document.hosts[i];
            let text = to_lowercase(host.search_text().as_str());
            let ghost old_r = r@;
            if host_matches(text.as_str(), query.as_str()) {
                r.push(i);
                proof {
                    assert(r@[r@.len() - 1] == i);
                    assert forall|j: int| 0 <= j < i implies (#[trigger] r@.contains(j as usize)
                        <==> old_r.contains(j as usize)) by {
                        if r@.contains(j as usize) {
                            let k = choose|k: int| 0 <= k < r@.len() && r@[k] == j as usize;
                            if k < old_r.len() {
                                assert(old_r[k] == j as usize);
                            }
                        }
                        if old_r.contains(j as usize) {
                            let k = choose|k: int| 0 <= k < old_r.len() && old_r[k] == j as usize;
                            assert(r@[k] == j as usize);
                        }
                    }
                }
            } else {
                proof {
                    if r@.contains(i) {
                        let k = choose|k: int| 0 <= k < r@.len() && r@[k] == i;
                    }
                }
            }
            i = i + 1;
        }
        proof {
            if trim(self@.search).len() == 0 {
                assert forall|j: int| 0 <= j < n implies #[trigger] r@.contains(j as usize) by {
                    assert(is_visible(self@, j));
                }
            }
        }
        r
    }

    /// Whether saving is offered: only with edits not yet written.
    pub fn can_save(&self) -> (r: bool)
        ensures
            r == self@.dirty,
    {
        self.dirty
    }

    /// Whether reloading is offered: only without edits not yet written.
    pub fn can_reload(&self) -> (r: bool)
        ensures
            r == !self@.dirty,
    {
        !self.dirty
    }

    /// Whether opening another file is offered: only without edits that
    /// are not yet written or not yet applied.
    pub fn can_open_file(&self) -> (r: bool)
        ensures
            r == !(self@.dirty || pending_changes(self@)),
    {
        !self.dirty && !self.editor_has_changes()
    }
}

} // verus!
