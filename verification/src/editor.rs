//! The form fields of one `Host` block: reading them from a block,
//! validating them and writing them back.
use vstd::prelude::*;
use crate::host::{
    body_with_option, is_plain_key, law_option_after_set_option, law_set_option_keeps_lines,
    law_set_option_keeps_other_keys, line_has_key, option_value, HostEntry, HostView,
};
use crate::directive::starts_with_equals;
use crate::text::{
    contains_char, decimal, digit_char, eq_ignoring_ascii_case, push_str, same_ignoring_ascii_case,
    trim, trim_str,
};

verus! {

/// Temporary fields shown in the form.
#[derive(Clone, PartialEq)]
pub struct HostEditor {
    pub names: String,
    pub host_name: String,
    pub user: String,
    pub port: String,
    pub identity_file: String,
}

/// What the form holds.
pub struct EditorView {
    pub names: Seq<char>,
    pub host_name: Seq<char>,
    pub user: Seq<char>,
    pub port: Seq<char>,
    pub identity_file: Seq<char>,
}

impl View for HostEditor {
    type V = EditorView;

    open spec fn view(&self) -> EditorView {
        EditorView {
            names: self.names@,
            host_name: self.host_name@,
            user: self.user@,
            port: self.port@,
            identity_file: self.identity_file@,
        }
    }
}

/// The empty form.
pub open spec fn empty_editor() -> EditorView {
    EditorView {
        names: seq![],
        host_name: seq![],
        user: seq![],
        port: seq![],
        identity_file: seq![],
    }
}

impl Default for HostEditor {
    fn default() -> (r: Self)
        ensures
            r@ == empty_editor(),
    {
        HostEditor {
            names: String::new(),
            host_name: String::new(),
            user: String::new(),
            port: String::new(),
            identity_file: String::new(),
        }
    }
}

/// The form filled from a block: its names and the values of its
/// `HostName`, `User`, `Port` and `IdentityFile` directives.
pub open spec fn editor_of(h: HostView) -> EditorView {
    EditorView {
        names: h.names,
        host_name: option_value(h.body, "HostName"@),
        user: option_value(h.body, "User"@),
        port: option_value(h.body, "Port"@),
        identity_file: option_value(h.body, "IdentityFile"@),
    }
}

/// A decimal digit.
pub open spec fn is_digit(c: char) -> bool {
    '0' <= c && c <= '9'
}

/// The number that a sequence of decimal digits writes.
pub open spec fn digits_value(d: Seq<char>) -> nat
    decreases d.len(),
{
    if d.len() == 0 {
        0
    } else {
        digits_value(d.drop_last()) * 10 + ((d.last() as u32) - ('0' as u32)) as nat
    }
}

/// The digits of an unsigned number, after an optional `+` sign.
pub open spec fn unsigned_digits(s: Seq<char>) -> Seq<char> {
    if s.len() > 0 && s[0] == '+' {
        s.drop_first()
    } else {
        s
    }
}

/// `s` is a `u16` as `str::parse::<u16>` reads it: an optional `+`, then
/// one or more decimal digits, writing at most 65535.
pub open spec fn parses_as_u16(s: Seq<char>) -> bool {
    let d = unsigned_digits(s);
    &&& d.len() > 0
    &&& forall|i: int| 0 <= i < d.len() ==> is_digit(#[trigger] d[i])
    &&& digits_value(d) <= 65535
}

/// The text holds a line feed or a carriage return.
pub open spec fn has_line_break(s: Seq<char>) -> bool {
    s.contains('\n') || s.contains('\r')
}

/// The message for a field that holds a line break.
pub open spec fn line_break_message(label: Seq<char>) -> Seq<char> {
    label + " não pode conter quebra de linha."@
}

/// What is wrong with a form, checked in this order: an empty alias, a line
/// break in any field, a port that is not a number up to 65535, a port
/// whose value is zero (`0`, `00`, `+0`, ...). `None` when the form is valid.
pub open spec fn validation_error(e: EditorView) -> Option<Seq<char>> {
    if trim(e.names).len() == 0 {
        Some("O campo Host não pode ficar vazio."@)
    } else if has_line_break(e.names) {
        Some(line_break_message("Host"@))
    } else if has_line_break(e.host_name) {
        Some(line_break_message("HostName"@))
    } else if has_line_break(e.user) {
        Some(line_break_message("User"@))
    } else if has_line_break(e.port) {
        Some(line_break_message("Port"@))
    } else if has_line_break(e.identity_file) {
        Some(line_break_message("IdentityFile"@))
    } else if trim(e.port).len() > 0 && !parses_as_u16(trim(e.port)) {
        Some("Port deve ser um número entre 1 e 65535."@)
    } else if trim(e.port).len() > 0 && digits_value(unsigned_digits(trim(e.port))) == 0 {
        Some("Port deve ser maior que zero."@)
    } else {
        None
    }
}

/// The lines of a block after the form's four directives are written to it.
pub open spec fn body_with_editor(body: Seq<Seq<char>>, e: EditorView) -> Seq<Seq<char>> {
    let b1 = body_with_option(body, "HostName"@, e.host_name);
    let b2 = body_with_option(b1, "User"@, e.user);
    let b3 = body_with_option(b2, "Port"@, e.port);
    body_with_option(b3, "IdentityFile"@, e.identity_file)
}

/// `str::parse::<u16>`: `Some` exactly when `s` is an optional `+`
/// followed by decimal digits writing at most 65535.
pub fn parse_u16(s: &str) -> (r: Option<u16>)
    ensures
        r is Some <==> parses_as_u16(s@),
        r matches Some(v) ==> v == digits_value(unsigned_digits(s@)),
{
    let cs = crate::text::chars_of(s);
    let n = cs.len();
    let mut start: usize = 0;
    if n > 0 && cs[0] == '+' {
        start = 1;
    }
    let ghost d = unsigned_digits(s@);
    proof {
        assert(d =~= cs@.subrange(start as int, n as int));
    }
    if start == n {
        return None;
    }
    let mut v: u32 = 0;
    let mut i = start;
    while i < n
        invariant
            cs@ == s@,
            n == cs@.len(),
            start <= i <= n,
            d == cs@.subrange(start as int, n as int),
            d == unsigned_digits(s@),
            forall|j: int| 0 <= j < i - start ==> is_digit(#[trigger] d[j]),
            v == (if digits_value(d.take(i - start)) < 65536 {
                digits_value(d.take(i - start))
            } else {
                65536
            }),
        decreases n - i,
    {
        let c = cs[i];
        if !('0' <= c && c <= '9') {
            assert(d[i - start] == c);
            assert(!is_digit(d[i - start]));
            return None;
        }
        proof {
            assert(d.take(i - start + 1).drop_last() =~= d.take(i - start));
            assert(d.take(i - start + 1).last() == c);
            assert(d[i - start] == c);
        }
        let digit = (c as u32) - ('0' as u32);
        let next = v * 10 + digit;
        v = if next < 65536 { next } else { 65536 };
        i = i + 1;
    }
    assert(d.take(n - start) =~= d);
    if v < 65536 {
        Some(v as u16)
    } else {
        None
    }
}

/// Appends the message for a field that holds a line break.
fn line_break_error(label: &str) -> (r: String)
    ensures
        r@ == line_break_message(label@),
{
    let mut m = String::new();
    push_str(&mut m, label);
    push_str(&mut m, " não pode conter quebra de linha.");
    m
}

/// Whether the text holds a line feed or a carriage return.
fn contains_line_break(s: &String) -> (r: bool)
    ensures
        r == has_line_break(s@),
{
    contains_char(s.as_str(), '\n') || contains_char(s.as_str(), '\r')
}

impl HostEditor {
    /// Copies the data of a block into the form fields.
    pub fn from_host(host: &HostEntry) -> (r: Self)
        ensures
            r@ == editor_of(host@),
    {
        HostEditor {
            names: host.names.clone(),
            host_name: host.option("HostName"),
            user: host.option("User"),
            port: host.option("Port"),
            identity_file: host.option("IdentityFile"),
        }
    }

    /// Checks for dangerous or invalid data before it is applied.
    pub fn validate(&self) -> (r: Result<(), String>)
        ensures
            match r {
                Ok(()) => validation_error(self@) is None,
                Err(m) => validation_error(self@) == Some(m@),
            },
    {
        if trim_str(self.names.as_str()).is_empty() {
            return Err("O campo Host não pode ficar vazio.".to_owned());
        }
        if contains_line_break(&self.names) {
            return Err(line_break_error("Host"));
        }
        if contains_line_break(&self.host_name) {
            return Err(line_break_error("HostName"));
        }
        if contains_line_break(&self.user) {
            return Err(line_break_error("User"));
        }
        if contains_line_break(&self.port) {
            return Err(line_break_error("Port"));
        }
        if contains_line_break(&self.identity_file) {
            return Err(line_break_error("IdentityFile"));
        }
        let port = trim_str(self.port.as_str());
        if !port.is_empty() {
            match parse_u16(port) {
                None => {
                    return Err("Port deve ser um número entre 1 e 65535.".to_owned());
                },
                Some(value) => {
                    if value == 0 {
                        return Err("Port deve ser maior que zero.".to_owned());
                    }
                },
            }
        }
        Ok(())
    }

    /// Writes the validated fields back into the block.
    pub fn apply_to(&self, host: &mut HostEntry)
        ensures
            final(host)@.names == trim(self@.names),
            final(host)@.body == body_with_editor(old(host)@.body, self@),
    {
        host.names = trim_str(self.names.as_str()).to_owned();
        host.set_option("HostName", self.host_name.as_str());
        host.set_option("User", self.user.as_str());
        host.set_option("Port", self.port.as_str());
        host.set_option("IdentityFile", self.identity_file.as_str());
    }

    /// The two forms hold the same fields.
    pub fn same_fields(&self, other: &HostEditor) -> (r: bool)
        ensures
            r == (self@ == other@),
    {
        self.names == other.names && self.host_name == other.host_name && self.user == other.user
            && self.port == other.port && self.identity_file == other.identity_file
    }
}

/// A block with the form written to it.
pub open spec fn host_with_editor(h: HostView, e: EditorView) -> HostView {
    HostView { names: trim(e.names), body: body_with_editor(h.body, e) }
}

/// The form with every field trimmed.
pub open spec fn trimmed_form(e: EditorView) -> EditorView {
    EditorView {
        names: trim(e.names),
        host_name: trim(e.host_name),
        user: trim(e.user),
        port: trim(e.port),
        identity_file: trim(e.identity_file),
    }
}

/// None of the form's four directive values, trimmed, starts with `=`
/// (which would be read as the separator of `Key=value`).
pub open spec fn values_read_back(e: EditorView) -> bool {
    &&& !starts_with_equals(trim(e.host_name))
    &&& !starts_with_equals(trim(e.user))
    &&& !starts_with_equals(trim(e.port))
    &&& !starts_with_equals(trim(e.identity_file))
}

/// A form whose fields are already trimmed and whose directive values read
/// back as written.
pub open spec fn is_normalized(e: EditorView) -> bool {
    trimmed_form(e) == e && values_read_back(e)
}

proof fn lemma_form_keys()
    ensures
        is_plain_key("HostName"@),
        is_plain_key("User"@),
        is_plain_key("Port"@),
        is_plain_key("IdentityFile"@),
        !eq_ignoring_ascii_case("HostName"@, "User"@),
        !eq_ignoring_ascii_case("HostName"@, "Port"@),
        !eq_ignoring_ascii_case("HostName"@, "IdentityFile"@),
        !eq_ignoring_ascii_case("User"@, "HostName"@),
        !eq_ignoring_ascii_case("User"@, "Port"@),
        !eq_ignoring_ascii_case("User"@, "IdentityFile"@),
        !eq_ignoring_ascii_case("Port"@, "HostName"@),
        !eq_ignoring_ascii_case("Port"@, "User"@),
        !eq_ignoring_ascii_case("Port"@, "IdentityFile"@),
        !eq_ignoring_ascii_case("IdentityFile"@, "HostName"@),
        !eq_ignoring_ascii_case("IdentityFile"@, "User"@),
        !eq_ignoring_ascii_case("IdentityFile"@, "Port"@),
{
    reveal_strlit("HostName");
    reveal_strlit("User");
    reveal_strlit("Port");
    reveal_strlit("IdentityFile");
    assert(!same_ignoring_ascii_case("User"@[0], "Port"@[0]));
    assert(!same_ignoring_ascii_case("Port"@[0], "User"@[0]));
}

/// Reading the form back from a block after writing the form to it gives
/// the form with its fields trimmed. This holds when no directive value,
/// trimmed, starts with `=`.
pub proof fn law_form_reads_back_after_apply(h: HostView, e: EditorView)
    requires
        values_read_back(e),
    ensures
        editor_of(host_with_editor(h, e)) == trimmed_form(e),
{
    lemma_form_keys();
    let hn = "HostName"@;
    let us = "User"@;
    let po = "Port"@;
    let id = "IdentityFile"@;
    let b1 = body_with_option(h.body, hn, e.host_name);
    let b2 = body_with_option(b1, us, e.user);
    let b3 = body_with_option(b2, po, e.port);
    law_option_after_set_option(h.body, hn, e.host_name);
    law_set_option_keeps_other_keys(b1, hn, us, e.user);
    law_set_option_keeps_other_keys(b2, hn, po, e.port);
    law_set_option_keeps_other_keys(b3, hn, id, e.identity_file);
    law_option_after_set_option(b1, us, e.user);
    law_set_option_keeps_other_keys(b2, us, po, e.port);
    law_set_option_keeps_other_keys(b3, us, id, e.identity_file);
    law_option_after_set_option(b2, po, e.port);
    law_set_option_keeps_other_keys(b3, po, id, e.identity_file);
    law_option_after_set_option(b3, id, e.identity_file);
}

/// The line holds none of the form's four directives.
pub open spec fn holds_no_form_key(l: Seq<char>) -> bool {
    &&& !line_has_key(l, "HostName"@)
    &&& !line_has_key(l, "User"@)
    &&& !line_has_key(l, "Port"@)
    &&& !line_has_key(l, "IdentityFile"@)
}

/// Writing the form to a block keeps every line that holds none of the
/// form's directives (comments, blank lines, other directives) unchanged
/// and in order.
pub proof fn law_apply_keeps_other_lines(body: Seq<Seq<char>>, e: EditorView)
    ensures
        body_with_editor(body, e).filter(|l: Seq<char>| holds_no_form_key(l)) == body.filter(
            |l: Seq<char>| holds_no_form_key(l),
        ),
{
    lemma_form_keys();
    let q = |l: Seq<char>| holds_no_form_key(l);
    let b1 = body_with_option(body, "HostName"@, e.host_name);
    let b2 = body_with_option(b1, "User"@, e.user);
    let b3 = body_with_option(b2, "Port"@, e.port);
    law_set_option_keeps_lines(body, "HostName"@, e.host_name, q);
    law_set_option_keeps_lines(b1, "User"@, e.user, q);
    law_set_option_keeps_lines(b2, "Port"@, e.port, q);
    law_set_option_keeps_lines(b3, "IdentityFile"@, e.identity_file, q);
}

/// A form with a line break in any field is rejected.
pub proof fn law_line_breaks_rejected(e: EditorView)
    requires
        has_line_break(e.names) || has_line_break(e.host_name) || has_line_break(e.user)
            || has_line_break(e.port) || has_line_break(e.identity_file),
    ensures
        validation_error(e) is Some,
{
}

/// A form is accepted exactly when its alias, trimmed, is not empty, none of
/// its five fields holds a line feed or a carriage return, and its port,
/// trimmed, is either empty or a `u16` (an optional `+`, then decimal
/// digits) whose value lies from 1 to 65535.
pub proof fn law_validate_accepts_exactly(e: EditorView)
    ensures
        validation_error(e) is None <==> {
            &&& trim(e.names).len() > 0
            &&& !e.names.contains('\n') && !e.names.contains('\r')
            &&& !e.host_name.contains('\n') && !e.host_name.contains('\r')
            &&& !e.user.contains('\n') && !e.user.contains('\r')
            &&& !e.port.contains('\n') && !e.port.contains('\r')
            &&& !e.identity_file.contains('\n') && !e.identity_file.contains('\r')
            &&& (trim(e.port).len() == 0 || (parses_as_u16(trim(e.port)) && 1 <= digits_value(
                unsigned_digits(trim(e.port)),
            ) <= 65535))
        },
{
}

/// An accepted form holds either no port or a port from 1 to 65535.
pub proof fn law_accepted_port_in_range(e: EditorView)
    requires
        validation_error(e) is None,
    ensures
        trim(e.port).len() == 0 || (parses_as_u16(trim(e.port)) && 1 <= digits_value(
            unsigned_digits(trim(e.port)),
        ) <= 65535),
{
}

proof fn lemma_decimal_digits(n: nat)
    ensures
        decimal(n).len() > 0,
        forall|i: int| 0 <= i < decimal(n).len() ==> is_digit(#[trigger] decimal(n)[i]),
        digits_value(decimal(n)) == n,
        n > 0 ==> decimal(n)[0] != '0',
    decreases n,
{
    let d = n % 10;
    assert(digit_char(d) as u32 - '0' as u32 == d && is_digit(digit_char(d))) by {
        assert(d < 10);
    }
    if n >= 10 {
        lemma_decimal_digits(n / 10);
        let s = decimal(n);
        assert(s.drop_last() =~= decimal(n / 10));
        assert forall|i: int| 0 <= i < s.len() implies is_digit(#[trigger] s[i]) by {
            if i < s.len() - 1 {
                assert(s[i] == decimal(n / 10)[i]);
            }
        }
        assert(s[0] == decimal(n / 10)[0]);
        assert(s.last() == digit_char(d));
        assert(n == (n / 10) * 10 + n % 10) by (nonlinear_arith);
        assert(digits_value(s) == digits_value(decimal(n / 10)) * 10 + d);
    } else {
        assert(d == n);
        assert(decimal(n).drop_last() =~= Seq::<char>::empty());
        assert(decimal(n).last() == digit_char(d));
        assert(digits_value(decimal(n).drop_last()) == 0);
    }
}

/// The decimal writing of a number from 0 to 65535 (as `Display` writes
/// it, without a leading zero) reads back as a `u16` with that value, with
/// or without a leading `+`.
pub proof fn law_port_reads_its_decimal(n: nat)
    requires
        n <= 65535,
    ensures
        parses_as_u16(decimal(n)),
        digits_value(unsigned_digits(decimal(n))) == n,
        parses_as_u16(seq!['+'] + decimal(n)),
        digits_value(unsigned_digits(seq!['+'] + decimal(n))) == n,
        n > 0 ==> decimal(n)[0] != '0',
{
    lemma_decimal_digits(n);
    assert(decimal(n)[0] != '+');
    assert(unsigned_digits(decimal(n)) == decimal(n));
    assert((seq!['+'] + decimal(n)).drop_first() =~= decimal(n));
}

} // verus!
