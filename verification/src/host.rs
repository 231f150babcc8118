//! A `Host` block: its header names and its inner lines, kept as read.
use vstd::prelude::*;
use crate::directive::{
    directive_of, is_key_char, lemma_span_is, split_directive, starts_with_equals, texts,
};
use crate::text::{
    contains_text, eq_ignore_ascii_case, eq_ignoring_ascii_case, is_ws, same_ignoring_ascii_case,
    lemma_leading_ws_is, lemma_trailing_ws_is,
    lemma_trim_ends, lemma_trim_idempotent, push_str, trim, trim_start, trim_str,
};

verus! {

/// A `Host` block keeps its header and all of its original inner lines.
#[derive(Clone)]
pub struct HostEntry {
    pub names: String,
    pub body: Vec<String>,
}

/// What a `Host` block holds: the names of its header and its lines.
pub struct HostView {
    pub names: Seq<char>,
    pub body: Seq<Seq<char>>,
}

impl View for HostEntry {
    type V = HostView;

    open spec fn view(&self) -> HostView {
        HostView { names: self.names@, body: texts(self.body@) }
    }
}

/// The line holds a directive whose key is `key`, up to ASCII case.
pub open spec fn line_has_key(line: Seq<char>, key: Seq<char>) -> bool {
    &&& directive_of(line) is Some
    &&& eq_ignoring_ascii_case(directive_of(line).unwrap().0, key)
}

/// Some line of `body` holds the directive `key`.
pub open spec fn body_has_key(body: Seq<Seq<char>>, key: Seq<char>) -> bool {
    exists|i: int| 0 <= i < body.len() && line_has_key(#[trigger] body[i], key)
}

/// The value of the first line of `body` that holds the directive `key`,
/// or the empty text when there is none.
pub open spec fn option_value(body: Seq<Seq<char>>, key: Seq<char>) -> Seq<char>
    decreases body.len(),
{
    if body.len() == 0 {
        seq![]
    } else if line_has_key(body[0], key) {
        directive_of(body[0]).unwrap().1
    } else {
        option_value(body.drop_first(), key)
    }
}

/// The line written for the directive `key` with the value `value`:
/// four spaces of indentation, the key, a space and the trimmed value.
pub open spec fn option_line(key: Seq<char>, value: Seq<char>) -> Seq<char> {
    seq![' ', ' ', ' ', ' '] + key + seq![' '] + trim(value)
}

/// `body` with every line that holds `key` dropped, except that the first
/// of them becomes `repl` when `repl` is given.
pub open spec fn rewrite_lines(
    body: Seq<Seq<char>>,
    key: Seq<char>,
    repl: Option<Seq<char>>,
) -> Seq<Seq<char>>
    decreases body.len(),
{
    if body.len() == 0 {
        seq![]
    } else if line_has_key(body[0], key) {
        match repl {
            Some(l) => seq![l] + rewrite_lines(body.drop_first(), key, None),
            None => rewrite_lines(body.drop_first(), key, None),
        }
    } else {
        seq![body[0]] + rewrite_lines(body.drop_first(), key, repl)
    }
}

/// The lines of a block after setting the directive `key` to `value`:
/// an empty (blank) value removes every line of that directive; otherwise
/// the first such line is replaced by `option_line(key, value)` and the
/// others are removed, or, when there is none, that line is appended.
pub open spec fn body_with_option(
    body: Seq<Seq<char>>,
    key: Seq<char>,
    value: Seq<char>,
) -> Seq<Seq<char>> {
    if trim(value).len() == 0 {
        rewrite_lines(body, key, None)
    } else if body_has_key(body, key) {
        rewrite_lines(body, key, Some(option_line(key, value)))
    } else {
        body.push(option_line(key, value))
    }
}

/// The name of a new block.
pub open spec fn new_host_names() -> Seq<char> {
    "novo-host"@
}

/// The lines of a new block.
pub open spec fn new_host_body() -> Seq<Seq<char>> {
    seq![
        "    HostName servidor.exemplo.com"@,
        "    User usuario"@,
        "    Port 22"@,
        "    IdentityFile ~/.ssh/id_ed25519"@,
    ]
}

/// The second line of a block's entry in the list: `user@address`, the
/// address alone without a user, or a notice without an address.
pub open spec fn subtitle_of(h: HostView) -> Seq<char> {
    let address = option_value(h.body, "HostName"@);
    let user = option_value(h.body, "User"@);
    if address.len() == 0 {
        "HostName não definido"@
    } else if user.len() == 0 {
        address
    } else {
        user + "@"@ + address
    }
}

/// The text the list filter searches: names, address and user.
pub open spec fn search_text_of(h: HostView) -> Seq<char> {
    h.names + " "@ + option_value(h.body, "HostName"@) + " "@ + option_value(h.body, "User"@)
}

/// A block's option is the value of the first of its lines that holds the
/// directive (any case of the key), whatever later lines hold.
pub proof fn law_option_is_first_match(body: Seq<Seq<char>>, key: Seq<char>, i: int)
    requires
        0 <= i < body.len(),
        line_has_key(body[i], key),
        forall|j: int| 0 <= j < i ==> !line_has_key(#[trigger] body[j], key),
    ensures
        option_value(body, key) == directive_of(body[i]).unwrap().1,
    decreases i,
{
    if i > 0 {
        assert(!line_has_key(body[0], key));
        assert forall|j: int| 0 <= j < i - 1 implies !line_has_key(
            #[trigger] body.drop_first()[j],
            key,
        ) by {
            assert(body.drop_first()[j] == body[j + 1]);
        }
        assert(body.drop_first()[i - 1] == body[i]);
        law_option_is_first_match(body.drop_first(), key, i - 1);
    }
}

/// A block none of whose lines holds the directive has the empty text as
/// that option.
pub proof fn law_option_absent_is_empty(body: Seq<Seq<char>>, key: Seq<char>)
    requires
        !body_has_key(body, key),
    ensures
        option_value(body, key) == Seq::<char>::empty(),
    decreases body.len(),
{
    if body.len() > 0 {
        assert(!line_has_key(body[0], key));
        assert forall|j: int| 0 <= j < body.drop_first().len() implies !line_has_key(
            #[trigger] body.drop_first()[j],
            key,
        ) by {
            assert(body.drop_first()[j] == body[j + 1]);
            assert(!line_has_key(body[j + 1], key));
        }
        law_option_absent_is_empty(body.drop_first(), key);
    }
}

/// The list filter searches a block's names, its address and its user:
/// each of them occurs in the block's search text.
pub proof fn law_search_text_covers(h: HostView)
    ensures
        contains_text(search_text_of(h), h.names),
        contains_text(search_text_of(h), option_value(h.body, "HostName"@)),
        contains_text(search_text_of(h), option_value(h.body, "User"@)),
{
    let n = h.names;
    let a = option_value(h.body, "HostName"@);
    let u = option_value(h.body, "User"@);
    let t = search_text_of(h);
    reveal_strlit(" ");
    assert(t =~= n + seq![' '] + a + seq![' '] + u);
    let i1: int = n.len() + 1int;
    let i2: int = n.len() + a.len() + 2int;
    let i0: int = 0;
    assert(t.subrange(i0, i0 + n.len()) =~= n);
    assert(t.subrange(i1, i1 + a.len()) =~= a);
    assert(t.subrange(i2, i2 + u.len()) =~= u);
}

/// Whether the line holds the directive `searched_key`.
fn holds_key(line: &str, searched_key: &str) -> (r: bool)
    ensures
        r == line_has_key(line@, searched_key@),
{
    match split_directive(line) {
        Some((key, _)) => eq_ignore_ascii_case(key, searched_key),
        None => false,
    }
}

impl HostEntry {
    /// The block created by the "new host" action.
    pub fn new() -> (r: Self)
        ensures
            r@.names == new_host_names(),
            r@.body == new_host_body(),
    {
        let mut body: Vec<String> = Vec::new();
        body.push("    HostName servidor.exemplo.com".to_owned());
        body.push("    User usuario".to_owned());
        body.push("    Port 22".to_owned());
        body.push("    IdentityFile ~/.ssh/id_ed25519".to_owned());
        let r = HostEntry { names: "novo-host".to_owned(), body };
        assert(r@.body =~= new_host_body());
        r
    }

    /// The value of the first directive `searched_key` (such as `User` or
    /// `Port`), compared up to ASCII case; empty when the block has none.
    pub fn option(&self, searched_key: &str) -> (r: String)
        ensures
            r@ == option_value(self@.body, searched_key@),
    {
        let n = self.body.len();
        let ghost body = self@.body;
        let mut i: usize = 0;
        assert(body.skip(0) =~= body);
        while i < n
            invariant
                n == self.body@.len(),
                body == self@.body,
                i <= n,
                option_value(body, searched_key@) == option_value(body.skip(i as int), searched_key@),
            decreases n - i,
        {
            proof {
                assert(body.skip(i as int)[0] == body[i as int]);
                assert(body.skip(i as int).drop_first() =~= body.skip(i + 1));
            }
            let line = self.body[i].as_str();
            match split_directive(line) {
                Some((key, value)) => {
                    if eq_ignore_ascii_case(key, searched_key) {
                        return value.to_owned();
                    }
                },
                None => {},
            }
            i = i + 1;
        }
        String::new()
    }

    /// The second line of the block's entry in the list.
    pub fn subtitle(&self) -> (r: String)
        ensures
            r@ == subtitle_of(self@),
    {
        let address = self.option("HostName");
        let user = self.option("User");
        if address.as_str().is_empty() {
            "HostName não definido".to_owned()
        } else if user.as_str().is_empty() {
            address
        } else {
            let mut r = user;
            push_str(&mut r, "@");
            push_str(&mut r, address.as_str());
            r
        }
    }

    /// The text the list filter searches.
    pub fn search_text(&self) -> (r: String)
        ensures
            r@ == search_text_of(self@),
    {
        let mut r = self.names.clone();
        push_str(&mut r, " ");
        push_str(&mut r, self.option("HostName").as_str());
        push_str(&mut r, " ");
        push_str(&mut r, self.option("User").as_str());
        r
    }

    /// Sets the directive `searched_key` to `new_value` without dropping
    /// comments or other directives; a blank value removes the directive.
    pub fn set_option(&mut self, searched_key: &str, new_value: &str)
        ensures
            final(self)@.names == old(self)@.names,
            final(self)@.body == body_with_option(old(self)@.body, searched_key@, new_value@),
    {
        let ghost body = old(self)@.body;
        let ghost key = searched_key@;
        let trimmed = trim_str(new_value);
        let remove_all = trimmed.is_empty();
        let mut formatted = String::new();
        push_str(&mut formatted, "    ");
        push_str(&mut formatted, searched_key);
        push_str(&mut formatted, " ");
        push_str(&mut formatted, trimmed);
        proof {
            reveal_strlit("    ");
            reveal_strlit(" ");
            assert(formatted@ =~= option_line(key, new_value@));
        }
        let ghost line_f = formatted@;
        let ghost init: Option<Seq<char>> = if remove_all { None } else { Some(line_f) };
        let n = self.body.len();
        let mut out: Vec<String> = Vec::new();
        let mut replaced = false;
        let mut i: usize = 0;
        assert(body.skip(0) =~= body);
        assert(texts(out@) =~= Seq::<Seq<char>>::empty());
        while i < n
            invariant
                n == self.body@.len(),
                body == texts(self.body@),
                key == searched_key@,
                line_f == formatted@,
                init == (if remove_all { None } else { Some(line_f) }),
                i <= n,
                replaced == (exists|j: int| 0 <= j < i && line_has_key(#[trigger] body[j], key)),
                texts(out@) + rewrite_lines(
                    body.skip(i as int),
                    key,
                    if remove_all || replaced { None } else { Some(line_f) },
                ) == rewrite_lines(body, key, init),
            decreases n - i,
        {
            let ghost cur: Option<Seq<char>> = if remove_all || replaced {
                None
            } else {
                Some(line_f)
            };
            let ghost old_out = texts(out@);
            proof {
                assert(body.skip(i as int)[0] == body[i as int]);
                assert(body.skip(i as int).drop_first() =~= body.skip(i + 1));
                assert(body[i as int] == self.body@[i as int]@);
            }
            let line = &self.body[i];
            let m = holds_key(line.as_str(), searched_key);
            proof {
                if !m {
                    assert forall|j: int| 0 <= j < i + 1 && line_has_key(#[trigger] body[j], key)
                        implies 0 <= j < i by {}
                } else {
                    assert(line_has_key(body[i as int], key));
                }
            }
            if m {
                if !remove_all && !replaced {
                    out.push(formatted.clone());
                    assert(texts(out@) =~= old_out.push(line_f));
                    assert(old_out.push(line_f) + rewrite_lines(body.skip(i + 1), key, None)
                        =~= old_out + (seq![line_f] + rewrite_lines(body.skip(i + 1), key, None)));
                }
                replaced = true;
            } else {
                out.push(line.clone());
                assert(texts(out@) =~= old_out.push(body[i as int]));
                assert(old_out.push(body[i as int]) + rewrite_lines(body.skip(i + 1), key, cur)
                    =~= old_out + (seq![body[i as int]] + rewrite_lines(body.skip(i + 1), key, cur)));
            }
            i = i + 1;
        }
        proof {
            assert(body.skip(n as int) =~= Seq::<Seq<char>>::empty());
            assert(texts(out@) =~= rewrite_lines(body, key, init));
        }
        if !remove_all && !replaced {
            proof {
                lemma_rewrite_without_key(body, key, init);
            }
            let ghost old_out = texts(out@);
            out.push(formatted);
            assert(texts(out@) =~= old_out.push(line_f));
        }
        self.body = out;
    }
}

/// Rewriting a body that does not hold the key changes nothing.
pub proof fn lemma_rewrite_without_key(
    body: Seq<Seq<char>>,
    key: Seq<char>,
    repl: Option<Seq<char>>,
)
    requires
        !body_has_key(body, key),
    ensures
        rewrite_lines(body, key, repl) == body,
    decreases body.len(),
{
    if body.len() > 0 {
        assert(!line_has_key(body[0], key));
        assert forall|i: int| 0 <= i < body.drop_first().len() implies !line_has_key(
            #[trigger] body.drop_first()[i],
            key,
        ) by {
            assert(body.drop_first()[i] == body[i + 1]);
        }
        lemma_rewrite_without_key(body.drop_first(), key, repl);
        assert(seq![body[0]] + body.drop_first() =~= body);
    }
}

} // verus!

verus! {

/// A directive key that a written line can hold: not empty, without
/// whitespace or `=`, and not starting a comment.
pub open spec fn is_plain_key(key: Seq<char>) -> bool {
    &&& key.len() > 0
    &&& key[0] != '#'
    &&& forall|i: int| 0 <= i < key.len() ==> !is_ws(#[trigger] key[i]) && key[i] != '='
}

/// The line written for a plain key and a non-blank value holds that key;
/// its value reads back as the trimmed value unless that starts with `=`.
pub proof fn lemma_option_line_directive(key: Seq<char>, value: Seq<char>)
    requires
        is_plain_key(key),
        trim(value).len() > 0,
    ensures
        directive_of(option_line(key, value)) is Some,
        directive_of(option_line(key, value)).unwrap().0 == key,
        line_has_key(option_line(key, value), key),
        !starts_with_equals(trim(value)) ==> directive_of(option_line(key, value)) == Some(
            (key, trim(value)),
        ),
{
    let t = trim(value);
    let line = option_line(key, value);
    lemma_trim_ends(value);
    assert(line[4] == key[0]);
    lemma_leading_ws_is(line, 4);
    let u = key + seq![' '] + t;
    assert(trim_start(line) =~= u);
    assert(u.last() == t.last());
    lemma_trailing_ws_is(u, 0);
    assert(trim(line) =~= u);
    assert(u[0] == key[0]);
    let pk = |c: char| is_key_char(c);
    assert forall|j: int| 0 <= j < key.len() implies pk(#[trigger] u[j]) by {
        assert(u[j] == key[j]);
    }
    assert(u[key.len() as int] == ' ');
    lemma_span_is(u, pk, key.len() as int);
    assert(u.take(key.len() as int) =~= key);
    let w = seq![' '] + t;
    assert(u.skip(key.len() as int) =~= w);
    assert(w[1] == t[0]);
    lemma_leading_ws_is(w, 1);
    assert(trim_start(w) =~= t);
    lemma_trailing_ws_is(t, 0);
    assert(trim(w) =~= t);
    lemma_trim_idempotent(value);
    assert(eq_ignoring_ascii_case(key, key));
}

/// Reading a key back from a rewritten body gives the replacement's value.
proof fn lemma_option_of_rewrite(
    body: Seq<Seq<char>>,
    key: Seq<char>,
    repl: Option<Seq<char>>,
)
    requires
        repl matches Some(l) ==> line_has_key(l, key) && body_has_key(body, key),
    ensures
        option_value(rewrite_lines(body, key, repl), key) == match repl {
            Some(l) => directive_of(l).unwrap().1,
            None => Seq::<char>::empty(),
        },
    decreases body.len(),
{
    if body.len() > 0 {
        let rest = body.drop_first();
        if line_has_key(body[0], key) {
            lemma_option_of_rewrite(rest, key, None);
            match repl {
                Some(l) => {
                    assert((seq![l] + rewrite_lines(rest, key, None))[0] == l);
                },
                None => {},
            }
        } else {
            if let Some(l) = repl {
                let i = choose|i: int| 0 <= i < body.len() && line_has_key(#[trigger] body[i], key);
                assert(rest[i - 1] == body[i]);
            }
            lemma_option_of_rewrite(rest, key, repl);
            let r = seq![body[0]] + rewrite_lines(rest, key, repl);
            assert(r[0] == body[0]);
            assert(r.drop_first() =~= rewrite_lines(rest, key, repl));
        }
    }
}

/// Reading a key from a body without it, with one line appended.
proof fn lemma_option_of_push(body: Seq<Seq<char>>, key: Seq<char>, l: Seq<char>)
    requires
        !body_has_key(body, key),
        line_has_key(l, key),
    ensures
        option_value(body.push(l), key) == directive_of(l).unwrap().1,
    decreases body.len(),
{
    if body.len() == 0 {
        assert(body.push(l)[0] == l);
    } else {
        assert(!line_has_key(body[0], key));
        assert(body.push(l)[0] == body[0]);
        assert(body.push(l).drop_first() =~= body.drop_first().push(l));
        assert forall|i: int| 0 <= i < body.drop_first().len() implies !line_has_key(
            #[trigger] body.drop_first()[i],
            key,
        ) by {
            assert(body.drop_first()[i] == body[i + 1]);
        }
        lemma_option_of_push(body.drop_first(), key, l);
    }
}

/// Read after write: once the directive `key` is set to `value`, reading
/// `key` gives the trimmed value (empty when the value was blank). This
/// holds for a plain key and a value that, trimmed, does not start with `=`
/// (a leading `=` is read as the separator of `Key=value`).
pub proof fn law_option_after_set_option(body: Seq<Seq<char>>, key: Seq<char>, value: Seq<char>)
    requires
        is_plain_key(key),
        !starts_with_equals(trim(value)),
    ensures
        option_value(body_with_option(body, key, value), key) == trim(value),
{
    if trim(value).len() == 0 {
        lemma_option_of_rewrite(body, key, None);
        assert(trim(value) =~= Seq::<char>::empty());
    } else {
        lemma_option_line_directive(key, value);
        if body_has_key(body, key) {
            lemma_option_of_rewrite(body, key, Some(option_line(key, value)));
        } else {
            lemma_option_of_push(body, key, option_line(key, value));
        }
    }
}

/// The lines of `body` that do not hold `key`.
pub open spec fn lines_without_key(body: Seq<Seq<char>>, key: Seq<char>) -> Seq<Seq<char>> {
    body.filter(|l: Seq<char>| !line_has_key(l, key))
}

/// `q` holds of no line that holds the directive `key`.
pub open spec fn excludes_key(q: spec_fn(Seq<char>) -> bool, key: Seq<char>) -> bool {
    forall|l: Seq<char>| #![trigger q(l)] line_has_key(l, key) ==> !q(l)
}

proof fn lemma_filter_cons(x: Seq<char>, rest: Seq<Seq<char>>, q: spec_fn(Seq<char>) -> bool)
    ensures
        (seq![x] + rest).filter(q) == if q(x) {
            seq![x] + rest.filter(q)
        } else {
            rest.filter(q)
        },
{
    Seq::filter_distributes_over_add(seq![x], rest, q);
    reveal_with_fuel(Seq::filter, 2);
    assert(seq![x].drop_last() =~= Seq::<Seq<char>>::empty());
    if q(x) {
        assert(seq![x].filter(q) =~= seq![x]);
    } else {
        assert(seq![x].filter(q) =~= Seq::<Seq<char>>::empty());
        assert((seq![x] + rest).filter(q) =~= rest.filter(q));
    }
}

proof fn lemma_rewrite_keeps_lines(
    body: Seq<Seq<char>>,
    key: Seq<char>,
    repl: Option<Seq<char>>,
    q: spec_fn(Seq<char>) -> bool,
)
    requires
        excludes_key(q, key),
        repl matches Some(l) ==> line_has_key(l, key),
    ensures
        rewrite_lines(body, key, repl).filter(q) == body.filter(q),
    decreases body.len(),
{
    if body.len() > 0 {
        let rest = body.drop_first();
        lemma_rewrite_keeps_lines(rest, key, None, q);
        lemma_rewrite_keeps_lines(rest, key, repl, q);
        assert(seq![body[0]] + rest =~= body);
        lemma_filter_cons(body[0], rest, q);
        if line_has_key(body[0], key) {
            assert(!q(body[0]));
            if let Some(l) = repl {
                assert(!q(l));
                lemma_filter_cons(l, rewrite_lines(rest, key, None), q);
            }
        } else {
            lemma_filter_cons(body[0], rewrite_lines(rest, key, repl), q);
        }
    }
}

/// Setting the directive `key` keeps, unchanged and in order, every line
/// that a predicate `q` selects, when `q` selects no line holding `key`.
/// This holds for any plain key.
pub proof fn law_set_option_keeps_lines(
    body: Seq<Seq<char>>,
    key: Seq<char>,
    value: Seq<char>,
    q: spec_fn(Seq<char>) -> bool,
)
    requires
        is_plain_key(key),
        excludes_key(q, key),
    ensures
        body_with_option(body, key, value).filter(q) == body.filter(q),
{
    if trim(value).len() == 0 {
        lemma_rewrite_keeps_lines(body, key, None, q);
    } else {
        lemma_option_line_directive(key, value);
        let l = option_line(key, value);
        if body_has_key(body, key) {
            lemma_rewrite_keeps_lines(body, key, Some(l), q);
        } else {
            assert(!q(l));
            Seq::filter_distributes_over_add(body, seq![l], q);
            reveal_with_fuel(Seq::filter, 2);
            assert(seq![l].drop_last() =~= Seq::<Seq<char>>::empty());
            assert(seq![l].filter(q) =~= Seq::<Seq<char>>::empty());
            assert(body + seq![l] =~= body.push(l));
            assert(body.filter(q) + Seq::<Seq<char>>::empty() =~= body.filter(q));
        }
    }
}

proof fn lemma_body_has_key_cons(body: Seq<Seq<char>>, key: Seq<char>)
    requires
        body.len() > 0,
    ensures
        body_has_key(body, key) == (line_has_key(body[0], key) || body_has_key(
            body.drop_first(),
            key,
        )),
{
    let rest = body.drop_first();
    if body_has_key(body, key) && !line_has_key(body[0], key) {
        let i = choose|i: int| 0 <= i < body.len() && line_has_key(#[trigger] body[i], key);
        assert(rest[i - 1] == body[i]);
    }
    if body_has_key(rest, key) {
        let i = choose|i: int| 0 <= i < rest.len() && line_has_key(#[trigger] rest[i], key);
        assert(body[i + 1] == rest[i]);
    }
    if line_has_key(body[0], key) {
        assert(line_has_key(body[0], key));
    }
}

/// The lines that hold `key` after a rewrite: only the replacement, when
/// one is given and the body held the key; none otherwise.
proof fn lemma_rewrite_key_lines(body: Seq<Seq<char>>, key: Seq<char>, repl: Option<Seq<char>>)
    requires
        repl matches Some(l) ==> line_has_key(l, key),
    ensures
        repl is None ==> rewrite_lines(body, key, repl).filter(|l: Seq<char>| line_has_key(l, key))
            == Seq::<Seq<char>>::empty(),
        repl is Some && body_has_key(body, key) ==> rewrite_lines(body, key, repl).filter(
            |l: Seq<char>| line_has_key(l, key),
        ) == seq![repl.unwrap()],
        repl is Some && !body_has_key(body, key) ==> rewrite_lines(body, key, repl).filter(
            |l: Seq<char>| line_has_key(l, key),
        ) == Seq::<Seq<char>>::empty(),
    decreases body.len(),
{
    let q = |l: Seq<char>| line_has_key(l, key);
    if body.len() > 0 {
        let rest = body.drop_first();
        lemma_rewrite_key_lines(rest, key, None);
        lemma_rewrite_key_lines(rest, key, repl);
        lemma_body_has_key_cons(body, key);
        if line_has_key(body[0], key) {
            if repl is Some {
                let l = repl.unwrap();
                lemma_filter_cons(l, rewrite_lines(rest, key, None), q);
                assert(seq![l] + Seq::<Seq<char>>::empty() =~= seq![l]);
            }
        } else {
            lemma_filter_cons(body[0], rewrite_lines(rest, key, repl), q);
        }
    } else {
        reveal(Seq::filter);
        assert(rewrite_lines(body, key, repl).filter(q) =~= Seq::<Seq<char>>::empty());
    }
}

/// After a directive is set, the block holds exactly one line of it (the
/// line written for the new value), every repetition being removed; after
/// it is set to a blank value, the block holds none.
pub proof fn law_set_option_leaves_one_line(body: Seq<Seq<char>>, key: Seq<char>, value: Seq<char>)
    requires
        is_plain_key(key),
    ensures
        body_with_option(body, key, value).filter(|l: Seq<char>| line_has_key(l, key)) == if trim(
            value,
        ).len() == 0 {
            Seq::<Seq<char>>::empty()
        } else {
            seq![option_line(key, value)]
        },
{
    let q = |l: Seq<char>| line_has_key(l, key);
    if trim(value).len() == 0 {
        lemma_rewrite_key_lines(body, key, None);
    } else {
        lemma_option_line_directive(key, value);
        let l = option_line(key, value);
        if body_has_key(body, key) {
            lemma_rewrite_key_lines(body, key, Some(l));
        } else {
            lemma_rewrite_key_lines(body, key, None);
            lemma_rewrite_without_key(body, key, None);
            Seq::filter_distributes_over_add(body, seq![l], q);
            reveal_with_fuel(Seq::filter, 2);
            assert(seq![l].drop_last() =~= Seq::<Seq<char>>::empty());
            assert(seq![l].filter(q) =~= seq![l]);
            assert(body + seq![l] =~= body.push(l));
            assert(Seq::<Seq<char>>::empty() + seq![l] =~= seq![l]);
        }
    }
}

proof fn lemma_rewrite_in_place(body: Seq<Seq<char>>, key: Seq<char>, l: Seq<char>, i: int)
    requires
        0 <= i < body.len(),
        line_has_key(body[i], key),
        forall|j: int| 0 <= j < i ==> !line_has_key(#[trigger] body[j], key),
    ensures
        rewrite_lines(body, key, Some(l)).len() > i,
        rewrite_lines(body, key, Some(l)).take(i) == body.take(i),
        rewrite_lines(body, key, Some(l))[i] == l,
    decreases i,
{
    let rest = body.drop_first();
    if i > 0 {
        assert(!line_has_key(body[0], key));
        assert forall|j: int| 0 <= j < i - 1 implies !line_has_key(#[trigger] rest[j], key) by {
            assert(rest[j] == body[j + 1]);
        }
        assert(rest[i - 1] == body[i]);
        lemma_rewrite_in_place(rest, key, l, i - 1);
        let r = rewrite_lines(rest, key, Some(l));
        assert(rewrite_lines(body, key, Some(l)) == seq![body[0]] + r);
        assert((seq![body[0]] + r).take(i) =~= seq![body[0]] + r.take(i - 1));
        assert(body.take(i) =~= seq![body[0]] + rest.take(i - 1));
    } else {
        assert(rewrite_lines(body, key, Some(l)) == seq![l] + rewrite_lines(rest, key, None));
    }
}

/// Setting a directive that the block already holds writes the new line
/// where its first line stood, leaving the lines before it unchanged.
pub proof fn law_set_option_in_place(body: Seq<Seq<char>>, key: Seq<char>, value: Seq<char>, i: int)
    requires
        trim(value).len() > 0,
        0 <= i < body.len(),
        line_has_key(body[i], key),
        forall|j: int| 0 <= j < i ==> !line_has_key(#[trigger] body[j], key),
    ensures
        body_with_option(body, key, value).len() > i,
        body_with_option(body, key, value).take(i) == body.take(i),
        body_with_option(body, key, value)[i] == option_line(key, value),
{
    assert(body_has_key(body, key));
    lemma_rewrite_in_place(body, key, option_line(key, value), i);
}

/// Setting a directive that the block does not hold appends its line at
/// the end of the block.
pub proof fn law_set_option_appends_new(body: Seq<Seq<char>>, key: Seq<char>, value: Seq<char>)
    requires
        trim(value).len() > 0,
        !body_has_key(body, key),
    ensures
        body_with_option(body, key, value) == body.push(option_line(key, value)),
{
}

/// Setting a directive keeps every other line (comments, blank lines and
/// directives with another key) unchanged and in order. This holds for any
/// plain key.
pub proof fn law_set_option_keeps_other_lines(
    body: Seq<Seq<char>>,
    key: Seq<char>,
    value: Seq<char>,
)
    requires
        is_plain_key(key),
    ensures
        lines_without_key(body_with_option(body, key, value), key) == lines_without_key(body, key),
{
    law_set_option_keeps_lines(body, key, value, |l: Seq<char>| !line_has_key(l, key));
}

/// Equality up to ASCII case is transitive (through a common text).
pub proof fn lemma_eq_ignoring_case_through(a: Seq<char>, b: Seq<char>, c: Seq<char>)
    requires
        eq_ignoring_ascii_case(a, b),
        eq_ignoring_ascii_case(a, c),
    ensures
        eq_ignoring_ascii_case(b, c),
{
    assert forall|i: int| 0 <= i < b.len() implies same_ignoring_ascii_case(#[trigger] b[i], c[i]) by {
        lemma_same_ignoring_case_through(a[i], b[i], c[i]);
    }
}

proof fn lemma_same_ignoring_case_through(x: char, y: char, z: char)
    requires
        same_ignoring_ascii_case(x, y),
        same_ignoring_ascii_case(x, z),
    ensures
        same_ignoring_ascii_case(y, z),
{
    if y as u32 == z as u32 {
        assert(y == z);
    }
}

/// A line holding `k2` does not hold a key that differs from `k2` beyond
/// ASCII case.
proof fn lemma_other_key(l: Seq<char>, k1: Seq<char>, k2: Seq<char>)
    requires
        line_has_key(l, k2),
        !eq_ignoring_ascii_case(k1, k2),
    ensures
        !line_has_key(l, k1),
{
    if line_has_key(l, k1) {
        lemma_eq_ignoring_case_through(directive_of(l).unwrap().0, k1, k2);
    }
}

proof fn lemma_option_of_rewrite_other(
    body: Seq<Seq<char>>,
    k1: Seq<char>,
    k2: Seq<char>,
    repl: Option<Seq<char>>,
)
    requires
        !eq_ignoring_ascii_case(k1, k2),
        repl matches Some(l) ==> !line_has_key(l, k1),
    ensures
        option_value(rewrite_lines(body, k2, repl), k1) == option_value(body, k1),
    decreases body.len(),
{
    if body.len() > 0 {
        let rest = body.drop_first();
        lemma_option_of_rewrite_other(rest, k1, k2, None);
        lemma_option_of_rewrite_other(rest, k1, k2, repl);
        if line_has_key(body[0], k2) {
            lemma_other_key(body[0], k1, k2);
            if let Some(l) = repl {
                let r = seq![l] + rewrite_lines(rest, k2, None);
                assert(r[0] == l);
                assert(r.drop_first() =~= rewrite_lines(rest, k2, None));
            }
        } else {
            let r = seq![body[0]] + rewrite_lines(rest, k2, repl);
            assert(r[0] == body[0]);
            assert(r.drop_first() =~= rewrite_lines(rest, k2, repl));
        }
    }
}

proof fn lemma_option_of_push_other(body: Seq<Seq<char>>, k: Seq<char>, l: Seq<char>)
    requires
        !line_has_key(l, k),
    ensures
        option_value(body.push(l), k) == option_value(body, k),
    decreases body.len(),
{
    if body.len() == 0 {
        assert(body.push(l)[0] == l);
        assert(body.push(l).drop_first() =~= Seq::<Seq<char>>::empty());
        assert(option_value(body.push(l).drop_first(), k) == Seq::<char>::empty());
        assert(option_value(body.push(l), k) == Seq::<char>::empty());
    } else {
        assert(body.push(l)[0] == body[0]);
        assert(body.push(l).drop_first() =~= body.drop_first().push(l));
        lemma_option_of_push_other(body.drop_first(), k, l);
        if !line_has_key(body[0], k) {
            assert(option_value(body.push(l), k) == option_value(body.drop_first().push(l), k));
        }
    }
}

/// Setting one directive does not change what another key (one that
/// differs beyond ASCII case) reads. This holds for any plain key.
pub proof fn law_set_option_keeps_other_keys(
    body: Seq<Seq<char>>,
    k1: Seq<char>,
    k2: Seq<char>,
    value: Seq<char>,
)
    requires
        is_plain_key(k2),
        !eq_ignoring_ascii_case(k1, k2),
    ensures
        option_value(body_with_option(body, k2, value), k1) == option_value(body, k1),
{
    if trim(value).len() == 0 {
        lemma_option_of_rewrite_other(body, k1, k2, None);
    } else {
        lemma_option_line_directive(k2, value);
        lemma_other_key(option_line(k2, value), k1, k2);
        if body_has_key(body, k2) {
            lemma_option_of_rewrite_other(body, k1, k2, Some(option_line(k2, value)));
        } else {
            lemma_option_of_push_other(body, k1, option_line(k2, value));
        }
    }
}

/// A body rewritten without a replacement holds no line with the key.
proof fn lemma_rewrite_drops_key(body: Seq<Seq<char>>, key: Seq<char>)
    ensures
        !body_has_key(rewrite_lines(body, key, None), key),
    decreases body.len(),
{
    if body.len() > 0 {
        let rest = body.drop_first();
        lemma_rewrite_drops_key(rest, key);
        if !line_has_key(body[0], key) {
            let r = seq![body[0]] + rewrite_lines(rest, key, None);
            assert forall|i: int| 0 <= i < r.len() implies !line_has_key(#[trigger] r[i], key) by {
                if i > 0 {
                    assert(r[i] == rewrite_lines(rest, key, None)[i - 1]);
                }
            }
        }
    }
}

/// Rewriting twice with the same key line is rewriting once.
proof fn lemma_rewrite_twice(body: Seq<Seq<char>>, key: Seq<char>, l: Seq<char>)
    requires
        line_has_key(l, key),
    ensures
        rewrite_lines(rewrite_lines(body, key, Some(l)), key, Some(l)) == rewrite_lines(
            body,
            key,
            Some(l),
        ),
    decreases body.len(),
{
    if body.len() > 0 {
        let rest = body.drop_first();
        if line_has_key(body[0], key) {
            let t = rewrite_lines(rest, key, None);
            lemma_rewrite_drops_key(rest, key);
            lemma_rewrite_without_key(t, key, None);
            let r = seq![l] + t;
            assert(r[0] == l);
            assert(r.drop_first() =~= t);
        } else {
            lemma_rewrite_twice(rest, key, l);
            let r = seq![body[0]] + rewrite_lines(rest, key, Some(l));
            assert(r[0] == body[0]);
            assert(r.drop_first() =~= rewrite_lines(rest, key, Some(l)));
        }
    }
}

/// Appending a key line to a body without the key, then rewriting with the
/// same line, changes nothing.
proof fn lemma_rewrite_after_push(body: Seq<Seq<char>>, key: Seq<char>, l: Seq<char>)
    requires
        line_has_key(l, key),
        !body_has_key(body, key),
    ensures
        rewrite_lines(body.push(l), key, Some(l)) == body.push(l),
    decreases body.len(),
{
    let b = body.push(l);
    if body.len() == 0 {
        assert(b[0] == l);
        assert(b.drop_first() =~= Seq::<Seq<char>>::empty());
        assert(rewrite_lines(b.drop_first(), key, None) =~= Seq::<Seq<char>>::empty());
        assert(seq![l] + Seq::<Seq<char>>::empty() =~= b);
    } else {
        assert(b[0] == body[0]);
        assert(!line_has_key(body[0], key));
        assert(b.drop_first() =~= body.drop_first().push(l));
        assert forall|i: int| 0 <= i < body.drop_first().len() implies !line_has_key(
            #[trigger] body.drop_first()[i],
            key,
        ) by {
            assert(body.drop_first()[i] == body[i + 1]);
        }
        lemma_rewrite_after_push(body.drop_first(), key, l);
        assert(rewrite_lines(b, key, Some(l)) == seq![body[0]] + rewrite_lines(
            b.drop_first(),
            key,
            Some(l),
        ));
        assert(seq![body[0]] + body.drop_first().push(l) =~= b);
    }
}

/// Rewriting a body that holds the key with a key line keeps a key line.
proof fn lemma_rewrite_has_key(body: Seq<Seq<char>>, key: Seq<char>, l: Seq<char>)
    requires
        line_has_key(l, key),
        body_has_key(body, key),
    ensures
        body_has_key(rewrite_lines(body, key, Some(l)), key),
    decreases body.len(),
{
    let rest = body.drop_first();
    if line_has_key(body[0], key) {
        let r = seq![l] + rewrite_lines(rest, key, None);
        assert(r[0] == l);
    } else {
        let i = choose|i: int| 0 <= i < body.len() && line_has_key(#[trigger] body[i], key);
        assert(rest[i - 1] == body[i]);
        lemma_rewrite_has_key(rest, key, l);
        let t = rewrite_lines(rest, key, Some(l));
        let j = choose|j: int| 0 <= j < t.len() && line_has_key(#[trigger] t[j], key);
        let r = seq![body[0]] + t;
        assert(r[j + 1] == t[j]);
    }
}

/// Setting the same directive to the same value twice is setting it once.
/// This holds for any plain key.
pub proof fn law_set_option_idempotent(body: Seq<Seq<char>>, key: Seq<char>, value: Seq<char>)
    requires
        is_plain_key(key),
    ensures
        body_with_option(body_with_option(body, key, value), key, value) == body_with_option(
            body,
            key,
            value,
        ),
{
    let b1 = body_with_option(body, key, value);
    if trim(value).len() == 0 {
        lemma_rewrite_drops_key(body, key);
        lemma_rewrite_without_key(b1, key, None);
    } else {
        let l = option_line(key, value);
        lemma_option_line_directive(key, value);
        if body_has_key(body, key) {
            lemma_rewrite_twice(body, key, l);
            lemma_rewrite_has_key(body, key, l);
        } else {
            assert(b1 == body.push(l));
            assert(b1[body.len() as int] == l);
            lemma_rewrite_after_push(body, key, l);
        }
    }
}

} // verus!
