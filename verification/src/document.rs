//! The whole configuration file in memory: reading it from text, writing
//! it back as text, and checking its aliases.
use vstd::prelude::*;
use crate::directive::{directive_of, split_lines, text_lines, texts};
use crate::host::{line_has_key, HostEntry, HostView};
use crate::text::{
    chars_of, contains_char, eq_ignore_ascii_case, is_whitespace, is_ws, lemma_leading_ws_bounds,
    lemma_leading_ws_is, leading_ws, push_str, string_from_chars, trim, trim_start, trim_str,
};

verus! {

/// The whole configuration file.
pub struct ConfigDocument {
    /// Global lines found before the first `Host`.
    pub prefix: Vec<String>,
    /// The `Host` blocks, in the order of the file.
    pub hosts: Vec<HostEntry>,
    /// A `Match` directive occurs somewhere in the file.
    pub contains_match: bool,
}

/// What a document holds.
pub struct DocView {
    pub prefix: Seq<Seq<char>>,
    pub hosts: Seq<HostView>,
    pub contains_match: bool,
}

/// The views of a sequence of blocks.
pub open spec fn host_views(v: Seq<HostEntry>) -> Seq<HostView> {
    v.map_values(|h: HostEntry| h@)
}

impl View for ConfigDocument {
    type V = DocView;

    open spec fn view(&self) -> DocView {
        DocView {
            prefix: texts(self.prefix@),
            hosts: host_views(self.hosts@),
            contains_match: self.contains_match,
        }
    }
}

/// The empty document.
pub open spec fn empty_document() -> DocView {
    DocView { prefix: seq![], hosts: seq![], contains_match: false }
}

impl Default for ConfigDocument {
    fn default() -> (r: Self)
        ensures
            r@ == empty_document(),
    {
        let r = ConfigDocument { prefix: Vec::new(), hosts: Vec::new(), contains_match: false };
        assert(r@.prefix =~= Seq::<Seq<char>>::empty());
        assert(r@.hosts =~= Seq::<HostView>::empty());
        r
    }
}

/// Reading a file line by line: the lines before the first block, the
/// finished blocks, the block being read, and whether `Match` was seen.
pub struct ParseState {
    pub prefix: Seq<Seq<char>>,
    pub hosts: Seq<HostView>,
    pub current: Option<HostView>,
    pub contains_match: bool,
}

/// The state before the first line.
pub open spec fn parse_start() -> ParseState {
    ParseState { prefix: seq![], hosts: seq![], current: None, contains_match: false }
}

/// Reading one more line: a `Host` directive (any case) starts a new block
/// named by its value; any other line joins the block being read, or the
/// global lines before the first block.
pub open spec fn parse_step(st: ParseState, line: Seq<char>) -> ParseState {
    let m = st.contains_match || line_has_key(line, "match"@);
    if line_has_key(line, "host"@) {
        ParseState {
            prefix: st.prefix,
            hosts: match st.current {
                Some(h) => st.hosts.push(h),
                None => st.hosts,
            },
            current: Some(HostView { names: directive_of(line).unwrap().1, body: seq![] }),
            contains_match: m,
        }
    } else {
        match st.current {
            Some(h) => ParseState {
                prefix: st.prefix,
                hosts: st.hosts,
                current: Some(HostView { names: h.names, body: h.body.push(line) }),
                contains_match: m,
            },
            None => ParseState {
                prefix: st.prefix.push(line),
                hosts: st.hosts,
                current: None,
                contains_match: m,
            },
        }
    }
}

/// The state after reading `lines` in order.
pub open spec fn parse_lines(lines: Seq<Seq<char>>) -> ParseState
    decreases lines.len(),
{
    if lines.len() == 0 {
        parse_start()
    } else {
        parse_step(parse_lines(lines.drop_last()), lines.last())
    }
}

/// The document that `lines` describe.
pub open spec fn document_of_lines(lines: Seq<Seq<char>>) -> DocView {
    let st = parse_lines(lines);
    DocView {
        prefix: st.prefix,
        hosts: match st.current {
            Some(h) => st.hosts.push(h),
            None => st.hosts,
        },
        contains_match: st.contains_match,
    }
}

/// The document that a text describes.
pub open spec fn parsed_document(content: Seq<char>) -> DocView {
    document_of_lines(text_lines(content))
}

/// A conservative parser: every inner line is kept exactly as read.
pub fn parse_document(content: &str) -> (r: ConfigDocument)
    ensures
        r@ == parsed_document(content@),
{
    let lines = split_lines(content);
    let ghost ls = texts(lines@);
    let mut prefix: Vec<String> = Vec::new();
    let mut hosts: Vec<HostEntry> = Vec::new();
    let mut has_current = false;
    let mut cur_names = String::new();
    let mut cur_body: Vec<String> = Vec::new();
    let mut contains_match = false;
    let n = lines.len();
    let mut i: usize = 0;
    proof {
        assert(ls.take(0) =~= Seq::<Seq<char>>::empty());
        assert(texts(prefix@) =~= Seq::<Seq<char>>::empty());
        assert(host_views(hosts@) =~= Seq::<HostView>::empty());
    }
    while i < n
        invariant
            n == lines@.len(),
            ls == texts(lines@),
            i <= n,
            parse_lines(ls.take(i as int)) == (ParseState {
                prefix: texts(prefix@),
                hosts: host_views(hosts@),
                current: if has_current {
                    Some(HostView { names: cur_names@, body: texts(cur_body@) })
                } else {
                    None
                },
                contains_match: contains_match,
            }),
        decreases n - i,
    {
        proof {
            assert(ls.take(i + 1).drop_last() =~= ls.take(i as int));
            assert(ls.take(i + 1).last() == ls[i as int]);
            assert(ls[i as int] == lines@[i as int]@);
        }
        let line = &lines[i];
        let (is_match, is_host, value) = match split_directive_owned(line.as_str()) {
            Some((key, value)) => (
                eq_ignore_ascii_case(key.as_str(), "match"),
                eq_ignore_ascii_case(key.as_str(), "host"),
                value,
            ),
            None => (false, false, String::new()),
        };
        if is_match {
            contains_match = true;
        }
        if is_host {
            if has_current {
                let ghost old_hosts = host_views(hosts@);
                let finished = HostEntry { names: cur_names, body: cur_body };
                hosts.push(finished);
                assert(host_views(hosts@) =~= old_hosts.push(finished@));
            }
            has_current = true;
            cur_names = value;
            cur_body = Vec::new();
            assert(texts(cur_body@) =~= Seq::<Seq<char>>::empty());
        } else if has_current {
            let ghost old_body = texts(cur_body@);
            cur_body.push(line.clone());
            assert(texts(cur_body@) =~= old_body.push(ls[i as int]));
        } else {
            let ghost old_prefix = texts(prefix@);
            prefix.push(line.clone());
            assert(texts(prefix@) =~= old_prefix.push(ls[i as int]));
        }
        i = i + 1;
    }
    assert(ls.take(n as int) =~= ls);
    if has_current {
        let ghost old_hosts = host_views(hosts@);
        let last = HostEntry { names: cur_names, body: cur_body };
        hosts.push(last);
        assert(host_views(hosts@) =~= old_hosts.push(last@));
    }
    ConfigDocument { prefix, hosts, contains_match }
}

/// The directive of a line, with key and value copied out.
fn split_directive_owned(line: &str) -> (r: Option<(String, String)>)
    ensures
        match r {
            Some((k, v)) => directive_of(line@) == Some((k@, v@)),
            None => directive_of(line@) is None,
        },
{
    match crate::directive::split_directive(line) {
        Some((k, v)) => Some((k.to_owned(), v.to_owned())),
        None => None,
    }
}

/// Each line followed by a line feed.
pub open spec fn lines_text(ls: Seq<Seq<char>>) -> Seq<char>
    decreases ls.len(),
{
    if ls.len() == 0 {
        seq![]
    } else {
        lines_text(ls.drop_last()) + ls.last() + seq!['\n']
    }
}

/// The text ends with an empty line (two line feeds).
pub open spec fn ends_with_blank_line(o: Seq<char>) -> bool {
    o.len() >= 2 && o[o.len() - 1] == '\n' && o[o.len() - 2] == '\n'
}

/// What is written before a block: one line feed, unless nothing has been
/// written yet or the text already ends with an empty line.
pub open spec fn block_separator(o: Seq<char>) -> Seq<char> {
    if o.len() > 0 && !ends_with_blank_line(o) {
        seq!['\n']
    } else {
        seq![]
    }
}

/// A block as written: its header `Host ` with the trimmed names, then its
/// lines.
pub open spec fn host_text(h: HostView) -> Seq<char> {
    "Host "@ + trim(h.names) + seq!['\n'] + lines_text(h.body)
}

/// `o` followed by the blocks, each after its separator.
pub open spec fn append_hosts(o: Seq<char>, hosts: Seq<HostView>) -> Seq<char>
    decreases hosts.len(),
{
    if hosts.len() == 0 {
        o
    } else {
        let p = append_hosts(o, hosts.drop_last());
        p + block_separator(p) + host_text(hosts.last())
    }
}

/// The text of a document: its global lines, then its blocks.
pub open spec fn document_text(d: DocView) -> Seq<char> {
    append_hosts(lines_text(d.prefix), d.hosts)
}

/// Whether the text ends with two line feeds.
fn ends_with_two_line_feeds(s: &String) -> (r: bool)
    ensures
        r == ends_with_blank_line(s@),
{
    let n = s.as_str().unicode_len();
    n >= 2 && s.as_str().get_char(n - 1) == '\n' && s.as_str().get_char(n - 2) == '\n'
}

/// Appends each line followed by a line feed.
fn push_lines(out: &mut String, lines: &Vec<String>)
    ensures
        final(out)@ == old(out)@ + lines_text(texts(lines@)),
{
    let ghost start = out@;
    let ghost ls = texts(lines@);
    let mut i: usize = 0;
    assert(ls.take(0) =~= Seq::<Seq<char>>::empty());
    assert(start + lines_text(ls.take(0)) =~= start);
    while i < lines.len()
        invariant
            ls == texts(lines@),
            i <= lines@.len(),
            out@ == start + lines_text(ls.take(i as int)),
        decreases lines.len() - i,
    {
        proof {
            assert(ls.take(i + 1).drop_last() =~= ls.take(i as int));
            assert(ls.take(i + 1).last() == lines@[i as int]@);
        }
        push_str(out, lines[i].as_str());
        push_str(out, "\n");
        proof {
            reveal_strlit("\n");
            assert(out@ =~= start + lines_text(ls.take(i + 1)));
        }
        i = i + 1;
    }
    assert(ls.take(lines.len() as int) =~= ls);
}

/// The text shown in the preview and written to disk.
pub fn serialize_document(document: &ConfigDocument) -> (r: String)
    ensures
        r@ == document_text(document@),
{
    let mut output = String::new();
    push_lines(&mut output, &document.prefix);
    let ghost start = output@;
    let ghost hs = host_views(document.hosts@);
    let mut i: usize = 0;
    assert(hs.take(0) =~= Seq::<HostView>::empty());
    while i < document.hosts.len()
        invariant
            hs == host_views(document.hosts@),
            start == lines_text(texts(document.prefix@)),
            i <= document.hosts@.len(),
            output@ == append_hosts(start, hs.take(i as int)),
        decreases document.hosts.len() - i,
    {
        proof {
            assert(hs.take(i + 1).drop_last() =~= hs.take(i as int));
            assert(hs.take(i + 1).last() == document.hosts@[i as int]@);
        }
        let ghost before = output@;
        let host = &document.hosts[i];
        if output.as_str().unicode_len() > 0 && !ends_with_two_line_feeds(&output) {
            push_str(&mut output, "\n");
        }
        proof {
            reveal_strlit("\n");
            assert(output@ =~= before + block_separator(before));
        }
        push_str(&mut output, "Host ");
        push_str(&mut output, trim_str(host.names.as_str()));
        push_str(&mut output, "\n");
        push_lines(&mut output, &host.body);
        proof {
            reveal_strlit("\n");
            assert(output@ =~= before + block_separator(before) + host_text(host@));
        }
        i = i + 1;
    }
    assert(hs.take(document.hosts.len() as int) =~= hs);
    output
}

/// Reading a text from the start: the words ended by whitespace so far,
/// and the characters of the word not yet ended.
pub open spec fn word_scan(s: Seq<char>) -> (Seq<Seq<char>>, Seq<char>)
    decreases s.len(),
{
    if s.len() == 0 {
        (seq![], seq![])
    } else {
        let (done, cur) = word_scan(s.drop_last());
        if is_ws(s.last()) {
            (if cur.len() > 0 { done.push(cur) } else { done }, seq![])
        } else {
            (done, cur.push(s.last()))
        }
    }
}

/// The words of a text, as `str::split_whitespace` gives them.
pub open spec fn text_words(s: Seq<char>) -> Seq<Seq<char>> {
    let (done, cur) = word_scan(s);
    if cur.len() > 0 {
        done.push(cur)
    } else {
        done
    }
}

/// A name that is a pattern (holds `*`, `?` or `!`) rather than an alias.
pub open spec fn is_pattern(w: Seq<char>) -> bool {
    w.contains('*') || w.contains('?') || w.contains('!')
}

/// The aliases that a `Host` header names, in order: its words that are not
/// patterns.
pub open spec fn header_aliases(names: Seq<char>) -> Seq<Seq<char>> {
    text_words(names).filter(|w: Seq<char>| !is_pattern(w))
}

/// The aliases of all blocks, in the order of the file.
pub open spec fn all_aliases(hosts: Seq<HostView>) -> Seq<Seq<char>>
    decreases hosts.len(),
{
    if hosts.len() == 0 {
        seq![]
    } else {
        all_aliases(hosts.drop_last()) + header_aliases(hosts.last().names)
    }
}

/// The first alias (in order of its second occurrence) that occurs twice.
pub open spec fn first_repeated(ws: Seq<Seq<char>>) -> Option<Seq<char>>
    decreases ws.len(),
{
    if ws.len() == 0 {
        None
    } else {
        match first_repeated(ws.drop_last()) {
            Some(w) => Some(w),
            None => if ws.drop_last().contains(ws.last()) {
                Some(ws.last())
            } else {
                None
            },
        }
    }
}

/// The message for an alias named by more than one block.
pub open spec fn duplicate_alias_message(name: Seq<char>) -> Seq<char> {
    "O alias '"@ + name + "' aparece em mais de um bloco Host."@
}

/// `str::split_whitespace`, collected.
pub fn split_whitespace(s: &str) -> (r: Vec<String>)
    ensures
        texts(r@) == text_words(s@),
{
    let cs = chars_of(s);
    let n = cs.len();
    let mut out: Vec<String> = Vec::new();
    let mut start: usize = 0;
    let mut i: usize = 0;
    assert(texts(out@) =~= Seq::<Seq<char>>::empty());
    while i < n
        invariant
            cs@ == s@,
            n == cs@.len(),
            start <= i <= n,
            word_scan(cs@.take(i as int)) == (texts(out@), cs@.subrange(start as int, i as int)),
        decreases n - i,
    {
        proof {
            assert(cs@.take(i + 1).drop_last() =~= cs@.take(i as int));
            assert(cs@.take(i + 1).last() == cs@[i as int]);
        }
        if is_whitespace(cs[i]) {
            if start < i {
                let w = string_from_chars(&cs, start, i);
                let ghost old_out = texts(out@);
                out.push(w);
                assert(texts(out@) =~= old_out.push(w@));
            }
            start = i + 1;
            assert(cs@.subrange(start as int, i + 1) =~= Seq::<char>::empty());
        } else {
            assert(cs@.subrange(start as int, i + 1) =~= cs@.subrange(start as int, i as int).push(
                cs@[i as int],
            ));
        }
        i = i + 1;
    }
    assert(cs@.take(n as int) =~= s@);
    if start < n {
        let w = string_from_chars(&cs, start, n);
        let ghost old_out = texts(out@);
        out.push(w);
        assert(texts(out@) =~= old_out.push(w@));
    }
    out
}

/// Whether a name is a pattern.
fn is_pattern_name(w: &String) -> (r: bool)
    ensures
        r == is_pattern(w@),
{
    contains_char(w.as_str(), '*') || contains_char(w.as_str(), '?') || contains_char(
        w.as_str(),
        '!',
    )
}

/// Appends the aliases of a header to `out`.
fn push_aliases(out: &mut Vec<String>, names: &str)
    ensures
        texts(final(out)@) == texts(old(out)@) + header_aliases(names@),
{
    let words = split_whitespace(names);
    let ghost ws = texts(words@);
    let ghost start = texts(out@);
    let ghost p = |w: Seq<char>| !is_pattern(w);
    let mut i: usize = 0;
    assert(ws.take(0) =~= Seq::<Seq<char>>::empty());
    proof {
        reveal(Seq::filter);
        assert(ws.take(0).filter(p) =~= Seq::<Seq<char>>::empty());
    }
    while i < words.len()
        invariant
            ws == texts(words@),
            p == (|w: Seq<char>| !is_pattern(w)),
            start == texts(old(out)@),
            i <= words@.len(),
            texts(out@) == start + ws.take(i as int).filter(p),
        decreases words.len() - i,
    {
        proof {
            reveal(Seq::filter);
            assert(ws.take(i + 1).drop_last() =~= ws.take(i as int));
            assert(ws.take(i + 1).last() == words@[i as int]@);
            assert(ws[i as int] == words@[i as int]@);
        }
        let ghost before = texts(out@);
        if !is_pattern_name(&words[i]) {
            out.push(words[i].clone());
            assert(texts(out@) =~= before.push(ws[i as int]));
        }
        proof {
            reveal(Seq::filter);
            assert(ws.take(i + 1).filter(p) == if p(ws[i as int]) {
                ws.take(i as int).filter(p).push(ws[i as int])
            } else {
                ws.take(i as int).filter(p)
            });
            assert(texts(out@) =~= start + ws.take(i + 1).filter(p));
        }
        i = i + 1;
    }
    assert(ws.take(words.len() as int) =~= ws);
    assert((|w: Seq<char>| !is_pattern(w)) =~= p);
}

/// Rejects a document in which an alias names more than one block, which
/// would make the file ambiguous.
pub fn validate_unique_hosts(document: &ConfigDocument) -> (r: Result<(), String>)
    ensures
        match r {
            Ok(()) => first_repeated(all_aliases(document@.hosts)) is None,
            Err(m) => first_repeated(all_aliases(document@.hosts)) matches Some(w) && m@
                == duplicate_alias_message(w),
        },
{
    let ghost hs = host_views(document.hosts@);
    let mut aliases: Vec<String> = Vec::new();
    let mut h: usize = 0;
    assert(hs.take(0) =~= Seq::<HostView>::empty());
    assert(texts(aliases@) =~= Seq::<Seq<char>>::empty());
    while h < document.hosts.len()
        invariant
            hs == host_views(document.hosts@),
            h <= document.hosts@.len(),
            texts(aliases@) == all_aliases(hs.take(h as int)),
        decreases document.hosts.len() - h,
    {
        proof {
            assert(hs.take(h + 1).drop_last() =~= hs.take(h as int));
            assert(hs.take(h + 1).last() == document.hosts@[h as int]@);
        }
        push_aliases(&mut aliases, document.hosts[h].names.as_str());
        h = h + 1;
    }
    assert(hs.take(document.hosts.len() as int) =~= hs);
    let ghost ws = texts(aliases@);
    let n = aliases.len();
    let mut i: usize = 0;
    assert(ws.take(0) =~= Seq::<Seq<char>>::empty());
    while i < n
        invariant
            ws == texts(aliases@),
            ws == all_aliases(hs),
            hs == host_views(document.hosts@),
            n == aliases@.len(),
            i <= n,
            first_repeated(ws.take(i as int)) is None,
        decreases n - i,
    {
        let mut j: usize = 0;
        while j < i
            invariant
                ws == texts(aliases@),
                ws == all_aliases(hs),
                hs == host_views(document.hosts@),
                first_repeated(ws.take(i as int)) is None,
                n == aliases@.len(),
                j <= i < n,
                forall|k: int| 0 <= k < j ==> ws[k] != ws[i as int],
            decreases i - j,
        {
            if aliases[j] == aliases[i] {
                proof {
                    let t = ws.take(i + 1);
                    assert(t.drop_last() =~= ws.take(i as int));
                    assert(t.last() == ws[i as int]);
                    assert(t.drop_last()[j as int] == ws[j as int]);
                    assert(t.drop_last().contains(t.last()));
                    assert(first_repeated(t) == Some(ws[i as int]));
                }
                let mut m = String::new();
                push_str(&mut m, "O alias '");
                push_str(&mut m, aliases[i].as_str());
                push_str(&mut m, "' aparece em mais de um bloco Host.");
                proof {
                    lemma_first_repeated_extends(ws, i as int);
                }
                return Err(m);
            }
            j = j + 1;
        }
        proof {
            let t = ws.take(i + 1);
            assert(t.drop_last() =~= ws.take(i as int));
            assert(t.last() == ws[i as int]);
            assert forall|k: int| 0 <= k < t.drop_last().len() implies t.drop_last()[k] != t.last() by {
                assert(t.drop_last()[k] == ws[k]);
            }
        }
        i = i + 1;
    }
    assert(ws.take(n as int) =~= ws);
    Ok(())
}

/// Once a prefix of `ws` has a repeated alias, `ws` has the same first one.
proof fn lemma_first_repeated_extends(ws: Seq<Seq<char>>, i: int)
    requires
        0 <= i < ws.len(),
        first_repeated(ws.take(i + 1)) is Some,
    ensures
        first_repeated(ws) == first_repeated(ws.take(i + 1)),
    decreases ws.len() - i,
{
    if i + 1 < ws.len() {
        assert(ws.take(i + 2).drop_last() =~= ws.take(i + 1));
        lemma_first_repeated_extends(ws, i + 1);
    } else {
        assert(ws.take(i + 1) =~= ws);
    }
}

/// How many times `w` occurs in `ws`.
spec fn occurrences(ws: Seq<Seq<char>>, w: Seq<char>) -> nat
    decreases ws.len(),
{
    if ws.len() == 0 {
        0
    } else {
        occurrences(ws.drop_last(), w) + if ws.last() == w {
            1nat
        } else {
            0nat
        }
    }
}

proof fn lemma_occurrences_add(a: Seq<Seq<char>>, b: Seq<Seq<char>>, w: Seq<char>)
    ensures
        occurrences(a + b, w) == occurrences(a, w) + occurrences(b, w),
    decreases b.len(),
{
    if b.len() == 0 {
        assert(a + b =~= a);
    } else {
        assert((a + b).drop_last() =~= a + b.drop_last());
        assert((a + b).last() == b.last());
        lemma_occurrences_add(a, b.drop_last(), w);
    }
}

proof fn lemma_occurrences_filter(s: Seq<Seq<char>>, f: spec_fn(Seq<char>) -> bool, w: Seq<char>)
    requires
        f(w),
    ensures
        occurrences(s.filter(f), w) == occurrences(s, w),
    decreases s.len(),
{
    reveal(Seq::filter);
    if s.len() > 0 {
        lemma_occurrences_filter(s.drop_last(), f, w);
        if f(s.last()) {
            assert(s.filter(f).drop_last() =~= s.drop_last().filter(f));
        }
    }
}

proof fn lemma_occurrences_at(s: Seq<Seq<char>>, p: int, w: Seq<char>)
    requires
        0 <= p < s.len(),
        s[p] == w,
    ensures
        occurrences(s, w) >= 1,
    decreases s.len(),
{
    if p < s.len() - 1 {
        assert(s.drop_last()[p] == s[p]);
        lemma_occurrences_at(s.drop_last(), p, w);
    }
}

proof fn lemma_occurrences_at_two(s: Seq<Seq<char>>, p: int, q: int, w: Seq<char>)
    requires
        0 <= p < q < s.len(),
        s[p] == w,
        s[q] == w,
    ensures
        occurrences(s, w) >= 2,
    decreases s.len(),
{
    assert(s.drop_last()[p] == s[p]);
    if q == s.len() - 1 {
        lemma_occurrences_at(s.drop_last(), p, w);
    } else {
        assert(s.drop_last()[q] == s[q]);
        lemma_occurrences_at_two(s.drop_last(), p, q, w);
    }
}

proof fn lemma_occurrences_contains(s: Seq<Seq<char>>, w: Seq<char>)
    requires
        occurrences(s, w) >= 1,
    ensures
        s.contains(w),
    decreases s.len(),
{
    if s.last() == w {
        assert(s[s.len() - 1] == w);
    } else {
        lemma_occurrences_contains(s.drop_last(), w);
        let k = choose|k: int| 0 <= k < s.drop_last().len() && s.drop_last()[k] == w;
        assert(s[k] == w);
    }
}

proof fn lemma_twice_is_repeated(ws: Seq<Seq<char>>, w: Seq<char>)
    requires
        occurrences(ws, w) >= 2,
    ensures
        first_repeated(ws) is Some,
    decreases ws.len(),
{
    if ws.last() == w {
        lemma_occurrences_contains(ws.drop_last(), w);
    } else {
        lemma_twice_is_repeated(ws.drop_last(), w);
    }
}

proof fn lemma_header_occurrences(names: Seq<char>, w: Seq<char>)
    requires
        !is_pattern(w),
    ensures
        occurrences(header_aliases(names), w) == occurrences(text_words(names), w),
{
    let f = |x: Seq<char>| !is_pattern(x);
    lemma_occurrences_filter(text_words(names), f, w);
    assert(header_aliases(names) == text_words(names).filter(f));
}

proof fn lemma_all_aliases_one(hosts: Seq<HostView>, i: int, w: Seq<char>)
    requires
        0 <= i < hosts.len(),
    ensures
        occurrences(all_aliases(hosts), w) >= occurrences(header_aliases(hosts[i].names), w),
    decreases hosts.len(),
{
    let d = hosts.drop_last();
    lemma_occurrences_add(all_aliases(d), header_aliases(hosts.last().names), w);
    if i < hosts.len() - 1 {
        assert(d[i] == hosts[i]);
        lemma_all_aliases_one(d, i, w);
    }
}

proof fn lemma_all_aliases_two(hosts: Seq<HostView>, i: int, j: int, w: Seq<char>)
    requires
        0 <= i < j < hosts.len(),
    ensures
        occurrences(all_aliases(hosts), w) >= occurrences(header_aliases(hosts[i].names), w)
            + occurrences(header_aliases(hosts[j].names), w),
    decreases hosts.len(),
{
    let d = hosts.drop_last();
    lemma_occurrences_add(all_aliases(d), header_aliases(hosts.last().names), w);
    assert(d[i] == hosts[i]);
    if j == hosts.len() - 1 {
        lemma_all_aliases_one(d, i, w);
    } else {
        assert(d[j] == hosts[j]);
        lemma_all_aliases_two(d, i, j, w);
    }
}

/// A name that holds none of `*`, `?`, `!` and that stands twice among the
/// `Host` headers (in two blocks, or twice in one header) makes the
/// document ambiguous: a repeated alias is found, so saving is refused.
pub proof fn law_repeated_alias_refuses(hosts: Seq<HostView>, i: int, p: int, j: int, q: int)
    requires
        0 <= i < hosts.len(),
        0 <= j < hosts.len(),
        0 <= p < text_words(hosts[i].names).len(),
        0 <= q < text_words(hosts[j].names).len(),
        i != j || p != q,
        text_words(hosts[i].names)[p] == text_words(hosts[j].names)[q],
        !text_words(hosts[i].names)[p].contains('*'),
        !text_words(hosts[i].names)[p].contains('?'),
        !text_words(hosts[i].names)[p].contains('!'),
    ensures
        first_repeated(all_aliases(hosts)) is Some,
{
    let w = text_words(hosts[i].names)[p];
    lemma_header_occurrences(hosts[i].names, w);
    lemma_header_occurrences(hosts[j].names, w);
    if i == j {
        if p < q {
            lemma_occurrences_at_two(text_words(hosts[i].names), p, q, w);
        } else {
            lemma_occurrences_at_two(text_words(hosts[i].names), q, p, w);
        }
        lemma_all_aliases_one(hosts, i, w);
    } else {
        lemma_occurrences_at(text_words(hosts[i].names), p, w);
        lemma_occurrences_at(text_words(hosts[j].names), q, w);
        if i < j {
            lemma_all_aliases_two(hosts, i, j, w);
        } else {
            lemma_all_aliases_two(hosts, j, i, w);
        }
    }
    lemma_twice_is_repeated(all_aliases(hosts), w);
}

proof fn lemma_occurrences_filter_out(s: Seq<Seq<char>>, f: spec_fn(Seq<char>) -> bool, w: Seq<char>)
    requires
        !f(w),
    ensures
        occurrences(s.filter(f), w) == 0,
    decreases s.len(),
{
    reveal(Seq::filter);
    if s.len() > 0 {
        lemma_occurrences_filter_out(s.drop_last(), f, w);
        if f(s.last()) {
            assert(s.filter(f).drop_last() =~= s.drop_last().filter(f));
            assert(s.filter(f).last() == s.last());
            assert(s.last() != w);
        }
    } else {
        assert(s.filter(f) =~= Seq::<Seq<char>>::empty());
    }
}

proof fn lemma_repeated_occurs_twice(ws: Seq<Seq<char>>)
    ensures
        first_repeated(ws) matches Some(w) ==> occurrences(ws, w) >= 2,
    decreases ws.len(),
{
    if ws.len() > 0 {
        lemma_repeated_occurs_twice(ws.drop_last());
        if first_repeated(ws.drop_last()) is None && ws.drop_last().contains(ws.last()) {
            let d = ws.drop_last();
            let k = choose|k: int| 0 <= k < d.len() && d[k] == ws.last();
            lemma_occurrences_at(d, k, ws.last());
        }
    }
}

proof fn lemma_two_positions(s: Seq<Seq<char>>, w: Seq<char>)
    requires
        occurrences(s, w) >= 2,
    ensures
        exists|p: int, q: int| 0 <= p < q < s.len() && s[p] == w && s[q] == w,
    decreases s.len(),
{
    let d = s.drop_last();
    if s.last() == w {
        lemma_occurrences_contains(d, w);
        let p = choose|p: int| 0 <= p < d.len() && d[p] == w;
        assert(s[p] == w && s[s.len() - 1] == w);
    } else {
        lemma_two_positions(d, w);
        let (p, q) = choose|p: int, q: int| 0 <= p < q < d.len() && d[p] == w && d[q] == w;
        assert(s[p] == w && s[q] == w);
    }
}

proof fn lemma_all_aliases_back_one(hosts: Seq<HostView>, w: Seq<char>)
    requires
        occurrences(all_aliases(hosts), w) >= 1,
    ensures
        exists|i: int| 0 <= i < hosts.len() && occurrences(header_aliases(hosts[i].names), w) >= 1,
    decreases hosts.len(),
{
    let d = hosts.drop_last();
    lemma_occurrences_add(all_aliases(d), header_aliases(hosts.last().names), w);
    if occurrences(header_aliases(hosts.last().names), w) >= 1 {
        assert(hosts[hosts.len() - 1] == hosts.last());
    } else {
        lemma_all_aliases_back_one(d, w);
        let i = choose|i: int| 0 <= i < d.len() && occurrences(header_aliases(d[i].names), w) >= 1;
        assert(d[i] == hosts[i]);
    }
}

proof fn lemma_all_aliases_back_two(hosts: Seq<HostView>, w: Seq<char>)
    requires
        occurrences(all_aliases(hosts), w) >= 2,
    ensures
        (exists|i: int| 0 <= i < hosts.len() && occurrences(header_aliases(hosts[i].names), w) >= 2)
            || (exists|i: int, j: int|
            0 <= i < j < hosts.len() && occurrences(header_aliases(hosts[i].names), w) >= 1
                && occurrences(header_aliases(hosts[j].names), w) >= 1),
    decreases hosts.len(),
{
    let d = hosts.drop_last();
    let l = hosts.len() - 1;
    lemma_occurrences_add(all_aliases(d), header_aliases(hosts.last().names), w);
    assert(hosts[l] == hosts.last());
    if occurrences(header_aliases(hosts.last().names), w) >= 2 {
    } else if occurrences(header_aliases(hosts.last().names), w) == 1 {
        lemma_all_aliases_back_one(d, w);
        let i = choose|i: int| 0 <= i < d.len() && occurrences(header_aliases(d[i].names), w) >= 1;
        assert(d[i] == hosts[i]);
    } else {
        lemma_all_aliases_back_two(d, w);
        if exists|i: int| 0 <= i < d.len() && occurrences(header_aliases(d[i].names), w) >= 2 {
            let i = choose|i: int| 0 <= i < d.len() && occurrences(header_aliases(d[i].names), w) >= 2;
            assert(d[i] == hosts[i]);
        } else {
            let (i, j) = choose|i: int, j: int|
                0 <= i < j < d.len() && occurrences(header_aliases(d[i].names), w) >= 1
                    && occurrences(header_aliases(d[j].names), w) >= 1;
            assert(d[i] == hosts[i] && d[j] == hosts[j]);
        }
    }
}

/// A header's aliases never include a pattern.
proof fn lemma_header_without_pattern(names: Seq<char>, w: Seq<char>)
    requires
        is_pattern(w),
    ensures
        occurrences(header_aliases(names), w) == 0,
{
    let f = |x: Seq<char>| !is_pattern(x);
    lemma_occurrences_filter_out(text_words(names), f, w);
    assert(header_aliases(names) == text_words(names).filter(f));
}

/// When saving is refused for a repeated alias, that alias holds none of
/// `*`, `?`, `!`, and it really stands twice among the `Host` headers (in
/// two blocks, or twice in one header).
pub proof fn law_reported_alias_is_repeated(hosts: Seq<HostView>)
    ensures
        first_repeated(all_aliases(hosts)) matches Some(w) ==> {
            &&& !w.contains('*') && !w.contains('?') && !w.contains('!')
            &&& exists|i: int, p: int, j: int, q: int|
                0 <= i < hosts.len() && 0 <= j < hosts.len() && 0 <= p < text_words(
                    hosts[i].names,
                ).len() && 0 <= q < text_words(hosts[j].names).len() && (i != j || p != q)
                    && #[trigger] text_words(hosts[i].names)[p] == w && #[trigger] text_words(
                    hosts[j].names,
                )[q] == w
        },
{
    if first_repeated(all_aliases(hosts)) is Some {
        let w = first_repeated(all_aliases(hosts)).unwrap();
        lemma_repeated_occurs_twice(all_aliases(hosts));
        lemma_all_aliases_back_one(hosts, w);
        let i0 = choose|i: int|
            0 <= i < hosts.len() && occurrences(header_aliases(hosts[i].names), w) >= 1;
        if is_pattern(w) {
            lemma_header_without_pattern(hosts[i0].names, w);
        }
        assert(!is_pattern(w));
        lemma_all_aliases_back_two(hosts, w);
        if exists|i: int| 0 <= i < hosts.len() && occurrences(header_aliases(hosts[i].names), w) >= 2 {
            let i = choose|i: int|
                0 <= i < hosts.len() && occurrences(header_aliases(hosts[i].names), w) >= 2;
            let t = text_words(hosts[i].names);
            lemma_header_occurrences(hosts[i].names, w);
            lemma_two_positions(t, w);
            let (p, q) = choose|p: int, q: int| 0 <= p < q < t.len() && t[p] == w && t[q] == w;
            assert(text_words(hosts[i].names)[p] == w && text_words(hosts[i].names)[q] == w);
        } else {
            let (i, j) = choose|i: int, j: int|
                0 <= i < j < hosts.len() && occurrences(header_aliases(hosts[i].names), w) >= 1
                    && occurrences(header_aliases(hosts[j].names), w) >= 1;
            let ti = text_words(hosts[i].names);
            let tj = text_words(hosts[j].names);
            lemma_header_occurrences(hosts[i].names, w);
            lemma_header_occurrences(hosts[j].names, w);
            lemma_occurrences_contains(ti, w);
            lemma_occurrences_contains(tj, w);
            let p = choose|p: int| 0 <= p < ti.len() && ti[p] == w;
            let q = choose|q: int| 0 <= q < tj.len() && tj[q] == w;
            assert(text_words(hosts[i].names)[p] == w && text_words(hosts[j].names)[q] == w);
        }
    }
}

/// Whitespace written before a line leaves its trimmed text, and so the
/// directive it holds, unchanged.
proof fn lemma_indented_trim(pad: Seq<char>, line: Seq<char>)
    requires
        forall|j: int| 0 <= j < pad.len() ==> is_ws(#[trigger] pad[j]),
    ensures
        trim(pad + line) == trim(line),
        directive_of(pad + line) == directive_of(line),
{
    let s = pad + line;
    let n = pad.len() as int;
    lemma_leading_ws_bounds(line);
    let k = n + leading_ws(line);
    assert forall|j: int| 0 <= j < k implies is_ws(#[trigger] s[j]) by {
        if j < n {
            assert(s[j] == pad[j]);
        } else {
            assert(s[j] == line[j - n]);
        }
    }
    if k < s.len() {
        assert(s[k] == line[leading_ws(line) as int]);
    }
    lemma_leading_ws_is(s, k);
    assert(trim_start(s) =~= trim_start(line));
}

/// Whitespace before a line does not change what the line does to the
/// block structure: the line holds the same directive, a `Host` line
/// starts the same block, and any other line joins the same block (or the
/// global lines) as it would unindented.
pub proof fn law_indentation_keeps_blocks(st: ParseState, pad: Seq<char>, line: Seq<char>)
    requires
        forall|j: int| 0 <= j < pad.len() ==> is_ws(#[trigger] pad[j]),
    ensures
        directive_of(pad + line) == directive_of(line),
        line_has_key(pad + line, "host"@) == line_has_key(line, "host"@),
        line_has_key(line, "host"@) ==> parse_step(st, pad + line) == parse_step(st, line),
        parse_step(st, pad + line).hosts == parse_step(st, line).hosts,
        parse_step(st, pad + line).contains_match == parse_step(st, line).contains_match,
        parse_step(st, pad + line).prefix.len() == parse_step(st, line).prefix.len(),
        parse_step(st, pad + line).current is Some == parse_step(st, line).current is Some,
        parse_step(st, pad + line).current matches Some(h) ==> h.names == parse_step(
            st,
            line,
        ).current.unwrap().names && h.body.len() == parse_step(st, line).current.unwrap().body.len(),
{
    lemma_indented_trim(pad, line);
}

/// The blocks of a reading state: the finished ones, then the one being read.
pub open spec fn blocks_of(st: ParseState) -> Seq<HostView> {
    match st.current {
        Some(h) => st.hosts.push(h),
        None => st.hosts,
    }
}

/// The lines that hold a `Host` directive (any case), in order.
pub open spec fn host_lines(lines: Seq<Seq<char>>) -> Seq<Seq<char>> {
    lines.filter(|l: Seq<char>| line_has_key(l, "host"@))
}

proof fn lemma_blocks_follow_host_lines(lines: Seq<Seq<char>>)
    ensures
        blocks_of(parse_lines(lines)).len() == host_lines(lines).len(),
        forall|k: int|
            0 <= k < host_lines(lines).len() ==> (#[trigger] blocks_of(parse_lines(lines))[k]).names
                == directive_of(host_lines(lines)[k]).unwrap().1,
    decreases lines.len(),
{
    reveal(Seq::filter);
    if lines.len() > 0 {
        let d = lines.drop_last();
        let l = lines.last();
        lemma_blocks_follow_host_lines(d);
        let st = parse_lines(d);
        let b0 = blocks_of(st);
        let b1 = blocks_of(parse_step(st, l));
        let h0 = host_lines(d);
        let h1 = host_lines(lines);
        assert(parse_lines(lines) == parse_step(st, l));
        if line_has_key(l, "host"@) {
            assert(h1 == h0.push(l));
            assert(b1 =~= b0.push(HostView { names: directive_of(l).unwrap().1, body: seq![] }));
            assert forall|k: int| 0 <= k < h1.len() implies (#[trigger] b1[k]).names == directive_of(
                h1[k],
            ).unwrap().1 by {
                if k < h0.len() {
                    assert(b1[k] == b0[k]);
                    assert(h1[k] == h0[k]);
                }
            }
        } else {
            assert(h1 == h0);
            assert forall|k: int| 0 <= k < h1.len() implies (#[trigger] b1[k]).names == directive_of(
                h1[k],
            ).unwrap().1 by {
                assert(b1[k].names == b0[k].names);
            }
        }
    }
}

/// Every line that holds a `Host` directive, indented or not, starts a
/// block of its own: the document has exactly one block per such line, in
/// the order of the lines, each named by its line's value.
pub proof fn law_one_block_per_host_line(lines: Seq<Seq<char>>)
    ensures
        document_of_lines(lines).hosts.len() == host_lines(lines).len(),
        forall|k: int|
            0 <= k < host_lines(lines).len() ==> (#[trigger] document_of_lines(lines).hosts[k]).names
                == directive_of(host_lines(lines)[k]).unwrap().1,
{
    lemma_blocks_follow_host_lines(lines);
    assert(document_of_lines(lines).hosts == blocks_of(parse_lines(lines)));
}

/// A `Match` directive (any case, indented or not) anywhere in the file is
/// noticed, and nothing else sets the flag.
pub proof fn law_match_flag(lines: Seq<Seq<char>>)
    ensures
        document_of_lines(lines).contains_match <==> exists|i: int|
            0 <= i < lines.len() && line_has_key(#[trigger] lines[i], "match"@),
    decreases lines.len(),
{
    if lines.len() > 0 {
        let d = lines.drop_last();
        law_match_flag(d);
        assert(parse_lines(lines) == parse_step(parse_lines(d), lines.last()));
        if exists|i: int| 0 <= i < d.len() && line_has_key(#[trigger] d[i], "match"@) {
            let i = choose|i: int| 0 <= i < d.len() && line_has_key(#[trigger] d[i], "match"@);
            assert(lines[i] == d[i]);
        }
        if exists|i: int| 0 <= i < lines.len() && line_has_key(#[trigger] lines[i], "match"@) {
            let i = choose|i: int| 0 <= i < lines.len() && line_has_key(#[trigger] lines[i], "match"@);
            if i < lines.len() - 1 {
                assert(d[i] == lines[i]);
            }
        }
    }
}

proof fn lemma_prefix_lines(lines: Seq<Seq<char>>, k: int)
    requires
        0 <= k,
        forall|j: int| 0 <= j < k && j < lines.len() ==> !line_has_key(#[trigger] lines[j], "host"@),
        k < lines.len() ==> line_has_key(lines[k], "host"@),
    ensures
        lines.len() <= k ==> parse_lines(lines).prefix == lines && parse_lines(lines).current is None,
        lines.len() > k ==> parse_lines(lines).prefix == lines.take(k) && parse_lines(
            lines,
        ).current is Some,
    decreases lines.len(),
{
    if lines.len() > 0 {
        let d = lines.drop_last();
        assert forall|j: int| 0 <= j < k && j < d.len() implies !line_has_key(
            #[trigger] d[j],
            "host"@,
        ) by {
            assert(d[j] == lines[j]);
        }
        if k < d.len() {
            assert(d[k] == lines[k]);
        }
        lemma_prefix_lines(d, k);
        assert(parse_lines(lines) == parse_step(parse_lines(d), lines.last()));
        if lines.len() <= k {
            assert(!line_has_key(lines[lines.len() - 1], "host"@));
            assert(d.push(lines.last()) =~= lines);
        } else if lines.len() == k + 1 {
            assert(d =~= lines.take(k));
        }
    } else {
        assert(lines =~= Seq::<Seq<char>>::empty());
    }
}

/// The global lines of a document are exactly the lines before its first
/// `Host` line (all lines when there is none), kept as read.
pub proof fn law_prefix_before_first_host(lines: Seq<Seq<char>>, k: int)
    requires
        0 <= k <= lines.len(),
        forall|j: int| 0 <= j < k ==> !line_has_key(#[trigger] lines[j], "host"@),
        k < lines.len() ==> line_has_key(lines[k], "host"@),
    ensures
        document_of_lines(lines).prefix == lines.take(k),
{
    lemma_prefix_lines(lines, k);
    if k == lines.len() {
        assert(lines.take(k) =~= lines);
    }
}

/// The lines a document was read from: its global lines, then for each
/// block its `Host` line (from `headers`) followed by its body.
pub open spec fn lines_read(prefix: Seq<Seq<char>>, headers: Seq<Seq<char>>, hosts: Seq<HostView>) -> Seq<
    Seq<char>,
>
    decreases hosts.len(),
{
    if hosts.len() == 0 || headers.len() == 0 {
        prefix
    } else {
        lines_read(prefix, headers.drop_last(), hosts.drop_last()) + seq![headers.last()]
            + hosts.last().body
    }
}

proof fn lemma_lines_kept(lines: Seq<Seq<char>>)
    ensures
        parse_lines(lines).current is None ==> parse_lines(lines).hosts.len() == 0,
        lines == lines_read(
            parse_lines(lines).prefix,
            host_lines(lines),
            blocks_of(parse_lines(lines)),
        ),
    decreases lines.len(),
{
    reveal(Seq::filter);
    lemma_blocks_follow_host_lines(lines);
    if lines.len() > 0 {
        let d = lines.drop_last();
        let l = lines.last();
        lemma_lines_kept(d);
        lemma_blocks_follow_host_lines(d);
        let st = parse_lines(d);
        let st1 = parse_step(st, l);
        assert(parse_lines(lines) == st1);
        let h0 = host_lines(d);
        let b0 = blocks_of(st);
        let b1 = blocks_of(st1);
        assert(lines =~= d.push(l));
        if line_has_key(l, "host"@) {
            assert(host_lines(lines) == h0.push(l));
            assert(b1.drop_last() =~= b0);
            assert(h0.push(l).drop_last() =~= h0);
            assert(b1.last().body =~= Seq::<Seq<char>>::empty());
            assert(lines_read(st1.prefix, h0.push(l), b1) =~= lines_read(st.prefix, h0, b0)
                + seq![l]);
        } else {
            assert(host_lines(lines) == h0);
            match st.current {
                Some(h) => {
                    assert(b1.drop_last() =~= b0.drop_last());
                    assert(b1.last().body =~= b0.last().body.push(l));
                    assert(lines_read(st1.prefix, h0, b1) =~= lines_read(st.prefix, h0, b0)
                        + seq![l]);
                },
                None => {
                    assert(b0.len() == 0 && b1.len() == 0);
                    assert(lines_read(st1.prefix, h0, b1) == st1.prefix);
                },
            }
        }
    } else {
        assert(lines =~= Seq::<Seq<char>>::empty());
    }
}

/// Reading keeps every line exactly as read and in order: the global
/// lines, then each block's `Host` line followed by its inner lines
/// (comments, blank lines and unknown directives included) give back the
/// lines that were read.
pub proof fn law_reading_keeps_every_line(lines: Seq<Seq<char>>)
    ensures
        lines == lines_read(
            document_of_lines(lines).prefix,
            host_lines(lines),
            document_of_lines(lines).hosts,
        ),
{
    lemma_lines_kept(lines);
    assert(document_of_lines(lines).hosts == blocks_of(parse_lines(lines)));
}

} // verus!
