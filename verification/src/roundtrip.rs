//! What reading a written document gives back.
use vstd::prelude::*;
use crate::directive::{
    directive_of, is_key_char, lemma_span_is, line_scan, starts_with_equals, strip_cr, text_lines,
};
use crate::document::{
    append_hosts, block_separator, document_text, ends_with_blank_line,
    host_text, lines_text, parse_lines, parse_start, parse_step, parsed_document, DocView,
    ParseState,
};
use crate::host::{line_has_key, HostView};
use crate::text::{
    lemma_leading_ws_bounds, lemma_leading_ws_is, lemma_trailing_ws_is, lemma_trim_ends,
    lemma_trim_idempotent, trim,
    trim_start,
};

verus! {

/// `lines_text` of a concatenation.
pub proof fn lemma_lines_text_concat(a: Seq<Seq<char>>, b: Seq<Seq<char>>)
    ensures
        lines_text(a + b) == lines_text(a) + lines_text(b),
    decreases b.len(),
{
    if b.len() == 0 {
        assert(a + b =~= a);
        assert(lines_text(a) + lines_text(b) =~= lines_text(a));
    } else {
        assert((a + b).drop_last() =~= a + b.drop_last());
        assert((a + b).last() == b.last());
        lemma_lines_text_concat(a, b.drop_last());
        assert(lines_text(a + b) =~= lines_text(a) + lines_text(b));
    }
}

/// A line that `str::lines` gives back unchanged: no line feed in it and
/// no carriage return at its end.
pub open spec fn is_clean_line(l: Seq<char>) -> bool {
    &&& !l.contains('\n')
    &&& !(l.len() > 0 && l.last() == '\r')
}

/// Every line is clean.
pub open spec fn all_clean(ls: Seq<Seq<char>>) -> bool {
    forall|i: int| 0 <= i < ls.len() ==> is_clean_line(#[trigger] ls[i])
}

proof fn lemma_scan_without_line_feed(x: Seq<char>, w: Seq<char>)
    requires
        !w.contains('\n'),
    ensures
        line_scan(x + w) == (line_scan(x).0, line_scan(x).1 + w),
    decreases w.len(),
{
    if w.len() == 0 {
        assert(x + w =~= x);
        assert(line_scan(x).1 + w =~= line_scan(x).1);
    } else {
        assert((x + w).drop_last() =~= x + w.drop_last());
        assert((x + w).last() == w.last());
        assert(!w.drop_last().contains('\n')) by {
            if w.drop_last().contains('\n') {
                let i = choose|i: int| 0 <= i < w.drop_last().len() && w.drop_last()[i] == '\n';
                assert(w[i] == '\n');
            }
        }
        assert(w.last() != '\n') by {
            if w.last() == '\n' {
                assert(w[w.len() - 1] == '\n');
            }
        }
        lemma_scan_without_line_feed(x, w.drop_last());
        assert((line_scan(x).1 + w.drop_last()).push(w.last()) =~= line_scan(x).1 + w);
    }
}

/// Reading the lines of a text made of clean lines gives those lines.
pub proof fn lemma_lines_of_lines_text(ls: Seq<Seq<char>>)
    requires
        all_clean(ls),
    ensures
        line_scan(lines_text(ls)) == (ls, Seq::<char>::empty()),
        text_lines(lines_text(ls)) == ls,
    decreases ls.len(),
{
    if ls.len() == 0 {
        assert(ls =~= Seq::<Seq<char>>::empty());
    } else {
        let prev = ls.drop_last();
        let l = ls.last();
        assert(is_clean_line(ls[ls.len() - 1]));
        assert forall|i: int| 0 <= i < prev.len() implies is_clean_line(#[trigger] prev[i]) by {
            assert(prev[i] == ls[i]);
        }
        lemma_lines_of_lines_text(prev);
        let y = lines_text(prev) + l;
        lemma_scan_without_line_feed(lines_text(prev), l);
        assert(Seq::<char>::empty() + l =~= l);
        let t = lines_text(ls);
        assert(t == y + seq!['\n']);
        assert(t.drop_last() =~= y);
        assert(t.last() == '\n');
        assert(strip_cr(l) == l);
        assert(prev.push(l) =~= ls);
    }
}

/// The lines that writing a document produces: the global lines, then for
/// each block an empty separator line where one is written, its header and
/// its lines.
pub open spec fn header_line(h: HostView) -> Seq<char> {
    "Host "@ + trim(h.names)
}

/// The empty separator line written before a block, if any.
pub open spec fn separator_lines(ls: Seq<Seq<char>>) -> Seq<Seq<char>> {
    let o = lines_text(ls);
    if o.len() > 0 && !ends_with_blank_line(o) {
        seq![seq![]]
    } else {
        seq![]
    }
}

pub open spec fn written_lines(prefix: Seq<Seq<char>>, hosts: Seq<HostView>) -> Seq<Seq<char>>
    decreases hosts.len(),
{
    if hosts.len() == 0 {
        prefix
    } else {
        let f = written_lines(prefix, hosts.drop_last());
        f + separator_lines(f) + seq![header_line(hosts.last())] + hosts.last().body
    }
}

/// The written text is made of the written lines.
pub proof fn lemma_text_is_written_lines(prefix: Seq<Seq<char>>, hosts: Seq<HostView>)
    ensures
        append_hosts(lines_text(prefix), hosts) == lines_text(written_lines(prefix, hosts)),
    decreases hosts.len(),
{
    reveal_strlit("Host ");
    if hosts.len() > 0 {
        let f = written_lines(prefix, hosts.drop_last());
        let h = hosts.last();
        lemma_text_is_written_lines(prefix, hosts.drop_last());
        let sep = separator_lines(f);
        let hdr = seq![header_line(h)];
        lemma_lines_text_concat(f, sep);
        lemma_lines_text_concat(f + sep, hdr);
        lemma_lines_text_concat(f + sep + hdr, h.body);
        assert(lines_text(sep) =~= block_separator(lines_text(f))) by {
            if sep.len() > 0 {
                assert(sep.drop_last() =~= Seq::<Seq<char>>::empty());
                assert(lines_text(sep.drop_last()) =~= Seq::<char>::empty());
                assert(sep.last() =~= Seq::<char>::empty());
                assert(lines_text(sep) =~= seq!['\n']);
            } else {
                assert(lines_text(sep) =~= Seq::<char>::empty());
            }
        }
        assert(hdr.drop_last() =~= Seq::<Seq<char>>::empty());
        assert(lines_text(hdr.drop_last()) =~= Seq::<char>::empty());
        assert(lines_text(hdr) =~= header_line(h) + seq!['\n']);
        assert(lines_text(written_lines(prefix, hosts)) =~= lines_text(f) + block_separator(
            lines_text(f),
        ) + host_text(h));
    }
}

/// Reading `ls` in order, starting from the state `st`.
pub open spec fn parse_from(st: ParseState, ls: Seq<Seq<char>>) -> ParseState
    decreases ls.len(),
{
    if ls.len() == 0 {
        st
    } else {
        parse_step(parse_from(st, ls.drop_last()), ls.last())
    }
}

proof fn lemma_parse_lines_from(ls: Seq<Seq<char>>)
    ensures
        parse_lines(ls) == parse_from(parse_start(), ls),
    decreases ls.len(),
{
    if ls.len() > 0 {
        lemma_parse_lines_from(ls.drop_last());
    }
}

proof fn lemma_parse_from_concat(st: ParseState, a: Seq<Seq<char>>, b: Seq<Seq<char>>)
    ensures
        parse_from(st, a + b) == parse_from(parse_from(st, a), b),
    decreases b.len(),
{
    if b.len() == 0 {
        assert(a + b =~= a);
    } else {
        assert((a + b).drop_last() =~= a + b.drop_last());
        assert((a + b).last() == b.last());
        lemma_parse_from_concat(st, a, b.drop_last());
    }
}

/// Some line of `ls` holds the directive `key`.
pub open spec fn lines_hold_key(ls: Seq<Seq<char>>, key: Seq<char>) -> bool {
    exists|i: int| 0 <= i < ls.len() && line_has_key(#[trigger] ls[i], key)
}

/// Lines that read back as themselves and start no block.
pub open spec fn plain_lines(ls: Seq<Seq<char>>) -> bool {
    forall|i: int|
        0 <= i < ls.len() ==> is_clean_line(#[trigger] ls[i]) && !line_has_key(ls[i], "host"@)
}

proof fn lemma_parse_plain_lines(st: ParseState, ls: Seq<Seq<char>>)
    requires
        plain_lines(ls),
    ensures
        parse_from(st, ls) == (match st.current {
            Some(h) => ParseState {
                prefix: st.prefix,
                hosts: st.hosts,
                current: Some(HostView { names: h.names, body: h.body + ls }),
                contains_match: st.contains_match || lines_hold_key(ls, "match"@),
            },
            None => ParseState {
                prefix: st.prefix + ls,
                hosts: st.hosts,
                current: None,
                contains_match: st.contains_match || lines_hold_key(ls, "match"@),
            },
        }),
    decreases ls.len(),
{
    if ls.len() == 0 {
        assert(st.prefix + ls =~= st.prefix);
        if let Some(h) = st.current {
            assert(h.body + ls =~= h.body);
        }
    } else {
        let prev = ls.drop_last();
        assert forall|i: int| 0 <= i < prev.len() implies is_clean_line(#[trigger] prev[i])
            && !line_has_key(prev[i], "host"@) by {
            assert(prev[i] == ls[i]);
        }
        lemma_parse_plain_lines(st, prev);
        assert(!line_has_key(ls[ls.len() - 1], "host"@));
        assert(lines_hold_key(ls, "match"@) == (lines_hold_key(prev, "match"@) || line_has_key(
            ls.last(),
            "match"@,
        ))) by {
            if lines_hold_key(ls, "match"@) {
                let i = choose|i: int| 0 <= i < ls.len() && line_has_key(#[trigger] ls[i], "match"@);
                if i < prev.len() {
                    assert(prev[i] == ls[i]);
                }
            }
            if lines_hold_key(prev, "match"@) {
                let i = choose|i: int|
                    0 <= i < prev.len() && line_has_key(#[trigger] prev[i], "match"@);
                assert(prev[i] == ls[i]);
            }
        }
        if let Some(h) = st.current {
            assert((h.body + prev).push(ls.last()) =~= h.body + ls);
        } else {
            assert((st.prefix + prev).push(ls.last()) =~= st.prefix + ls);
        }
    }
}

/// The header written for a block reads back as a `Host` directive whose
/// value is the trimmed names, when, trimmed, they do not start with `=`.
pub proof fn lemma_header_directive(h: HostView)
    requires
        !starts_with_equals(trim(h.names)),
    ensures
        directive_of(header_line(h)) == Some(("Host"@, trim(h.names))),
        line_has_key(header_line(h), "host"@),
        !line_has_key(header_line(h), "match"@),
{
    reveal_strlit("Host ");
    reveal_strlit("Host");
    reveal_strlit("host");
    reveal_strlit("match");
    let t = trim(h.names);
    let line = header_line(h);
    lemma_trim_ends(h.names);
    lemma_trim_idempotent(h.names);
    lemma_leading_ws_is(line, 0);
    assert(line.skip(0) =~= line);
    let pk = |c: char| is_key_char(c);
    if t.len() > 0 {
        assert(line.last() == t.last());
        lemma_trailing_ws_is(line, 0);
        assert(trim(line) =~= line);
        assert(line[4] == ' ');
        lemma_span_is(line, pk, 4);
        assert(line.take(4) =~= "Host"@);
        let w = line.skip(4);
        assert(w =~= seq![' '] + t);
        assert(w[1] == t[0]);
        lemma_leading_ws_is(w, 1);
        assert(trim_start(w) =~= t);
        lemma_trailing_ws_is(t, 0);
        assert(trim(w) =~= t);
    } else {
        assert(line =~= "Host "@);
        lemma_trailing_ws_is(line, 1);
        let u = trim(line);
        assert(u =~= "Host"@);
        lemma_span_is(u, pk, 4);
        assert(u.take(4) =~= u);
        assert(u.skip(4) =~= Seq::<char>::empty());
        let e = u.skip(4);
        assert(trim_start(e) =~= e);
        assert(trim(e) =~= e);
    }
}

proof fn lemma_lines_text_shape(ls: Seq<Seq<char>>)
    ensures
        lines_text(ls).len() >= ls.len(),
        ls.len() > 0 ==> lines_text(ls).last() == '\n',
    decreases ls.len(),
{
    if ls.len() > 0 {
        lemma_lines_text_shape(ls.drop_last());
    }
}

/// The text of clean lines ends with an empty line exactly when there are
/// at least two lines and the last is empty.
proof fn lemma_blank_end(ls: Seq<Seq<char>>)
    requires
        all_clean(ls),
    ensures
        ends_with_blank_line(lines_text(ls)) <==> (ls.len() >= 2 && ls.last().len() == 0),
        lines_text(ls).len() > 0 <==> ls.len() > 0,
{
    lemma_lines_text_shape(ls);
    if ls.len() > 0 {
        let prev = ls.drop_last();
        let l = ls.last();
        let t = lines_text(ls);
        lemma_lines_text_shape(prev);
        assert(t == lines_text(prev) + l + seq!['\n']);
        assert(is_clean_line(ls[ls.len() - 1]));
        if l.len() > 0 {
            assert(t[t.len() - 2] == l.last());
            assert(l.contains(l[l.len() - 1]));
        } else if prev.len() > 0 {
            assert(t[t.len() - 2] == lines_text(prev).last());
        } else {
            assert(lines_text(prev).len() == 0);
        }
    } else {
        assert(lines_text(ls).len() == 0);
    }
}

/// The trimmed text holds no character that the text does not hold.
proof fn lemma_trim_within(s: Seq<char>, c: char)
    requires
        !s.contains(c),
    ensures
        !trim(s).contains(c),
{
    lemma_leading_ws_bounds(s);
    crate::text::lemma_trailing_ws_bounds(trim_start(s));
    if trim(s).contains(c) {
        let i = choose|i: int| 0 <= i < trim(s).len() && trim(s)[i] == c;
        assert(trim(s)[i] == trim_start(s)[i]);
        assert(trim_start(s)[i] == s[i + crate::text::leading_ws(s)]);
    }
}

/// A document that reads back as written: its global and block lines are
/// clean and start no block, and the names of its blocks hold no line feed
/// and, trimmed, do not start with `=`.
pub open spec fn is_writable(d: DocView) -> bool {
    plain_lines(d.prefix) && writable_hosts(d.hosts)
}

/// Blocks that read back as written.
pub open spec fn writable_hosts(hosts: Seq<HostView>) -> bool {
    forall|i: int|
        0 <= i < hosts.len() ==> plain_lines((#[trigger] hosts[i]).body) && !hosts[i].names.contains(
            '\n',
        ) && !starts_with_equals(trim(hosts[i].names))
}

proof fn lemma_header_clean(h: HostView)
    requires
        !h.names.contains('\n'),
    ensures
        is_clean_line(header_line(h)),
{
    reveal_strlit("Host ");
    let t = trim(h.names);
    lemma_trim_within(h.names, '\n');
    lemma_trim_ends(h.names);
    let line = header_line(h);
    if line.contains('\n') {
        let i = choose|i: int| 0 <= i < line.len() && line[i] == '\n';
        if i >= 5 {
            assert(t[i - 5] == '\n');
        }
    }
    if t.len() > 0 {
        assert(line.last() == t.last());
    }
}

proof fn lemma_plain_concat(a: Seq<Seq<char>>, b: Seq<Seq<char>>)
    requires
        all_clean(a),
        all_clean(b),
    ensures
        all_clean(a + b),
{
    assert forall|i: int| 0 <= i < (a + b).len() implies is_clean_line(#[trigger] (a + b)[i]) by {
        if i < a.len() {
            assert((a + b)[i] == a[i]);
        } else {
            assert((a + b)[i] == b[i - a.len()]);
        }
    }
}

proof fn lemma_written_clean(prefix: Seq<Seq<char>>, hosts: Seq<HostView>)
    requires
        plain_lines(prefix),
        forall|i: int|
            0 <= i < hosts.len() ==> plain_lines((#[trigger] hosts[i]).body) && !hosts[i].names.contains(
                '\n',
            ),
    ensures
        all_clean(written_lines(prefix, hosts)),
    decreases hosts.len(),
{
    if hosts.len() > 0 {
        let hs = hosts.drop_last();
        assert forall|i: int| 0 <= i < hs.len() implies plain_lines((#[trigger] hs[i]).body)
            && !hs[i].names.contains('\n') by {
            assert(hs[i] == hosts[i]);
        }
        lemma_written_clean(prefix, hs);
        let f = written_lines(prefix, hs);
        let h = hosts.last();
        assert(plain_lines(hosts[hosts.len() - 1].body));
        lemma_header_clean(h);
        let sep = separator_lines(f);
        assert(all_clean(sep)) by {
            if sep.len() > 0 {
                assert(sep[0] =~= Seq::<char>::empty());
            }
        }
        lemma_plain_concat(f, sep);
        let hdr = seq![header_line(h)];
        assert(all_clean(hdr)) by {
            assert forall|i: int| 0 <= i < hdr.len() implies is_clean_line(#[trigger] hdr[i]) by {
                assert(hdr[i] == header_line(h));
            }
        }
        lemma_plain_concat(f + sep, hdr);
        lemma_plain_concat(f + sep + hdr, h.body);
    }
}

/// The global lines as read back: one empty line more, unless there are
/// none or they already end with an empty line after another line.
pub open spec fn padded_prefix(p: Seq<Seq<char>>) -> Seq<Seq<char>> {
    if p.len() == 0 || (p.len() >= 2 && p.last().len() == 0) {
        p
    } else {
        p.push(seq![])
    }
}

/// The lines of a block that another block follows, as read back: one
/// empty line more, unless they already end with an empty line.
pub open spec fn padded_body(b: Seq<Seq<char>>) -> Seq<Seq<char>> {
    if b.len() > 0 && b.last().len() == 0 {
        b
    } else {
        b.push(seq![])
    }
}

/// A block as read back: its names trimmed; its lines padded unless it is
/// the last block.
pub open spec fn reread_host(h: HostView, last: bool) -> HostView {
    HostView { names: trim(h.names), body: if last { h.body } else { padded_body(h.body) } }
}

/// A `Match` directive occurs among the global lines or the lines of the
/// blocks.
pub open spec fn match_in(prefix: Seq<Seq<char>>, hosts: Seq<HostView>) -> bool {
    ||| lines_hold_key(prefix, "match"@)
    ||| exists|i: int| 0 <= i < hosts.len() && lines_hold_key(#[trigger] hosts[i].body, "match"@)
}

/// What reading the written text of a document gives.
pub open spec fn reread_document(d: DocView) -> DocView {
    let n = d.hosts.len();
    DocView {
        prefix: if n == 0 { d.prefix } else { padded_prefix(d.prefix) },
        hosts: Seq::new(n, |i: int| reread_host(d.hosts[i], i == n - 1)),
        contains_match: match_in(d.prefix, d.hosts),
    }
}

/// The state after reading the written lines of the first `k` blocks.
pub open spec fn state_after(prefix: Seq<Seq<char>>, hosts: Seq<HostView>, k: int) -> ParseState {
    ParseState {
        prefix: padded_prefix(prefix),
        hosts: Seq::new((k - 1) as nat, |i: int| reread_host(hosts[i], false)),
        current: Some(HostView { names: trim(hosts[k - 1].names), body: hosts[k - 1].body }),
        contains_match: match_in(prefix, hosts.take(k)),
    }
}

proof fn lemma_separator_plain(sep: Seq<Seq<char>>)
    requires
        sep.len() == 0 || sep =~= seq![Seq::<char>::empty()],
    ensures
        plain_lines(sep),
        !lines_hold_key(sep, "match"@),
{
    if sep.len() > 0 {
        let e = Seq::<char>::empty();
        assert(sep[0] == e);
        assert(trim_start(e) =~= e);
        assert(trim(e) =~= e);
        assert(directive_of(e) is None);
    }
}

proof fn lemma_match_in_step(prefix: Seq<Seq<char>>, hosts: Seq<HostView>, k: int)
    requires
        0 <= k < hosts.len(),
    ensures
        match_in(prefix, hosts.take(k + 1)) == (match_in(prefix, hosts.take(k)) || lines_hold_key(
            hosts[k].body,
            "match"@,
        )),
{
    let a = hosts.take(k);
    let b = hosts.take(k + 1);
    if match_in(prefix, b) && !lines_hold_key(prefix, "match"@) {
        let i = choose|i: int| 0 <= i < b.len() && lines_hold_key(#[trigger] b[i].body, "match"@);
        if i < k {
            assert(a[i] == b[i]);
        }
    }
    if match_in(prefix, a) && !lines_hold_key(prefix, "match"@) {
        let i = choose|i: int| 0 <= i < a.len() && lines_hold_key(#[trigger] a[i].body, "match"@);
        assert(a[i] == b[i]);
    }
    if lines_hold_key(hosts[k].body, "match"@) {
        assert(b[k] == hosts[k]);
    }
}

proof fn lemma_parse_written(prefix: Seq<Seq<char>>, hosts: Seq<HostView>, k: int)
    requires
        1 <= k <= hosts.len(),
        plain_lines(prefix),
        writable_hosts(hosts),
    ensures
        parse_from(parse_start(), written_lines(prefix, hosts.take(k))) == state_after(
            prefix,
            hosts,
            k,
        ),
    decreases k,
{
    let hk = hosts.take(k);
    assert(hk.drop_last() =~= hosts.take(k - 1));
    assert(hk.last() == hosts[k - 1]);
    let h = hosts[k - 1];
    assert(plain_lines(h.body) && !h.names.contains('\n') && !starts_with_equals(trim(h.names)));
    let f = written_lines(prefix, hosts.take(k - 1));
    let sep = separator_lines(f);
    let hdr = seq![header_line(h)];
    assert(written_lines(prefix, hk) == f + sep + hdr + h.body);
    lemma_parse_from_concat(parse_start(), f + sep + hdr, h.body);
    lemma_parse_from_concat(parse_start(), f + sep, hdr);
    lemma_parse_from_concat(parse_start(), f, sep);
    lemma_separator_plain(sep);
    lemma_header_directive(h);
    assert forall|i: int| 0 <= i < hosts.take(k - 1).len() implies plain_lines(
        (#[trigger] hosts.take(k - 1)[i]).body,
    ) && !hosts.take(k - 1)[i].names.contains('\n') by {
        assert(hosts.take(k - 1)[i] == hosts[i]);
    }
    lemma_written_clean(prefix, hosts.take(k - 1));
    lemma_blank_end(f);
    assert(hdr.drop_last() =~= Seq::<Seq<char>>::empty());
    assert(hdr.last() == header_line(h));
    let st0 = parse_from(parse_start(), f);
    let st1 = parse_from(parse_start(), f + sep);
    let st2 = parse_from(parse_start(), f + sep + hdr);
    assert(parse_from(st1, hdr.drop_last()) == st1);
    assert(parse_from(st1, hdr) == parse_step(st1, header_line(h)));
    if k == 1 {
        assert(hosts.take(0) =~= Seq::<HostView>::empty());
        assert(f == prefix);
        lemma_parse_lines_from(prefix);
        lemma_parse_plain_lines(parse_start(), prefix);
        assert(Seq::<Seq<char>>::empty() + prefix =~= prefix);
        lemma_parse_plain_lines(st0, sep);
        assert(prefix + sep =~= padded_prefix(prefix)) by {
            if sep.len() == 0 {
                assert(prefix + sep =~= prefix);
            }
        }
        lemma_parse_plain_lines(st2, h.body);
        assert(Seq::<Seq<char>>::empty() + h.body =~= h.body);
        assert(!match_in(prefix, hosts.take(0)) || lines_hold_key(prefix, "match"@));
        lemma_match_in_step(prefix, hosts, 0);
        let s = parse_from(parse_start(), written_lines(prefix, hk));
        let e = state_after(prefix, hosts, k);
        assert(s.hosts =~= e.hosts);
    } else {
        lemma_parse_written(prefix, hosts, k - 1);
        let g = hosts[k - 2];
        let ft = written_lines(prefix, hosts.take(k - 2));
        assert(hosts.take(k - 1).drop_last() =~= hosts.take(k - 2));
        assert(hosts.take(k - 1).last() == g);
        let fpre = ft + separator_lines(ft) + seq![header_line(g)];
        assert(f == fpre + g.body);
        assert(plain_lines(g.body));
        assert(f.len() >= 1);
        if g.body.len() > 0 {
            assert(f.last() == g.body.last());
            assert(f.len() >= 2);
        } else {
            assert(f =~= fpre);
            assert(f.last() == header_line(g));
            reveal_strlit("Host ");
            assert(f.last().len() > 0);
        }
        assert(st0.current == Some(HostView { names: trim(g.names), body: g.body }));
        lemma_parse_plain_lines(st0, sep);
        assert(g.body + sep =~= padded_body(g.body)) by {
            if sep.len() == 0 {
                assert(g.body + sep =~= g.body);
            }
        }
        lemma_parse_plain_lines(st2, h.body);
        assert(Seq::<Seq<char>>::empty() + h.body =~= h.body);
        lemma_match_in_step(prefix, hosts, k - 1);
        let s = parse_from(parse_start(), written_lines(prefix, hk));
        let e = state_after(prefix, hosts, k);
        assert(s.hosts =~= e.hosts);
    }
}

/// Read after write: reading the text written for a document gives back its
/// global lines and its blocks in order, with the names trimmed and with
/// the single empty line written between blocks now ending the lines before
/// it (none is added where those lines already end with one). This holds
/// for documents whose lines are clean and start no block, and whose names
/// hold no line feed and, trimmed, do not start with `=`.
pub proof fn law_read_after_write(d: DocView)
    requires
        is_writable(d),
    ensures
        parsed_document(document_text(d)) == reread_document(d),
{
    let p = d.prefix;
    let hs = d.hosts;
    let n = hs.len();
    lemma_text_is_written_lines(p, hs);
    lemma_written_clean(p, hs);
    lemma_lines_of_lines_text(written_lines(p, hs));
    lemma_parse_lines_from(written_lines(p, hs));
    let r = parsed_document(document_text(d));
    let e = reread_document(d);
    if n == 0 {
        lemma_parse_plain_lines(parse_start(), p);
        assert(Seq::<Seq<char>>::empty() + p =~= p);
        assert(r.hosts =~= e.hosts);
        assert(match_in(p, hs) == lines_hold_key(p, "match"@));
    } else {
        assert(hs.take(n as int) =~= hs);
        lemma_parse_written(p, hs, n as int);
        assert(r.hosts =~= e.hosts);
    }
}

/// The separator written after a block's header and lines: none when the
/// lines already end with an empty line, else one empty line.
proof fn lemma_separator_after_block(x: Seq<Seq<char>>, hdr: Seq<char>, b: Seq<Seq<char>>)
    requires
        all_clean(x + seq![hdr] + b),
        hdr.len() > 0,
    ensures
        separator_lines(x + seq![hdr] + b) == if b.len() > 0 && b.last().len() == 0 {
            Seq::<Seq<char>>::empty()
        } else {
            seq![Seq::<char>::empty()]
        },
{
    let w = x + seq![hdr] + b;
    lemma_blank_end(w);
    if b.len() > 0 {
        assert(w.last() == b.last());
        assert(w.len() >= 2);
    } else {
        assert(w =~= x + seq![hdr]);
        assert(w.last() == hdr);
    }
}

/// The separator after global lines: the padding `padded_prefix` adds.
proof fn lemma_prefix_separator(p: Seq<Seq<char>>)
    requires
        all_clean(p),
    ensures
        p + separator_lines(p) == padded_prefix(p),
{
    lemma_blank_end(p);
    if separator_lines(p).len() == 0 {
        assert(p + separator_lines(p) =~= p);
    }
}

proof fn lemma_plain_is_clean(ls: Seq<Seq<char>>)
    requires
        plain_lines(ls),
    ensures
        all_clean(ls),
{
    assert forall|i: int| 0 <= i < ls.len() implies is_clean_line(#[trigger] ls[i]) by {
        assert(is_clean_line(ls[i]) && !line_has_key(ls[i], "host"@));
    }
}

proof fn lemma_rewritten_lines(prefix: Seq<Seq<char>>, hosts: Seq<HostView>, k: int)
    requires
        0 <= k <= hosts.len(),
        hosts.len() > 0,
        plain_lines(prefix),
        writable_hosts(hosts),
    ensures
        ({
            let n = hosts.len() as int;
            let rh = Seq::new(n as nat, |i: int| reread_host(hosts[i], i == n - 1));
            let w = written_lines(prefix, hosts.take(k));
            written_lines(padded_prefix(prefix), rh.take(k)) == if k < n {
                w + separator_lines(w)
            } else {
                w
            }
        }),
    decreases k,
{
    let n = hosts.len() as int;
    let rh = Seq::new(n as nat, |i: int| reread_host(hosts[i], i == n - 1));
    lemma_plain_is_clean(prefix);
    if k == 0 {
        assert(hosts.take(0) =~= Seq::<HostView>::empty());
        assert(rh.take(0) =~= Seq::<HostView>::empty());
        lemma_prefix_separator(prefix);
    } else {
        lemma_rewritten_lines(prefix, hosts, k - 1);
        let h = hosts[k - 1];
        assert(plain_lines(h.body) && !h.names.contains('\n') && !starts_with_equals(trim(h.names)));
        let w0 = written_lines(prefix, hosts.take(k - 1));
        let w1 = written_lines(prefix, hosts.take(k));
        assert(hosts.take(k).drop_last() =~= hosts.take(k - 1));
        assert(hosts.take(k).last() == h);
        assert(rh.take(k).drop_last() =~= rh.take(k - 1));
        assert(rh.take(k).last() == rh[k - 1]);
        assert(forall|i: int| 0 <= i < hosts.take(k - 1).len() ==> #[trigger] hosts.take(k - 1)[i] == hosts[i]);
        assert(forall|i: int| 0 <= i < hosts.take(k).len() ==> #[trigger] hosts.take(k)[i] == hosts[i]);
        lemma_written_clean(prefix, hosts.take(k - 1));
        lemma_written_clean(prefix, hosts.take(k));
        let s0 = separator_lines(w0);
        let f = w0 + s0;
        // After the padding, no further separator is written.
        lemma_blank_end(w0);
        assert(separator_lines(f) =~= Seq::<Seq<char>>::empty()) by {
            if s0.len() > 0 {
                assert(s0[0] =~= Seq::<char>::empty());
                lemma_separator_plain(s0);
                lemma_plain_is_clean(s0);
                lemma_plain_concat(w0, s0);
                lemma_blank_end(f);
                assert(f.last() == s0[0]);
            } else {
                assert(f =~= w0);
            }
        }
        crate::text::lemma_trim_idempotent(h.names);
        assert(header_line(rh[k - 1]) == header_line(h));
        lemma_header_clean(h);
        reveal_strlit("Host ");
        assert(header_line(h).len() > 0);
        assert(w1 == w0 + s0 + seq![header_line(h)] + h.body);
        let lhs = written_lines(padded_prefix(prefix), rh.take(k));
        assert(lhs == f + separator_lines(f) + seq![header_line(rh[k - 1])] + rh[k - 1].body);
        assert(f + separator_lines(f) =~= f);
        if k < n {
            assert(rh[k - 1].body == padded_body(h.body));
            assert(w1 =~= (w0 + s0) + seq![header_line(h)] + h.body);
            lemma_separator_after_block(w0 + s0, header_line(h), h.body);
            assert(lhs =~= w1 + separator_lines(w1));
        } else {
            assert(rh[k - 1].body == h.body);
            assert(lhs =~= w1);
        }
    }
}

/// Writing what was read back from a written document gives the same text
/// again: saving a reopened file without edits changes nothing. This holds
/// for the documents that `law_read_after_write` covers.
pub proof fn law_write_after_read_is_stable(d: DocView)
    requires
        is_writable(d),
    ensures
        document_text(reread_document(d)) == document_text(d),
{
    let n = d.hosts.len();
    let r = reread_document(d);
    lemma_text_is_written_lines(d.prefix, d.hosts);
    lemma_text_is_written_lines(r.prefix, r.hosts);
    if n > 0 {
        lemma_rewritten_lines(d.prefix, d.hosts, n as int);
        assert(d.hosts.take(n as int) =~= d.hosts);
        let rh = Seq::new(n, |i: int| reread_host(d.hosts[i], i == n - 1));
        assert(rh.take(n as int) =~= rh);
        assert(r.hosts == rh);
    }
}

} // verus!
