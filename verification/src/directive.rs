//! Lines of a configuration text and the `Key value` / `Key=value`
//! directives they hold.
use vstd::prelude::*;
use crate::text::{chars_of, is_whitespace, is_ws, string_from_chars, trim, trim_range};

verus! {

/// Number of leading characters of `s` that satisfy `p`.
pub open spec fn span(s: Seq<char>, p: spec_fn(char) -> bool) -> nat
    decreases s.len(),
{
    if s.len() > 0 && p(s[0]) {
        1 + span(s.drop_first(), p)
    } else {
        0
    }
}

pub proof fn lemma_span_is(s: Seq<char>, p: spec_fn(char) -> bool, k: int)
    requires
        0 <= k <= s.len(),
        forall|j: int| 0 <= j < k ==> p(#[trigger] s[j]),
        k < s.len() ==> !p(s[k]),
    ensures
        span(s, p) == k,
    decreases s.len(),
{
    if k > 0 {
        assert(p(s[0]));
        assert forall|j: int| 0 <= j < k - 1 implies p(#[trigger] s.drop_first()[j]) by {
            assert(s.drop_first()[j] == s[j + 1]);
        }
        lemma_span_is(s.drop_first(), p, k - 1);
    }
}

/// A character that can stand in a directive key: neither whitespace nor `=`.
pub open spec fn is_key_char(c: char) -> bool {
    !is_ws(c) && c != '='
}

/// The text starts with an `=` sign.
pub open spec fn starts_with_equals(s: Seq<char>) -> bool {
    s.len() > 0 && s[0] == '='
}

/// The text without one leading `=` sign.
pub open spec fn drop_equals(s: Seq<char>) -> Seq<char> {
    if starts_with_equals(s) {
        s.drop_first()
    } else {
        s
    }
}

/// The directive a line holds, as `(key, value)`, for the syntaxes
/// `Key value` and `Key=value`: `None` for a blank line or a comment;
/// otherwise the key is the first word, ended by whitespace or `=`, and the
/// value is the rest, trimmed, without one leading `=`, trimmed again.
pub open spec fn directive_of(line: Seq<char>) -> Option<(Seq<char>, Seq<char>)> {
    let t = trim(line);
    if t.len() == 0 || t[0] == '#' {
        None
    } else {
        let k = span(t, |c: char| is_key_char(c)) as int;
        Some((t.take(k), trim(drop_equals(trim(t.skip(k))))))
    }
}

/// First index at or after `from` (and before `to`) of a character of `cs`
/// that cannot stand in a key, or `to`.
fn find_key_end(cs: &Vec<char>, from: usize, to: usize) -> (r: usize)
    requires
        from <= to <= cs@.len(),
    ensures
        from <= r <= to,
        r - from == span(cs@.subrange(from as int, to as int), |x: char| is_key_char(x)),
{
    let ghost s = cs@.subrange(from as int, to as int);
    let mut i = from;
    while i < to && !is_whitespace(cs[i]) && cs[i] != '='
        invariant
            from <= i <= to <= cs@.len(),
            forall|j: int| from <= j < i ==> is_key_char(#[trigger] cs@[j]),
        decreases to - i,
    {
        i = i + 1;
    }
    proof {
        let p = |x: char| is_key_char(x);
        assert forall|j: int| 0 <= j < i - from implies p(#[trigger] s[j]) by {
            assert(s[j] == cs@[j + from]);
        }
        if i < to {
            assert(s[i - from] == cs@[i as int]);
        }
        lemma_span_is(s, p, i - from);
    }
    i
}

/// Returns `(key, value)` for the syntaxes `User ubuntu` and `User=ubuntu`;
/// `None` for blank lines and comments.
pub fn split_directive(line: &str) -> (r: Option<(&str, &str)>)
    ensures
        match r {
            Some((k, v)) => directive_of(line@) == Some((k@, v@)),
            None => directive_of(line@) is None,
        },
{
    let cs = chars_of(line);
    let n = cs.len();
    let (a, b) = trim_range(&cs, 0, n);
    let ghost t = trim(line@);
    proof {
        assert(cs@.subrange(0, n as int) =~= line@);
    }
    if a == b || cs[a] == '#' {
        return None;
    }
    let k = find_key_end(&cs, a, b);
    let (ra, rb) = trim_range(&cs, k, b);
    proof {
        assert(t =~= cs@.subrange(a as int, b as int));
        assert(t.take(k - a) =~= cs@.subrange(a as int, k as int));
        assert(t.skip(k - a) =~= cs@.subrange(k as int, b as int));
    }
    let ghost rest = cs@.subrange(ra as int, rb as int);
    let (va, vb) = if ra < rb && cs[ra] == '=' {
        let r = trim_range(&cs, ra + 1, rb);
        proof {
            assert(drop_equals(rest) =~= cs@.subrange(ra + 1, rb as int));
        }
        r
    } else {
        proof {
            crate::text::lemma_trim_idempotent(cs@.subrange(k as int, b as int));
            assert(drop_equals(rest) == rest);
        }
        (ra, rb)
    };
    let key = line.substring_char(a, k);
    let value = line.substring_char(va, vb);
    Some((key, value))
}

/// A line without one trailing carriage return.
pub open spec fn strip_cr(l: Seq<char>) -> Seq<char> {
    if l.len() > 0 && l.last() == '\r' {
        l.drop_last()
    } else {
        l
    }
}

/// Reading `s` from the start: the lines ended by a line feed so far, and
/// the characters of the line not yet ended.
pub open spec fn line_scan(s: Seq<char>) -> (Seq<Seq<char>>, Seq<char>)
    decreases s.len(),
{
    if s.len() == 0 {
        (seq![], seq![])
    } else {
        let (done, cur) = line_scan(s.drop_last());
        if s.last() == '\n' {
            (done.push(strip_cr(cur)), seq![])
        } else {
            (done, cur.push(s.last()))
        }
    }
}

/// The lines of a text, as `str::lines` gives them: split at `\n` or
/// `\r\n`, without the terminators; a final line feed ends the last line
/// and starts no new one.
pub open spec fn text_lines(s: Seq<char>) -> Seq<Seq<char>> {
    let (done, cur) = line_scan(s);
    if cur.len() == 0 {
        done
    } else {
        done.push(cur)
    }
}

/// The texts that a sequence of strings holds.
pub open spec fn texts(v: Seq<String>) -> Seq<Seq<char>> {
    v.map_values(|x: String| x@)
}

/// `str::lines`, collected.
pub fn split_lines(content: &str) -> (r: Vec<String>)
    ensures
        texts(r@) == text_lines(content@),
{
    let cs = chars_of(content);
    let n = cs.len();
    let mut out: Vec<String> = Vec::new();
    let mut start: usize = 0;
    let mut i: usize = 0;
    while i < n
        invariant
            cs@ == content@,
            n == cs@.len(),
            start <= i <= n,
            line_scan(cs@.take(i as int)) == (texts(out@), cs@.subrange(start as int, i as int)),
        decreases n - i,
    {
        proof {
            assert(cs@.take(i + 1).drop_last() =~= cs@.take(i as int));
            assert(cs@.take(i + 1).last() == cs@[i as int]);
        }
        if cs[i] == '\n' {
            let mut end = i;
            if end > start && cs[end - 1] == '\r' {
                end = end - 1;
            }
            let line = string_from_chars(&cs, start, end);
            let ghost old_out = out@;
            out.push(line);
            proof {
                let cur = cs@.subrange(start as int, i as int);
                assert(strip_cr(cur) =~= cs@.subrange(start as int, end as int));
                assert(texts(out@) =~= texts(old_out).push(line@));
            }
            start = i + 1;
            assert(cs@.subrange(start as int, i + 1) =~= Seq::<char>::empty());
        } else {
            assert(cs@.subrange(start as int, i + 1) =~= cs@.subrange(start as int, i as int).push(
                cs@[i as int],
            ));
        }
        i = i + 1;
    }
    assert(cs@.take(n as int) =~= content@);
    if start < n {
        let line = string_from_chars(&cs, start, n);
        let ghost old_out = out@;
        out.push(line);
        assert(texts(out@) =~= texts(old_out).push(line@));
    }
    out
}

} // verus!
