//! The inline transformer: rewrites the remaining characters of the
//! current line, recognising raw code spans, links, emphasis spans,
//! anchors, escapes and horizontal rules, and a trailing hard line break.
use vstd::prelude::*;

use crate::classify::is_ws;
use crate::classify::is_ws_char;
use crate::classify::Pred;
use crate::lexer::append_chars;
use crate::lexer::consume_result;
use crate::lexer::lemma_consume_bounds;
use crate::lexer::spec_consume;
use crate::lexer::spec_expect;
use crate::lexer::str_to_chars;
use crate::lexer::Error;
use crate::lexer::Lexer;

verus! {

/// The fragment a link emits.
pub open spec fn link_frag(target: Seq<char>, text: Seq<char>) -> Seq<char> {
    "<a href=\""@ + target + "\">"@ + text + "</a>"@
}

/// The fragment an emphasis span emits: the delimiter picks the tag.
pub open spec fn wrap_frag(c: char, e: Seq<char>) -> Seq<char> {
    if c == '*' {
        "<strong>"@ + e + "</strong>"@
    } else if c == '~' {
        "<em>"@ + e + "</em>"@
    } else {
        "<u>"@ + e + "</u>"@
    }
}

/// The fragment a named anchor emits.
pub open spec fn anchor_frag(a: Seq<char>) -> Seq<char> {
    "<a name=\""@ + a + "\"></a>"@
}

/// A backtick seen outside an escape: the literal text up to the next
/// backtick (or the line's end) is appended as it stands.
pub open spec fn step_tick(line: Seq<char>, j: int, out: Seq<char>) -> (int, Seq<char>) {
    let (ni, acc) = spec_consume(line, j, false, Seq::empty(), Pred::NotChar('`'));
    match consume_result(acc) {
        Some(t) => (ni, out + t),
        None => (ni, out),
    }
}

/// A `[`: link text up to `]`, then `](`, the target up to `)`, and `)`.
/// A scan that matches nothing drops the link silently, leaving the rest
/// of the line to the ordinary character loop; a missing mandatory
/// character is a failure at its column.
pub open spec fn step_link(line: Seq<char>, j: int, out: Seq<char>) -> Result<
    (int, Seq<char>),
    (char, int),
> {
    let (ni, acc) = spec_consume(line, j, false, Seq::empty(), Pred::NotChar(']'));
    match consume_result(acc) {
        None => Ok((ni, out)),
        Some(lt) => match spec_expect(line, ni, ']') {
            Ok(n2) => match spec_expect(line, n2, '(') {
                Ok(n3) => {
                    let (n4, acc2) = spec_consume(line, n3, false, Seq::empty(), Pred::NotChar(')'));
                    match consume_result(acc2) {
                        None => Ok((n4, out)),
                        Some(tg) => match spec_expect(line, n4, ')') {
                            Ok(n5) => Ok((n5, out + link_frag(tg, lt))),
                            Err(ec) => Err((')', ec)),
                        },
                    }
                },
                Err(ec) => Err(('(', ec)),
            },
            Err(ec) => Err((']', ec)),
        },
    }
}

/// A delimiter (`*`, `~` or `_`) not followed by white space: the span up
/// to the matching delimiter is wrapped (an empty span emits nothing),
/// and the closing delimiter is mandatory.
pub open spec fn step_delim(line: Seq<char>, j: int, c: char, out: Seq<char>) -> Result<
    (int, Seq<char>),
    (char, int),
> {
    let (ni, acc) = spec_consume(line, j, false, Seq::empty(), Pred::NotChar(c));
    let emitted = match consume_result(acc) {
        Some(e) => wrap_frag(c, e),
        None => Seq::<char>::empty(),
    };
    match spec_expect(line, ni, c) {
        Ok(n2) => Ok((n2, out + emitted)),
        Err(ec) => Err((c, ec)),
    }
}

/// A `{`: the anchor name up to `}`, with the `}` mandatory once the
/// scan yields text.
pub open spec fn step_anchor(line: Seq<char>, j: int, out: Seq<char>) -> Result<
    (int, Seq<char>),
    (char, int),
> {
    let (ni, acc) = spec_consume(line, j, false, Seq::empty(), Pred::NotChar('}'));
    match consume_result(acc) {
        None => Ok((ni, out)),
        Some(a) => match spec_expect(line, ni, '}') {
            Ok(n2) => Ok((n2, out + anchor_frag(a))),
            Err(ec) => Err(('}', ec)),
        },
    }
}

/// An `=`: the whole run of `=` (the initiating character included)
/// decides between a horizontal rule (two or more) and a lone `=` kept
/// literally.
pub open spec fn step_eq(line: Seq<char>, j: int, out: Seq<char>) -> (int, Seq<char>) {
    let (ni, acc) = spec_consume(line, j, false, Seq::empty(), Pred::IsChar('='));
    match consume_result(acc) {
        None => (ni, out.push('=')),
        Some(_hr) => (ni, out + "<hr>"@),
    }
}

pub proof fn lemma_step_tick_bounds(line: Seq<char>, j: int, out: Seq<char>)
    requires
        0 <= j <= line.len(),
    ensures
        j <= step_tick(line, j, out).0 <= line.len(),
{
    lemma_consume_bounds(line, j, false, Seq::empty(), Pred::NotChar('`'));
}

pub proof fn lemma_step_link_bounds(line: Seq<char>, j: int, out: Seq<char>)
    requires
        0 <= j <= line.len(),
    ensures
        step_link(line, j, out) matches Ok(r) ==> j <= r.0 <= line.len(),
{
    lemma_consume_bounds(line, j, false, Seq::empty(), Pred::NotChar(']'));
    let (ni, acc) = spec_consume(line, j, false, Seq::empty(), Pred::NotChar(']'));
    if ni + 2 <= line.len() {
        lemma_consume_bounds(line, ni + 2, false, Seq::empty(), Pred::NotChar(')'));
    }
}

pub proof fn lemma_step_delim_bounds(line: Seq<char>, j: int, c: char, out: Seq<char>)
    requires
        0 <= j <= line.len(),
    ensures
        step_delim(line, j, c, out) matches Ok(r) ==> j <= r.0 <= line.len(),
{
    lemma_consume_bounds(line, j, false, Seq::empty(), Pred::NotChar(c));
}

pub proof fn lemma_step_anchor_bounds(line: Seq<char>, j: int, out: Seq<char>)
    requires
        0 <= j <= line.len(),
    ensures
        step_anchor(line, j, out) matches Ok(r) ==> j <= r.0 <= line.len(),
{
    lemma_consume_bounds(line, j, false, Seq::empty(), Pred::NotChar('}'));
}

pub proof fn lemma_step_eq_bounds(line: Seq<char>, j: int, out: Seq<char>)
    requires
        0 <= j <= line.len(),
    ensures
        j <= step_eq(line, j, out).0 <= line.len(),
{
    lemma_consume_bounds(line, j, false, Seq::empty(), Pred::IsChar('='));
}

/// One pass over the rest of the line, from position `i` with escape
/// state `escaped` and the fragment built so far `out`: the meaning of
/// the transformer's character loop.
pub open spec fn spec_transform_loop(line: Seq<char>, i: int, escaped: bool, out: Seq<char>) -> Result<
    Seq<char>,
    (char, int),
>
    decreases line.len() - i,
    via spec_transform_loop_decreases
{
    if i < 0 || i >= line.len() {
        Ok(out)
    } else {
        let c = line[i];
        let j = i + 1;
        if escaped {
            if c == '`' {
                spec_transform_loop(line, j, false, out)
            } else {
                spec_transform_loop(line, j, true, out.push(c))
            }
        } else if c == '`' {
            let (ni, o) = step_tick(line, j, out);
            spec_transform_loop(line, ni, true, o)
        } else if c == '[' {
            match step_link(line, j, out) {
                Ok((ni, o)) => spec_transform_loop(line, ni, false, o),
                Err(e) => Err(e),
            }
        } else if c == '*' || c == '~' || c == '_' {
            if j >= line.len() {
                spec_transform_loop(line, j, false, out.push(c))
            } else if is_ws_char(line[j]) {
                spec_transform_loop(line, j, false, out.push(c))
            } else {
                match step_delim(line, j, c, out) {
                    Ok((ni, o)) => spec_transform_loop(line, ni, false, o),
                    Err(e) => Err(e),
                }
            }
        } else if c == '{' {
            match step_anchor(line, j, out) {
                Ok((ni, o)) => spec_transform_loop(line, ni, false, o),
                Err(e) => Err(e),
            }
        } else if c == '\\' {
            if j < line.len() {
                spec_transform_loop(line, j + 1, false, out.push(line[j]))
            } else {
                spec_transform_loop(line, j, false, out)
            }
        } else if c == '=' {
            let (ni, o) = step_eq(line, j, out);
            spec_transform_loop(line, ni, false, o)
        } else {
            spec_transform_loop(line, j, false, out.push(c))
        }
    }
}

#[via_fn]
proof fn spec_transform_loop_decreases(line: Seq<char>, i: int, escaped: bool, out: Seq<char>) {
    if 0 <= i < line.len() {
        let j = i + 1;
        let c = line[i];
        lemma_step_tick_bounds(line, j, out);
        lemma_step_link_bounds(line, j, out);
        lemma_step_delim_bounds(line, j, c, out);
        lemma_step_anchor_bounds(line, j, out);
        lemma_step_eq_bounds(line, j, out);
    }
}

/// The hard-line-break rule: a fragment ending in exactly two spaces
/// loses them and gains a break tag.
pub open spec fn spec_br(out: Seq<char>) -> Seq<char> {
    if out.len() >= 2 && out[out.len() - 1] == ' ' && out[out.len() - 2] == ' ' {
        out.subrange(0, out.len() - 2) + "<br />"@
    } else {
        out
    }
}

/// What the transformer returns for the rest of `line` from position
/// `i`: the loop's fragment with the line-break rule applied, or the
/// position of a missing mandatory character.
pub open spec fn spec_transform(line: Seq<char>, i: int, escaped: bool) -> Result<
    Seq<char>,
    (char, int),
> {
    match spec_transform_loop(line, i, escaped, Seq::empty()) {
        Ok(o) => Ok(spec_br(o)),
        Err(e) => Err(e),
    }
}

/// Builds a link fragment.
fn build_link(target: &Vec<char>, text: &Vec<char>) -> (v: Vec<char>)
    ensures
        v@ == link_frag(target@, text@),
{
    let mut v = str_to_chars("<a href=\"");
    append_chars(&mut v, target);
    let m = str_to_chars("\">");
    append_chars(&mut v, &m);
    append_chars(&mut v, text);
    let e = str_to_chars("</a>");
    append_chars(&mut v, &e);
    proof {
        assert(v@ =~= link_frag(target@, text@));
    }
    v
}

/// Builds an emphasis fragment for the delimiter `c`.
fn build_wrap(c: char, e: &Vec<char>) -> (v: Vec<char>)
    ensures
        v@ == wrap_frag(c, e@),
{
    let mut v = if c == '*' {
        str_to_chars("<strong>")
    } else if c == '~' {
        str_to_chars("<em>")
    } else {
        str_to_chars("<u>")
    };
    append_chars(&mut v, e);
    let close = if c == '*' {
        str_to_chars("</strong>")
    } else if c == '~' {
        str_to_chars("</em>")
    } else {
        str_to_chars("</u>")
    };
    append_chars(&mut v, &close);
    proof {
        assert(v@ =~= wrap_frag(c, e@));
    }
    v
}

/// Builds an anchor fragment.
fn build_anchor(a: &Vec<char>) -> (v: Vec<char>)
    ensures
        v@ == anchor_frag(a@),
{
    let mut v = str_to_chars("<a name=\"");
    append_chars(&mut v, a);
    let e = str_to_chars("\"></a>");
    append_chars(&mut v, &e);
    proof {
        assert(v@ =~= anchor_frag(a@));
    }
    v
}

impl Lexer {
    /// The backtick arm of the transformer loop.
    fn tick_arm(&mut self, out: &mut Vec<char>)
        requires
            old(self).wf(),
            1 <= old(self).line,
        ensures
            final(self).wf(),
            final(self).lines == old(self).lines,
            final(self).line == old(self).line,
            final(self).output == old(self).output,
            ({
                let (ni, o) = step_tick(old(self).cur(), old(self).col as int, old(out)@);
                final(self).col as int == ni && final(out)@ == o
            }),
    {
        match self.consume_while_char(Pred::NotChar('`')) {
            Some(text) => {
                append_chars(out, &text);
            },
            None => {},
        }
    }

    /// The link arm of the transformer loop.
    fn link_arm(&mut self, out: &mut Vec<char>) -> (r: Result<(), Error>)
        requires
            old(self).wf(),
            1 <= old(self).line,
        ensures
            final(self).wf(),
            final(self).lines == old(self).lines,
            final(self).line == old(self).line,
            final(self).output == old(self).output,
            match r {
                Ok(_) => ({
                    let s = step_link(old(self).cur(), old(self).col as int, old(out)@);
                    s matches Ok(v) && final(self).col as int == v.0 && final(out)@ == v.1
                }),
                Err(e) => ({
                    &&& step_link(old(self).cur(), old(self).col as int, old(out)@) == Err::<
                        (int, Seq<char>),
                        (char, int),
                    >((e.expected, e.col as int))
                    &&& e.line == final(self).line
                    &&& final(out)@ == old(out)@
                }),
            },
    {
        match self.consume_while_char(Pred::NotChar(']')) {
            None => Ok(()),
            Some(linktext) => {
                match self.expect_char(']') {
                    Err(e) => {
                        return Err(e);
                    },
                    Ok(_) => {},
                }
                match self.expect_char('(') {
                    Err(e) => {
                        return Err(e);
                    },
                    Ok(_) => {},
                }
                match self.consume_while_char(Pred::NotChar(')')) {
                    None => Ok(()),
                    Some(target) => {
                        match self.expect_char(')') {
                            Err(e) => {
                                return Err(e);
                            },
                            Ok(_) => {},
                        }
                        let frag = build_link(&target, &linktext);
                        append_chars(out, &frag);
                        Ok(())
                    },
                }
            },
        }
    }

    /// The emphasis arm of the transformer loop, for `*`, `~` and `_`.
    fn delim_arm(&mut self, c: char, out: &mut Vec<char>) -> (r: Result<(), Error>)
        requires
            old(self).wf(),
            1 <= old(self).line,
        ensures
            final(self).wf(),
            final(self).lines == old(self).lines,
            final(self).line == old(self).line,
            final(self).output == old(self).output,
            match r {
                Ok(_) => ({
                    let s = step_delim(old(self).cur(), old(self).col as int, c, old(out)@);
                    s matches Ok(v) && final(self).col as int == v.0 && final(out)@ == v.1
                }),
                Err(e) => ({
                    &&& step_delim(old(self).cur(), old(self).col as int, c, old(out)@) == Err::<
                        (int, Seq<char>),
                        (char, int),
                    >((e.expected, e.col as int))
                    &&& e.line == final(self).line
                }),
            },
    {
        match self.consume_while_char(Pred::NotChar(c)) {
            Some(emph) => {
                let frag = build_wrap(c, &emph);
                append_chars(out, &frag);
            },
            None => {},
        }
        match self.expect_char(c) {
            Err(e) => Err(e),
            Ok(_) => Ok(()),
        }
    }

    /// The anchor arm of the transformer loop.
    fn anchor_arm(&mut self, out: &mut Vec<char>) -> (r: Result<(), Error>)
        requires
            old(self).wf(),
            1 <= old(self).line,
        ensures
            final(self).wf(),
            final(self).lines == old(self).lines,
            final(self).line == old(self).line,
            final(self).output == old(self).output,
            match r {
                Ok(_) => ({
                    let s = step_anchor(old(self).cur(), old(self).col as int, old(out)@);
                    s matches Ok(v) && final(self).col as int == v.0 && final(out)@ == v.1
                }),
                Err(e) => ({
                    &&& step_anchor(old(self).cur(), old(self).col as int, old(out)@) == Err::<
                        (int, Seq<char>),
                        (char, int),
                    >((e.expected, e.col as int))
                    &&& e.line == final(self).line
                }),
            },
    {
        match self.consume_while_char(Pred::NotChar('}')) {
            None => Ok(()),
            Some(a) => {
                match self.expect_char('}') {
                    Err(e) => {
                        return Err(e);
                    },
                    Ok(_) => {},
                }
                let frag = build_anchor(&a);
                append_chars(out, &frag);
                Ok(())
            },
        }
    }

    /// The horizontal-rule arm of the transformer loop.
    fn eq_arm(&mut self, out: &mut Vec<char>)
        requires
            old(self).wf(),
            1 <= old(self).line,
        ensures
            final(self).wf(),
            final(self).lines == old(self).lines,
            final(self).line == old(self).line,
            final(self).output == old(self).output,
            ({
                let (ni, o) = step_eq(old(self).cur(), old(self).col as int, old(out)@);
                final(self).col as int == ni && final(out)@ == o
            }),
    {
        match self.consume_while_char(Pred::IsChar('=')) {
            Some(_hr) => {
                let t = str_to_chars("<hr>");
                append_chars(out, &t);
            },
            None => {
                out.push('=');
            },
        }
    }

    /// Transforms the rest of the current line into an HTML fragment, or
    /// fails at the first missing mandatory character.  `escaped` seats
    /// the transformer inside a raw code span from the start.
    pub fn transform(&mut self, escaped: bool) -> (r: Result<Vec<char>, Error>)
        requires
            old(self).wf(),
            1 <= old(self).line,
        ensures
            final(self).wf(),
            final(self).lines == old(self).lines,
            final(self).line == old(self).line,
            final(self).output == old(self).output,
            match r {
                Ok(v) => spec_transform(old(self).cur(), old(self).col as int, escaped) == Ok::<
                    Seq<char>,
                    (char, int),
                >(v@) && final(self).col == old(self).cur().len(),
                Err(e) => {
                    &&& spec_transform(old(self).cur(), old(self).col as int, escaped) == Err::<
                        Seq<char>,
                        (char, int),
                    >((e.expected, e.col as int))
                    &&& e.line == final(self).line
                },
            },
    {
        let ghost line0 = old(self).cur();
        let ghost col0 = old(self).col as int;
        let mut out: Vec<char> = Vec::new();
        let mut esc = escaped;
        loop
            invariant
                self.wf(),
                1 <= self.line,
                self.lines == old(self).lines,
                self.line == old(self).line,
                self.output == old(self).output,
                spec_transform_loop(line0, col0, escaped, Seq::empty()) == spec_transform_loop(
                    line0,
                    self.col as int,
                    esc,
                    out@,
                ),
            decreases line0.len() - self.col,
        {
            let ghost pcol = self.col as int;
            let ghost pesc = esc;
            let ghost pout = out@;
            match self.next_char() {
                None => {
                    break ;
                },
                Some(c) => {
                    if esc {
                        if c == '`' {
                            esc = false;
                        } else {
                            out.push(c);
                        }
                        proof {
                            assert(spec_transform_loop(line0, pcol, pesc, pout)
                                == spec_transform_loop(line0, self.col as int, esc, out@));
                        }
                    } else if c == '`' {
                        esc = true;
                        self.tick_arm(&mut out);
                        proof {
                            lemma_step_tick_bounds(line0, pcol + 1, pout);
                            assert(spec_transform_loop(line0, pcol, pesc, pout)
                                == spec_transform_loop(line0, self.col as int, esc, out@));
                        }
                    } else if c == '[' {
                        match self.link_arm(&mut out) {
                            Err(e) => {
                                proof {
                                    assert(spec_transform_loop(line0, pcol, pesc, pout)
                                        == Err::<Seq<char>, (char, int)>((
                                        e.expected,
                                        e.col as int,
                                    )));
                                }
                                return Err(e);
                            },
                            Ok(_) => {
                                proof {
                                    lemma_step_link_bounds(line0, pcol + 1, pout);
                                    assert(spec_transform_loop(line0, pcol, pesc, pout)
                                        == spec_transform_loop(line0, self.col as int, esc, out@));
                                }
                            },
                        }
                    } else if c == '*' || c == '~' || c == '_' {
                        match self.peek_char() {
                            None => {
                                out.push(c);
                                proof {
                                    assert(spec_transform_loop(line0, pcol, pesc, pout)
                                        == spec_transform_loop(line0, self.col as int, esc, out@));
                                }
                            },
                            Some(p) => {
                                if is_ws(p) {
                                    out.push(c);
                                    proof {
                                        assert(spec_transform_loop(line0, pcol, pesc, pout)
                                            == spec_transform_loop(
                                            line0,
                                            self.col as int,
                                            esc,
                                            out@,
                                        ));
                                    }
                                } else {
                                    match self.delim_arm(c, &mut out) {
                                        Err(e) => {
                                            proof {
                                                assert(spec_transform_loop(line0, pcol, pesc, pout)
                                                    == Err::<Seq<char>, (char, int)>((
                                                    e.expected,
                                                    e.col as int,
                                                )));
                                            }
                                            return Err(e);
                                        },
                                        Ok(_) => {
                                            proof {
                                                lemma_step_delim_bounds(line0, pcol + 1, c, pout);
                                                assert(spec_transform_loop(line0, pcol, pesc, pout)
                                                    == spec_transform_loop(
                                                    line0,
                                                    self.col as int,
                                                    esc,
                                                    out@,
                                                ));
                                            }
                                        },
                                    }
                                }
                            },
                        }
                    } else if c == '{' {
                        match self.anchor_arm(&mut out) {
                            Err(e) => {
                                proof {
                                    assert(spec_transform_loop(line0, pcol, pesc, pout)
                                        == Err::<Seq<char>, (char, int)>((
                                        e.expected,
                                        e.col as int,
                                    )));
                                }
                                return Err(e);
                            },
                            Ok(_) => {
                                proof {
                                    lemma_step_anchor_bounds(line0, pcol + 1, pout);
                                    assert(spec_transform_loop(line0, pcol, pesc, pout)
                                        == spec_transform_loop(line0, self.col as int, esc, out@));
                                }
                            },
                        }
                    } else if c == '\\' {
                        match self.next_char() {
                            Some(c2) => {
                                out.push(c2);
                            },
                            None => {},
                        }
                        proof {
                            assert(spec_transform_loop(line0, pcol, pesc, pout)
                                == spec_transform_loop(line0, self.col as int, esc, out@));
                        }
                    } else if c == '=' {
                        self.eq_arm(&mut out);
                        proof {
                            lemma_step_eq_bounds(line0, pcol + 1, pout);
                            assert(spec_transform_loop(line0, pcol, pesc, pout)
                                == spec_transform_loop(line0, self.col as int, esc, out@));
                        }
                    } else {
                        out.push(c);
                        proof {
                            assert(spec_transform_loop(line0, pcol, pesc, pout)
                                == spec_transform_loop(line0, self.col as int, esc, out@));
                        }
                    }
                },
            }
        }
        proof {
            assert(spec_transform_loop(line0, self.col as int, esc, out@) == Ok::<
                Seq<char>,
                (char, int),
            >(out@));
        }
        let ghost loop_out = out@;
        let n = out.len();
        if n >= 2 && out[n - 1] == ' ' && out[n - 2] == ' ' {
            let _ = out.pop();
            let _ = out.pop();
            let t = str_to_chars("<br />");
            append_chars(&mut out, &t);
            proof {
                assert(out@ =~= spec_br(loop_out));
            }
        } else {
            proof {
                assert(out@ == spec_br(loop_out));
            }
        }
        Ok(out)
    }
}

proof fn lemma_scan_to_tick(line: Seq<char>, j: int, k: int, acc: Seq<char>)
    requires
        0 <= j <= k <= line.len(),
        forall|m: int| j <= m < k ==> line[m] != '`',
        k == line.len() || line[k] == '`',
    ensures
        spec_consume(line, j, false, acc, Pred::NotChar('`')) == (k, acc + line.subrange(j, k)),
    decreases k - j,
{
    if j < k {
        lemma_scan_to_tick(line, j + 1, k, acc.push(line[j]));
        assert(acc.push(line[j]) + line.subrange(j + 1, k) =~= acc + line.subrange(j, k));
    } else {
        assert(acc + line.subrange(j, j) =~= acc);
    }
}

/// A raw code span: the text between a backtick and the next backtick
/// passes through literally — no wrapping tag, the backticks themselves
/// dropped, and no markup inside it interpreted — and the pass goes on
/// after the closing backtick, outside any escape.
pub proof fn lemma_code_span(line: Seq<char>, i: int, k: int, out: Seq<char>)
    requires
        0 <= i < k < line.len(),
        line[i] == '`',
        line[k] == '`',
        forall|j: int| i < j < k ==> line[j] != '`',
    ensures
        spec_transform_loop(line, i, false, out) == spec_transform_loop(
            line,
            k + 1,
            false,
            out + line.subrange(i + 1, k),
        ),
{
    lemma_scan_to_tick(line, i + 1, k, Seq::empty());
    let t = line.subrange(i + 1, k);
    assert(Seq::<char>::empty() + t =~= t);
    if t.len() == 0 {
        assert(out + t =~= out);
    }
    assert(step_tick(line, i + 1, out) == (k, out + t));
    assert(spec_transform_loop(line, i, false, out) == spec_transform_loop(line, k, true, out + t));
    assert(spec_transform_loop(line, k, true, out + t) == spec_transform_loop(
        line,
        k + 1,
        false,
        out + t,
    ));
}

/// An unclosed opening backtick is no failure: the rest of the line
/// passes through literally, the backtick itself dropped.
pub proof fn lemma_code_span_unclosed(line: Seq<char>, i: int, out: Seq<char>)
    requires
        0 <= i < line.len(),
        line[i] == '`',
        forall|j: int| i < j < line.len() ==> line[j] != '`',
    ensures
        spec_transform_loop(line, i, false, out) == Ok::<Seq<char>, (char, int)>(
            out + line.subrange(i + 1, line.len() as int),
        ),
{
    lemma_scan_to_tick(line, i + 1, line.len() as int, Seq::empty());
    let t = line.subrange(i + 1, line.len() as int);
    assert(Seq::<char>::empty() + t =~= t);
    if t.len() == 0 {
        assert(out + t =~= out);
    }
    assert(step_tick(line, i + 1, out) == (line.len() as int, out + t));
    assert(spec_transform_loop(line, i, false, out) == spec_transform_loop(
        line,
        line.len() as int,
        true,
        out + t,
    ));
    assert(spec_transform_loop(line, line.len() as int, true, out + t) == Ok::<
        Seq<char>,
        (char, int),
    >(out + t));
}

/// A character with no inline meaning: anything but the transformer's
/// eight markup characters.
pub open spec fn plain_char(c: char) -> bool {
    c != '`' && c != '[' && c != '*' && c != '~' && c != '_' && c != '{' && c != '\\' && c != '='
}

proof fn lemma_plain_loop(line: Seq<char>, i: int, out: Seq<char>)
    requires
        0 <= i <= line.len(),
        forall|j: int| i <= j < line.len() ==> plain_char(#[trigger] line[j]),
    ensures
        spec_transform_loop(line, i, false, out) == Ok::<Seq<char>, (char, int)>(
            out + line.subrange(i, line.len() as int),
        ),
    decreases line.len() - i,
{
    if i >= line.len() {
        assert(out + line.subrange(i, line.len() as int) =~= out);
    } else {
        lemma_plain_loop(line, i + 1, out.push(line[i]));
        assert(out.push(line[i]) + line.subrange(i + 1, line.len() as int) =~= out + line.subrange(
            i,
            line.len() as int,
        ));
    }
}

/// A line of plain characters passes through the transformer unchanged,
/// except that a trailing pair of spaces becomes a line-break tag.
pub proof fn lemma_plain_line_unchanged(line: Seq<char>)
    requires
        forall|i: int| 0 <= i < line.len() ==> plain_char(#[trigger] line[i]),
    ensures
        spec_transform(line, 0, false) == Ok::<Seq<char>, (char, int)>(spec_br(line)),
{
    lemma_plain_loop(line, 0, Seq::empty());
    assert(Seq::<char>::empty() + line.subrange(0, line.len() as int) =~= line);
}

} // verus!
