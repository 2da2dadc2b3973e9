//! The lexer: a dual-level cursor over the lines and characters of a
//! document, the escape-aware character scanner, and the output
//! accumulator.  Every primitive's behaviour is stated against the spec
//! functions below; the inline and block passes build on these contracts.
use vstd::prelude::*;

use crate::classify::pred_eval;
use crate::classify::pred_holds;
use crate::classify::Pred;
use crate::numfmt::dec_spec;
use crate::numfmt::push_dec;
use vstd::std_specs::iter::IteratorSpec;

verus! {

/// The view of a vector of lines: the sequence of their character
/// sequences.
pub open spec fn views(v: Seq<Vec<char>>) -> Seq<Seq<char>> {
    Seq::new(v.len(), |i: int| v[i]@)
}

pub proof fn lemma_views_push(s: Seq<Vec<char>>, x: Vec<char>)
    ensures
        views(s.push(x)) == views(s).push(x@),
{
    assert(views(s.push(x)) =~= views(s).push(x@));
}

/// One terminated line segment, with a trailing carriage return removed.
pub open spec fn strip_cr(l: Seq<char>) -> Seq<char> {
    if l.len() > 0 && l[l.len() - 1] == '\r' {
        l.drop_last()
    } else {
        l
    }
}

/// Splitting a document into lines, the way the standard library's
/// `str::lines` does: segments end at a newline, a carriage return
/// directly before a newline is dropped, a final unterminated segment is
/// kept as it stands, and a final empty segment is not a line.
pub open spec fn lines_loop(doc: Seq<char>, i: int, cur: Seq<char>, acc: Seq<Seq<char>>) -> Seq<
    Seq<char>,
>
    decreases doc.len() - i,
{
    if i < 0 || i >= doc.len() {
        if cur.len() == 0 {
            acc
        } else {
            acc.push(cur)
        }
    } else if doc[i] == '\n' {
        lines_loop(doc, i + 1, Seq::empty(), acc.push(strip_cr(cur)))
    } else {
        lines_loop(doc, i + 1, cur.push(doc[i]), acc)
    }
}

pub open spec fn spec_lines(doc: Seq<char>) -> Seq<Seq<char>> {
    lines_loop(doc, 0, Seq::empty(), Seq::empty())
}

/// Splits a document into its lines.
pub fn split_lines(doc: &Vec<char>) -> (r: Vec<Vec<char>>)
    ensures
        views(r@) == spec_lines(doc@),
{
    let mut acc: Vec<Vec<char>> = Vec::new();
    let mut cur: Vec<char> = Vec::new();
    let mut i: usize = 0;
    proof {
        assert(views(acc@) =~= Seq::<Seq<char>>::empty());
    }
    while i < doc.len()
        invariant
            i <= doc.len(),
            spec_lines(doc@) == lines_loop(doc@, i as int, cur@, views(acc@)),
        decreases doc.len() - i,
    {
        let ghost pcur = cur@;
        let ghost pacc = views(acc@);
        let c: char = doc[i];
        if c == '\n' {
            if cur.len() > 0 && cur[cur.len() - 1] == '\r' {
                let _ = cur.pop();
            }
            proof {
                assert(cur@ == strip_cr(pcur));
                lemma_views_push(acc@, cur);
            }
            let done = cur;
            acc.push(done);
            cur = Vec::new();
        } else {
            cur.push(c);
        }
        i = i + 1;
        proof {
            assert(lines_loop(doc@, i - 1, pcur, pacc) == lines_loop(doc@, i as int, cur@, views(acc@)));
        }
    }
    if cur.len() > 0 {
        proof {
            lemma_views_push(acc@, cur);
        }
        acc.push(cur);
    }
    acc
}

/// Collects the characters of a string slice.
pub fn str_to_chars(s: &str) -> (v: Vec<char>)
    ensures
        v@ == s@,
{
    broadcast use vstd::string::next_postcondition, vstd::string::axiom_spec_iter;

    let mut v: Vec<char> = Vec::new();
    let mut it = s.chars();
    proof {
        assert(v@ + it.remaining() =~= s@);
    }
    loop
        invariant
            it.obeys_prophetic_iter_laws(),
            v@ + it.remaining() == s@,
        decreases s@.len() - v@.len(),
    {
        let ghost prem = it.remaining();
        let ghost pv = v@;
        match it.next() {
            Some(c) => {
                v.push(c);
                proof {
                    assert(v@ + it.remaining() =~= pv + prem);
                }
            },
            None => {
                proof {
                    assert(v@ =~= v@ + it.remaining());
                }
                break ;
            },
        }
    }
    v
}

/// Relies on `String::from_iter` (through `collect`): collecting
/// characters yields the string of exactly those characters, in order.
#[verifier::external_body]
pub fn chars_to_string(v: &Vec<char>) -> (s: String)
    ensures
        s@ == v@,
{
    v.iter().collect()
}

/// Appends the characters of `src` to `dst`.
pub fn append_chars(dst: &mut Vec<char>, src: &Vec<char>)
    ensures
        final(dst)@ == old(dst)@ + src@,
{
    let mut j: usize = 0;
    proof {
        assert(dst@ =~= dst@ + src@.subrange(0, 0));
    }
    while j < src.len()
        invariant
            j <= src.len(),
            dst@ == old(dst)@ + src@.subrange(0, j as int),
        decreases src.len() - j,
    {
        let c: char = src[j];
        dst.push(c);
        j = j + 1;
        proof {
            assert(dst@ =~= old(dst)@ + src@.subrange(0, j as int));
        }
    }
    proof {
        assert(old(dst)@ + src@.subrange(0, src@.len() as int) =~= old(dst)@ + src@);
    }
}

/// The scanner: starting at `i` in `line`, with the escape flag `esc` and
/// the accumulated text `acc`, it consumes characters while the predicate
/// holds.  A backtick that the predicate itself accepts is consumed but
/// excluded from the text, toggling the escape flag; while the flag is
/// set every character is consumed.  The result is the final position and
/// the accumulated text.
pub open spec fn spec_consume(line: Seq<char>, i: int, esc: bool, acc: Seq<char>, p: Pred) -> (
    int,
    Seq<char>,
)
    decreases line.len() - i,
{
    if i < 0 || i >= line.len() {
        (i, acc)
    } else {
        let c = line[i];
        if c == '`' && pred_holds(p, '`') {
            spec_consume(line, i + 1, !esc, acc, p)
        } else if pred_holds(p, c) || esc {
            spec_consume(line, i + 1, esc, acc.push(c), p)
        } else {
            (i, acc)
        }
    }
}

/// What the scanner returns: the accumulated text, or nothing when zero
/// characters matched.
pub open spec fn consume_result(acc: Seq<char>) -> Option<Seq<char>> {
    if acc.len() == 0 {
        None
    } else {
        Some(acc)
    }
}

pub proof fn lemma_consume_bounds(line: Seq<char>, i: int, esc: bool, acc: Seq<char>, p: Pred)
    requires
        0 <= i <= line.len(),
    ensures
        i <= spec_consume(line, i, esc, acc, p).0 <= line.len(),
    decreases line.len() - i,
{
    if i < line.len() {
        let c = line[i];
        if c == '`' && pred_holds(p, '`') {
            lemma_consume_bounds(line, i + 1, !esc, acc, p);
        } else if pred_holds(p, c) || esc {
            lemma_consume_bounds(line, i + 1, esc, acc.push(c), p);
        }
    }
}

/// One mandatory character at position `i`: on a match the new position,
/// otherwise the column that the failure reports.
pub open spec fn spec_expect(line: Seq<char>, i: int, c: char) -> Result<int, int> {
    if 0 <= i < line.len() && line[i] == c {
        Ok(i + 1)
    } else if 0 <= i < line.len() {
        Err(i + 1)
    } else {
        Err(i)
    }
}

/// What one emission appends to the output: nothing for an empty
/// fragment, otherwise the fragment and a newline.
pub open spec fn spec_emit(s: Seq<char>) -> Seq<char> {
    if s.len() == 0 {
        Seq::empty()
    } else {
        s.push('\n')
    }
}

/// A positional failure: a mandatory character was missing.  `line` and
/// `col` are 1-based; `col` is the column at which the cursor stopped.
#[derive(Debug)]
pub struct Error {
    pub expected: char,
    pub line: usize,
    pub col: usize,
}

/// The text of a failure's message: the expected character and the
/// 1-based line and column at which it was missing.
pub open spec fn spec_message(e: Error) -> Seq<char> {
    "Expecting character "@ + seq![e.expected] + ", on line "@ + dec_spec(e.line as nat)
        + " column "@ + dec_spec(e.col as nat)
}

impl Error {
    /// The human-readable message of this failure.
    pub fn message(&self) -> (s: String)
        ensures
            s@ == spec_message(*self),
    {
        let mut v = str_to_chars("Expecting character ");
        v.push(self.expected);
        let m = str_to_chars(", on line ");
        append_chars(&mut v, &m);
        push_dec(self.line, &mut v);
        let m2 = str_to_chars(" column ");
        append_chars(&mut v, &m2);
        push_dec(self.col, &mut v);
        proof {
            assert(v@ =~= spec_message(*self));
        }
        chars_to_string(&v)
    }
}

/// The lexer: the document's lines, the cursor (`line` counts the lines
/// consumed, so the current line is `lines[line - 1]`; `col` counts the
/// characters consumed from it), and the output accumulator.
pub struct Lexer {
    pub lines: Vec<Vec<char>>,
    pub line: usize,
    pub col: usize,
    pub output: Vec<char>,
}

impl Lexer {
    pub open spec fn lines_view(self) -> Seq<Seq<char>> {
        views(self.lines@)
    }

    /// The current line's characters.
    pub open spec fn cur(self) -> Seq<char>
        recommends
            1 <= self.line <= self.lines@.len(),
    {
        self.lines@[self.line - 1]@
    }

    /// The cursor stays inside the document: `col` never passes the end
    /// of the current line, and is zero while no line has been taken.
    pub open spec fn wf(self) -> bool {
        &&& self.line <= self.lines@.len()
        &&& (self.line == 0 ==> self.col == 0)
        &&& (1 <= self.line ==> self.col <= self.cur().len())
    }

    /// The character under the cursor, if the current line has one left.
    pub open spec fn spec_peek(self) -> Option<char> {
        if 1 <= self.line && (self.col as int) < self.cur().len() {
            Some(self.cur()[self.col as int])
        } else {
            None
        }
    }

    /// The upcoming character of the current line, without consuming it.
    pub fn peek_char(&self) -> (r: Option<char>)
        requires
            self.wf(),
        ensures
            r == self.spec_peek(),
    {
        if self.line >= 1 {
            let l: &Vec<char> = &self.lines[self.line - 1];
            if self.col < l.len() {
                Some(l[self.col])
            } else {
                None
            }
        } else {
            None
        }
    }

    /// The upcoming line, without consuming it.
    pub fn peek_line(&self) -> (r: Option<&Vec<char>>)
        ensures
            match r {
                Some(l) => self.line < self.lines@.len() && l@ == self.lines_view()[self.line as int],
                None => self.line >= self.lines@.len(),
            },
    {
        if self.line < self.lines.len() {
            Some(&self.lines[self.line])
        } else {
            None
        }
    }

    /// Takes the next line, advancing the outer cursor and re-seating the
    /// inner one at its start.
    pub fn next_line(&mut self) -> (r: Option<Vec<char>>)
        requires
            old(self).wf(),
        ensures
            final(self).wf(),
            final(self).lines == old(self).lines,
            final(self).output == old(self).output,
            match r {
                Some(l) => {
                    &&& old(self).line < old(self).lines@.len()
                    &&& final(self).line == old(self).line + 1
                    &&& final(self).col == 0
                    &&& l@ == old(self).lines_view()[old(self).line as int]
                },
                None => old(self).line >= old(self).lines@.len() && *final(self) == *old(self),
            },
    {
        if self.line < self.lines.len() {
            let l: Vec<char> = copy_chars(&self.lines[self.line]);
            self.line = self.line + 1;
            self.col = 0;
            Some(l)
        } else {
            None
        }
    }

    /// Takes the next character of the current line, advancing the inner
    /// cursor.
    pub fn next_char(&mut self) -> (r: Option<char>)
        requires
            old(self).wf(),
        ensures
            final(self).wf(),
            final(self).lines == old(self).lines,
            final(self).line == old(self).line,
            final(self).output == old(self).output,
            r == old(self).spec_peek(),
            r is Some ==> final(self).col == old(self).col + 1,
            r is None ==> *final(self) == *old(self),
    {
        if self.line >= 1 {
            let len: usize = self.lines[self.line - 1].len();
            if self.col < len {
                let c: char = self.lines[self.line - 1][self.col];
                self.col = self.col + 1;
                Some(c)
            } else {
                None
            }
        } else {
            None
        }
    }

    /// Scans characters of the current line while the predicate holds,
    /// with the backtick escape rule of `spec_consume`.
    pub fn consume_while_char(&mut self, p: Pred) -> (r: Option<Vec<char>>)
        requires
            old(self).wf(),
            1 <= old(self).line,
        ensures
            final(self).wf(),
            final(self).lines == old(self).lines,
            final(self).line == old(self).line,
            final(self).output == old(self).output,
            ({
                let (ni, acc) = spec_consume(
                    old(self).cur(),
                    old(self).col as int,
                    false,
                    Seq::empty(),
                    p,
                );
                &&& final(self).col as int == ni
                &&& match r {
                    Some(v) => consume_result(acc) == Some(v@),
                    None => consume_result(acc) is None,
                }
            }),
    {
        let ghost line0 = old(self).cur();
        let mut s: Vec<char> = Vec::new();
        let mut escape: bool = false;
        loop
            invariant
                self.wf(),
                1 <= self.line,
                self.lines == old(self).lines,
                self.line == old(self).line,
                self.output == old(self).output,
                spec_consume(line0, old(self).col as int, false, Seq::empty(), p)
                    == spec_consume(line0, self.col as int, escape, s@, p),
            decreases line0.len() - self.col,
        {
            let ghost pcol = self.col as int;
            let ghost pesc = escape;
            let ghost ps = s@;
            match self.peek_char() {
                Some(c) => {
                    if pred_eval(p, '`') && c == '`' {
                        escape = !escape;
                        let _ = self.next_char();
                        proof {
                            assert(spec_consume(line0, pcol, pesc, ps, p) == spec_consume(
                                line0,
                                self.col as int,
                                escape,
                                s@,
                                p,
                            ));
                        }
                    } else if pred_eval(p, c) || escape {
                        let _ = self.next_char();
                        s.push(c);
                        proof {
                            assert(spec_consume(line0, pcol, pesc, ps, p) == spec_consume(
                                line0,
                                self.col as int,
                                escape,
                                s@,
                                p,
                            ));
                        }
                    } else {
                        proof {
                            assert(spec_consume(line0, pcol, pesc, ps, p) == (
                                self.col as int,
                                s@,
                            ));
                        }
                        if s.len() == 0 {
                            return None;
                        } else {
                            return Some(s);
                        }
                    }
                },
                None => {
                    proof {
                        assert(self.col == line0.len());
                        assert(spec_consume(line0, pcol, pesc, ps, p) == (self.col as int, s@));
                    }
                    break ;
                },
            }
        }
        if s.len() == 0 {
            None
        } else {
            Some(s)
        }
    }

    /// Requires the next character to be `c`; on anything else, or at the
    /// end of the line, fails with the position of the mismatch.
    pub fn expect_char(&mut self, c: char) -> (r: Result<(), Error>)
        requires
            old(self).wf(),
            1 <= old(self).line,
        ensures
            final(self).wf(),
            final(self).lines == old(self).lines,
            final(self).line == old(self).line,
            final(self).output == old(self).output,
            match r {
                Ok(_) => spec_expect(old(self).cur(), old(self).col as int, c) == Ok::<int, int>(
                    final(self).col as int,
                ),
                Err(e) => {
                    &&& spec_expect(old(self).cur(), old(self).col as int, c) == Err::<int, int>(
                        e.col as int,
                    )
                    &&& e.expected == c
                    &&& e.line == final(self).line
                },
            },
    {
        match self.next_char() {
            Some(d) => {
                if d == c {
                    Ok(())
                } else {
                    Err(Error { expected: c, line: self.line, col: self.col })
                }
            },
            None => Err(Error { expected: c, line: self.line, col: self.col }),
        }
    }

    /// Appends a fragment and a newline to the output; an empty fragment
    /// is suppressed.
    pub fn emit_chars(&mut self, s: &Vec<char>)
        ensures
            final(self).lines == old(self).lines,
            final(self).line == old(self).line,
            final(self).col == old(self).col,
            final(self).output@ == old(self).output@ + spec_emit(s@),
    {
        if s.len() != 0 {
            append_chars(&mut self.output, s);
            self.output.push('\n');
            proof {
                assert(self.output@ =~= old(self).output@ + spec_emit(s@));
            }
        } else {
            proof {
                assert(self.output@ =~= old(self).output@ + spec_emit(s@));
            }
        }
    }

    /// `emit_chars`, for a literal fragment.
    pub fn emit(&mut self, s: &str)
        ensures
            final(self).lines == old(self).lines,
            final(self).line == old(self).line,
            final(self).col == old(self).col,
            final(self).output@ == old(self).output@ + spec_emit(s@),
    {
        let v = str_to_chars(s);
        self.emit_chars(&v);
    }
}

/// Copies a line.
pub fn copy_chars(src: &Vec<char>) -> (r: Vec<char>)
    ensures
        r@ == src@,
{
    let mut r: Vec<char> = Vec::new();
    append_chars(&mut r, src);
    proof {
        assert(Seq::<char>::empty() + src@ =~= src@);
    }
    r
}

} // verus!
