//! The block dispatcher: drives the line loop, classifies each line's
//! leading character, keeps the list / blockquote / paragraph state
//! across lines, and emits the block-level markup around the inline
//! fragments.
use vstd::prelude::*;

use crate::classify::is_digit;
use crate::classify::is_digit_char;
use crate::classify::Pred;
use crate::inline::spec_transform;
use crate::lexer::chars_to_string;
use crate::lexer::consume_result;
use crate::lexer::spec_consume;
use crate::lexer::spec_emit;
use crate::lexer::spec_expect;
use crate::lexer::spec_lines;
use crate::lexer::split_lines;
use crate::lexer::str_to_chars;
use crate::lexer::append_chars;
use crate::lexer::views;
use crate::lexer::Error;
use crate::lexer::Lexer;
use crate::numfmt::dec_spec;
use crate::numfmt::push_dec;

verus! {

/// Does a line start with the given character?
pub open spec fn starts_with_char(l: Seq<char>, c: char) -> bool {
    l.len() > 0 && l[0] == c
}

/// Does a line start with a decimal digit?
pub open spec fn digit_start(l: Seq<char>) -> bool {
    l.len() > 0 && is_digit_char(l[0])
}

/// A code fence: a line of exactly three backticks.
pub open spec fn is_fence(l: Seq<char>) -> bool {
    l.len() == 3 && l[0] == '`' && l[1] == '`' && l[2] == '`'
}

fn is_fence_vec(l: &Vec<char>) -> (r: bool)
    ensures
        r == is_fence(l@),
{
    l.len() == 3 && l[0] == '`' && l[1] == '`' && l[2] == '`'
}

/// The length of the run of backticks at position `j`.
pub open spec fn tick_run(line: Seq<char>, j: int) -> int
    decreases line.len() - j,
{
    if j < 0 || j >= line.len() {
        0
    } else if line[j] == '`' {
        1 + tick_run(line, j + 1)
    } else {
        0
    }
}

/// The index of the first code fence at or after `j`, or the number of
/// lines when there is none.
pub open spec fn find_fence(lines: Seq<Seq<char>>, j: int) -> int
    decreases lines.len() - j,
{
    if j < 0 || j >= lines.len() {
        lines.len() as int
    } else if is_fence(lines[j]) {
        j
    } else {
        find_fence(lines, j + 1)
    }
}

pub proof fn lemma_find_fence_bounds(lines: Seq<Seq<char>>, j: int)
    requires
        0 <= j <= lines.len(),
    ensures
        j <= find_fence(lines, j) <= lines.len(),
        forall|k: int| j <= k < find_fence(lines, j) ==> !is_fence(#[trigger] lines[k]),
        find_fence(lines, j) < lines.len() ==> is_fence(lines[find_fence(lines, j)]),
    decreases lines.len() - j,
{
    if j < lines.len() && !is_fence(lines[j]) {
        lemma_find_fence_bounds(lines, j + 1);
    }
}

pub proof fn lemma_find_fence_at(lines: Seq<Seq<char>>, j: int, m: int)
    requires
        0 <= j <= m <= lines.len(),
        forall|k: int| j <= k < m ==> !is_fence(#[trigger] lines[k]),
        m == lines.len() || is_fence(lines[m]),
    ensures
        find_fence(lines, j) == m,
    decreases m - j,
{
    if j < m {
        lemma_find_fence_at(lines, j + 1, m);
    }
}

/// The emissions for the body lines of a fenced code block: each line in
/// `[from, to)`, emitted verbatim (so empty lines are suppressed).
pub open spec fn code_lines(lines: Seq<Seq<char>>, from: int, to: int) -> Seq<char>
    decreases to - from,
{
    if from >= to {
        Seq::empty()
    } else {
        code_lines(lines, from, to - 1) + spec_emit(lines[to - 1])
    }
}

/// The emissions for a sequence of lines, each emitted verbatim.
pub open spec fn emit_all(ls: Seq<Seq<char>>) -> Seq<char>
    decreases ls.len(),
{
    if ls.len() == 0 {
        Seq::empty()
    } else {
        emit_all(ls.drop_last()) + spec_emit(ls.last())
    }
}

pub proof fn lemma_emit_all_code_lines(lines: Seq<Seq<char>>, from: int, to: int)
    requires
        0 <= from <= to <= lines.len(),
    ensures
        emit_all(lines.subrange(from, to)) == code_lines(lines, from, to),
    decreases to - from,
{
    if from < to {
        lemma_emit_all_code_lines(lines, from, to - 1);
        assert(lines.subrange(from, to).drop_last() =~= lines.subrange(from, to - 1));
        assert(lines.subrange(from, to).last() == lines[to - 1]);
    }
}

/// The fragment a heading line emits.
pub open spec fn heading_frag(depth: nat, content: Seq<char>) -> Seq<char> {
    "<h"@ + dec_spec(depth) + ">"@ + content + "</h"@ + dec_spec(depth) + ">"@
}

/// The fragment a list item emits.
pub open spec fn li_frag(content: Seq<char>) -> Seq<char> {
    "<li>"@ + content + "</li>"@
}

/// The meaning of the line loop from line index `i` with the three block
/// flags and the output built so far: the finished output (closed by the
/// document wrapper), or the failure triple of an expected character, a
/// 1-based line and a 1-based column.
pub open spec fn spec_parse_loop(
    lines: Seq<Seq<char>>,
    i: int,
    in_list: bool,
    in_block: bool,
    paragraph: bool,
    acc: Seq<char>,
) -> Result<Seq<char>, (char, int, int)>
    decreases lines.len() - i,
    via spec_parse_loop_decreases
{
    if i < 0 || i >= lines.len() {
        Ok(acc + spec_emit("</html>"@))
    } else {
        let line = lines[i];
        let ln = i + 1;
        if line.len() == 0 {
            spec_parse_loop(
                lines,
                i + 1,
                in_list,
                in_block,
                false,
                acc + if paragraph {
                    spec_emit("</p>"@)
                } else {
                    Seq::<char>::empty()
                },
            )
        } else {
            let c0 = line[0];
            if c0 == '<' {
                spec_parse_loop(lines, i + 1, in_list, in_block, paragraph, acc + spec_emit(line))
            } else if c0 == '#' {
                let (ni, hs) = spec_consume(line, 0, false, Seq::empty(), Pred::IsChar('#'));
                let depth = match consume_result(hs) {
                    Some(s) => s.len(),
                    None => 1 as nat,
                };
                let (ni2, _w) = spec_consume(line, ni, false, Seq::empty(), Pred::Space);
                match spec_transform(line, ni2, false) {
                    Err(e) => Err((e.0, ln, e.1)),
                    Ok(content) => spec_parse_loop(
                        lines,
                        i + 1,
                        in_list,
                        in_block,
                        paragraph,
                        acc + spec_emit(heading_frag(depth, content)),
                    ),
                }
            } else if c0 == '-' {
                let acc1 = acc + if !in_list {
                    spec_emit("<ul>"@)
                } else {
                    Seq::<char>::empty()
                };
                let (ni, _s) = spec_consume(line, 1, false, Seq::empty(), Pred::Space);
                match spec_transform(line, ni, false) {
                    Err(e) => Err((e.0, ln, e.1)),
                    Ok(content) => {
                        let acc2 = acc1 + spec_emit(li_frag(content));
                        let keep = if i + 1 < lines.len() {
                            starts_with_char(lines[i + 1], '-')
                        } else {
                            false
                        };
                        let acc3 = acc2 + if !keep {
                            spec_emit("</ul>"@)
                        } else {
                            Seq::<char>::empty()
                        };
                        spec_parse_loop(lines, i + 1, keep, in_block, paragraph, acc3)
                    },
                }
            } else if c0 == '>' {
                let acc1 = acc + if !paragraph {
                    spec_emit("<p>"@)
                } else {
                    Seq::<char>::empty()
                };
                let acc2 = acc1 + if !in_block {
                    spec_emit("<blockquote>"@)
                } else {
                    Seq::<char>::empty()
                };
                let (ni, _s) = spec_consume(line, 1, false, Seq::empty(), Pred::Space);
                match spec_transform(line, ni, false) {
                    Err(e) => Err((e.0, ln, e.1)),
                    Ok(content) => {
                        let acc3 = acc2 + spec_emit(content);
                        let keep = if i + 1 < lines.len() {
                            starts_with_char(lines[i + 1], '>')
                        } else {
                            true
                        };
                        let acc4 = acc3 + if !keep {
                            spec_emit("</blockquote>"@)
                        } else {
                            Seq::<char>::empty()
                        };
                        spec_parse_loop(lines, i + 1, in_list, keep, true, acc4)
                    },
                }
            } else if c0 == '`' {
                let acc1 = acc + if !paragraph {
                    spec_emit("<p>"@)
                } else {
                    Seq::<char>::empty()
                };
                let k = tick_run(line, 0);
                if k == 3 {
                    let f = find_fence(lines, i + 1);
                    let acc2 = acc1 + spec_emit("<pre><code>"@) + code_lines(lines, i + 1, f)
                        + spec_emit("</pre></code>"@);
                    let resume = if f < lines.len() {
                        f + 1
                    } else {
                        f
                    };
                    spec_parse_loop(lines, resume, in_list, in_block, true, acc2)
                } else {
                    match spec_transform(line, k, true) {
                        Err(e) => Err((e.0, ln, e.1)),
                        Ok(s) => spec_parse_loop(
                            lines,
                            i + 1,
                            in_list,
                            in_block,
                            true,
                            acc1 + spec_emit(s),
                        ),
                    }
                }
            } else if is_digit_char(c0) {
                let acc1 = acc + if !paragraph {
                    spec_emit("<p>"@)
                } else {
                    Seq::<char>::empty()
                };
                let acc2 = acc1 + if !in_list {
                    spec_emit("<ol>"@)
                } else {
                    Seq::<char>::empty()
                };
                let (ni, _s) = spec_consume(line, 0, false, Seq::empty(), Pred::Digit);
                match spec_expect(line, ni, '.') {
                    Err(ec) => Err(('.', ln, ec)),
                    Ok(n2) => match spec_transform(line, n2, false) {
                        Err(e) => Err((e.0, ln, e.1)),
                        Ok(content) => {
                            let acc3 = acc2 + spec_emit(li_frag(content));
                            let keep = if i + 1 < lines.len() {
                                digit_start(lines[i + 1])
                            } else {
                                true
                            };
                            let acc4 = acc3 + if !keep {
                                spec_emit("</ol>"@)
                            } else {
                                Seq::<char>::empty()
                            };
                            spec_parse_loop(lines, i + 1, keep, in_block, true, acc4)
                        },
                    },
                }
            } else {
                let acc1 = acc + if !paragraph {
                    spec_emit("<p>"@)
                } else {
                    Seq::<char>::empty()
                };
                match spec_transform(line, 0, false) {
                    Err(e) => Err((e.0, ln, e.1)),
                    Ok(s) => spec_parse_loop(lines, i + 1, in_list, in_block, true, acc1 + spec_emit(s)),
                }
            }
        }
    }
}

#[via_fn]
proof fn spec_parse_loop_decreases(
    lines: Seq<Seq<char>>,
    i: int,
    in_list: bool,
    in_block: bool,
    paragraph: bool,
    acc: Seq<char>,
) {
    if 0 <= i < lines.len() {
        lemma_find_fence_bounds(lines, i + 1);
    }
}

/// What converting a whole document yields: the document wrapper around
/// the line loop run from a fresh state.
pub open spec fn spec_lex(doc: Seq<char>) -> Result<Seq<char>, (char, int, int)> {
    spec_parse_loop(
        spec_lines(doc),
        0,
        false,
        false,
        true,
        spec_emit("<!DOCTYPE html>"@) + spec_emit("<html>"@),
    )
}

proof fn lemma_prefix_add(a: Seq<char>, x: Seq<char>)
    ensures
        a.is_prefix_of(a + x),
{
    assert(a =~= (a + x).subrange(0, a.len() as int));
}

proof fn lemma_prefix_trans(a: Seq<char>, m: Seq<char>, out: Seq<char>)
    requires
        a.is_prefix_of(m),
        m.is_prefix_of(out),
    ensures
        a.is_prefix_of(out),
{
    assert(a =~= out.subrange(0, a.len() as int));
}

proof fn step_conclude(
    lines: Seq<Seq<char>>,
    j: int,
    l2: bool,
    b2: bool,
    p2: bool,
    acc: Seq<char>,
    acc2: Seq<char>,
)
    requires
        acc.is_prefix_of(acc2),
        spec_parse_loop(lines, j, l2, b2, p2, acc2) matches Ok(out) ==> acc2.is_prefix_of(out)
            && spec_emit("</html>"@).is_suffix_of(out),
    ensures
        spec_parse_loop(lines, j, l2, b2, p2, acc2) matches Ok(out) ==> acc.is_prefix_of(out)
            && spec_emit("</html>"@).is_suffix_of(out),
{
    match spec_parse_loop(lines, j, l2, b2, p2, acc2) {
        Ok(out) => {
            lemma_prefix_trans(acc, acc2, out);
        },
        Err(_) => {},
    }
}

/// Whatever state the line loop is in, a successful run only appends to
/// the output it was given, and ends it with the closing wrapper line.
#[verifier::rlimit(100)]
#[verifier::spinoff_prover]
proof fn lemma_parse_loop_wrapped(
    lines: Seq<Seq<char>>,
    i: int,
    l: bool,
    b: bool,
    p: bool,
    acc: Seq<char>,
)
    ensures
        spec_parse_loop(lines, i, l, b, p, acc) matches Ok(out) ==> acc.is_prefix_of(out)
            && spec_emit("</html>"@).is_suffix_of(out),
    decreases lines.len() - i,
{
    if i < 0 || i >= lines.len() {
        let out = acc + spec_emit("</html>"@);
        lemma_prefix_add(acc, spec_emit("</html>"@));
        assert(spec_emit("</html>"@) =~= out.subrange(
            out.len() - spec_emit("</html>"@).len(),
            out.len() as int,
        ));
    } else {
        let line = lines[i];
        if line.len() == 0 {
            let acc2 = acc + if p {
                spec_emit("</p>"@)
            } else {
                Seq::<char>::empty()
            };
            lemma_prefix_add(
                acc,
                if p {
                    spec_emit("</p>"@)
                } else {
                    Seq::<char>::empty()
                },
            );
            lemma_parse_loop_wrapped(lines, i + 1, l, b, false, acc2);
            step_conclude(lines, i + 1, l, b, false, acc, acc2);
        } else {
            let c0 = line[0];
            if c0 == '<' {
                let acc2 = acc + spec_emit(line);
                lemma_prefix_add(acc, spec_emit(line));
                lemma_parse_loop_wrapped(lines, i + 1, l, b, p, acc2);
                step_conclude(lines, i + 1, l, b, p, acc, acc2);
            } else if c0 == '#' {
                let (ni, hs) = spec_consume(line, 0, false, Seq::empty(), Pred::IsChar('#'));
                let depth = match consume_result(hs) {
                    Some(t) => t.len(),
                    None => 1 as nat,
                };
                let (ni2, _w) = spec_consume(line, ni, false, Seq::empty(), Pred::Space);
                match spec_transform(line, ni2, false) {
                    Err(_) => {},
                    Ok(content) => {
                        let acc2 = acc + spec_emit(heading_frag(depth, content));
                        lemma_prefix_add(acc, spec_emit(heading_frag(depth, content)));
                        lemma_parse_loop_wrapped(lines, i + 1, l, b, p, acc2);
                        step_conclude(lines, i + 1, l, b, p, acc, acc2);
                    },
                }
            } else if c0 == '-' {
                let acc1 = acc + if !l {
                    spec_emit("<ul>"@)
                } else {
                    Seq::<char>::empty()
                };
                let (ni, _t) = spec_consume(line, 1, false, Seq::empty(), Pred::Space);
                match spec_transform(line, ni, false) {
                    Err(_) => {},
                    Ok(content) => {
                        let acc2 = acc1 + spec_emit(li_frag(content));
                        let keep = if i + 1 < lines.len() {
                            starts_with_char(lines[i + 1], '-')
                        } else {
                            false
                        };
                        let acc3 = acc2 + if !keep {
                            spec_emit("</ul>"@)
                        } else {
                            Seq::<char>::empty()
                        };
                        assert(acc.is_prefix_of(acc3)) by {
                            assert(acc =~= acc3.subrange(0, acc.len() as int));
                        }
                        lemma_parse_loop_wrapped(lines, i + 1, keep, b, p, acc3);
                        step_conclude(lines, i + 1, keep, b, p, acc, acc3);
                    },
                }
            } else if c0 == '>' {
                let acc1 = acc + if !p {
                    spec_emit("<p>"@)
                } else {
                    Seq::<char>::empty()
                };
                let acc2 = acc1 + if !b {
                    spec_emit("<blockquote>"@)
                } else {
                    Seq::<char>::empty()
                };
                let (ni, _t) = spec_consume(line, 1, false, Seq::empty(), Pred::Space);
                match spec_transform(line, ni, false) {
                    Err(_) => {},
                    Ok(content) => {
                        let acc3 = acc2 + spec_emit(content);
                        let keep = if i + 1 < lines.len() {
                            starts_with_char(lines[i + 1], '>')
                        } else {
                            true
                        };
                        let acc4 = acc3 + if !keep {
                            spec_emit("</blockquote>"@)
                        } else {
                            Seq::<char>::empty()
                        };
                        assert(acc.is_prefix_of(acc4)) by {
                            assert(acc =~= acc4.subrange(0, acc.len() as int));
                        }
                        lemma_parse_loop_wrapped(lines, i + 1, l, keep, true, acc4);
                        step_conclude(lines, i + 1, l, keep, true, acc, acc4);
                    },
                }
            } else if c0 == '`' {
                let acc1 = acc + if !p {
                    spec_emit("<p>"@)
                } else {
                    Seq::<char>::empty()
                };
                let k = tick_run(line, 0);
                if k == 3 {
                    let f = find_fence(lines, i + 1);
                    let acc2 = acc1 + spec_emit("<pre><code>"@) + code_lines(lines, i + 1, f)
                        + spec_emit("</pre></code>"@);
                    let resume = if f < lines.len() {
                        f + 1
                    } else {
                        f
                    };
                    assert(acc.is_prefix_of(acc2)) by {
                        assert(acc =~= acc2.subrange(0, acc.len() as int));
                    }
                    lemma_find_fence_bounds(lines, i + 1);
                    lemma_parse_loop_wrapped(lines, resume, l, b, true, acc2);
                    step_conclude(lines, resume, l, b, true, acc, acc2);
                } else {
                    match spec_transform(line, k, true) {
                        Err(_) => {},
                        Ok(t) => {
                            let acc2 = acc1 + spec_emit(t);
                            assert(acc.is_prefix_of(acc2)) by {
                                assert(acc =~= acc2.subrange(0, acc.len() as int));
                            }
                            lemma_parse_loop_wrapped(lines, i + 1, l, b, true, acc2);
                            step_conclude(lines, i + 1, l, b, true, acc, acc2);
                        },
                    }
                }
            } else if is_digit_char(c0) {
                let acc1 = acc + if !p {
                    spec_emit("<p>"@)
                } else {
                    Seq::<char>::empty()
                };
                let acc2 = acc1 + if !l {
                    spec_emit("<ol>"@)
                } else {
                    Seq::<char>::empty()
                };
                let (ni, _t) = spec_consume(line, 0, false, Seq::empty(), Pred::Digit);
                match spec_expect(line, ni, '.') {
                    Err(_) => {},
                    Ok(n2) => {
                        match spec_transform(line, n2, false) {
                            Err(_) => {},
                            Ok(content) => {
                                let acc3 = acc2 + spec_emit(li_frag(content));
                                let keep = if i + 1 < lines.len() {
                                    digit_start(lines[i + 1])
                                } else {
                                    true
                                };
                                let acc4 = acc3 + if !keep {
                                    spec_emit("</ol>"@)
                                } else {
                                    Seq::<char>::empty()
                                };
                                assert(acc.is_prefix_of(acc4)) by {
                                    assert(acc =~= acc4.subrange(0, acc.len() as int));
                                }
                                lemma_parse_loop_wrapped(lines, i + 1, keep, b, true, acc4);
                                step_conclude(lines, i + 1, keep, b, true, acc, acc4);
                            },
                        }
                    },
                }
            } else {
                let acc1 = acc + if !p {
                    spec_emit("<p>"@)
                } else {
                    Seq::<char>::empty()
                };
                match spec_transform(line, 0, false) {
                    Err(_) => {},
                    Ok(t) => {
                        let acc2 = acc1 + spec_emit(t);
                        assert(acc.is_prefix_of(acc2)) by {
                            assert(acc =~= acc2.subrange(0, acc.len() as int));
                        }
                        lemma_parse_loop_wrapped(lines, i + 1, l, b, true, acc2);
                        step_conclude(lines, i + 1, l, b, true, acc, acc2);
                    },
                }
            }
        }
    }
}

/// Every successful conversion carries the document wrapper: the output
/// begins with the doctype and opening tag lines and ends with the
/// closing tag line, whatever the document holds.
pub proof fn lemma_lex_wrapped(doc: Seq<char>)
    ensures
        spec_lex(doc) matches Ok(out) ==> ("<!DOCTYPE html>\n<html>\n"@).is_prefix_of(out) && (
        "</html>\n"@).is_suffix_of(out),
{
    let start = spec_emit("<!DOCTYPE html>"@) + spec_emit("<html>"@);
    lemma_parse_loop_wrapped(spec_lines(doc), 0, false, false, true, start);
    reveal_strlit("<!DOCTYPE html>");
    reveal_strlit("<html>");
    reveal_strlit("</html>");
    reveal_strlit("<!DOCTYPE html>\n<html>\n");
    reveal_strlit("</html>\n");
    assert(start =~= "<!DOCTYPE html>\n<html>\n"@);
    assert(spec_emit("</html>"@) =~= "</html>\n"@);
}

/// A fenced code block, as one law over the whole run: from a line whose
/// leading backtick run is exactly three, the loop emits the opening tag
/// pair, then every line up to the closing fence verbatim and in order
/// (each nonempty one followed by its newline, none inline-interpreted),
/// then the closing tag pair, and continues after the closing fence with
/// the list and blockquote state untouched.
pub proof fn lemma_fenced_block(
    lines: Seq<Seq<char>>,
    i: int,
    in_list: bool,
    in_block: bool,
    paragraph: bool,
    acc: Seq<char>,
)
    requires
        0 <= i < lines.len(),
        lines[i].len() > 0,
        lines[i][0] == '`',
        tick_run(lines[i], 0) == 3,
    ensures
        ({
            let f = find_fence(lines, i + 1);
            let opened = acc + if !paragraph {
                spec_emit("<p>"@)
            } else {
                Seq::<char>::empty()
            };
            let block = opened + spec_emit("<pre><code>"@) + code_lines(lines, i + 1, f)
                + spec_emit("</pre></code>"@);
            let resume = if f < lines.len() {
                f + 1
            } else {
                f
            };
            &&& spec_parse_loop(lines, i, in_list, in_block, paragraph, acc) == spec_parse_loop(
                lines,
                resume,
                in_list,
                in_block,
                true,
                block,
            )
            &&& i + 1 <= f <= lines.len()
            &&& forall|j: int| i + 1 <= j < f ==> !is_fence(#[trigger] lines[j])
            &&& (f < lines.len() ==> is_fence(lines[f]))
        }),
{
    lemma_find_fence_bounds(lines, i + 1);
}

/// Builds a heading fragment.
fn build_heading(depth: usize, content: &Vec<char>) -> (v: Vec<char>)
    ensures
        v@ == heading_frag(depth as nat, content@),
{
    let mut v = str_to_chars("<h");
    push_dec(depth, &mut v);
    v.push('>');
    append_chars(&mut v, content);
    let e = str_to_chars("</h");
    append_chars(&mut v, &e);
    push_dec(depth, &mut v);
    v.push('>');
    proof {
        reveal_strlit(">");
        assert(v@ =~= heading_frag(depth as nat, content@));
    }
    v
}

/// Builds a list-item fragment.
fn build_li(content: &Vec<char>) -> (v: Vec<char>)
    ensures
        v@ == li_frag(content@),
{
    let mut v = str_to_chars("<li>");
    append_chars(&mut v, content);
    let e = str_to_chars("</li>");
    append_chars(&mut v, &e);
    proof {
        assert(v@ =~= li_frag(content@));
    }
    v
}

impl Lexer {
    /// Whether the upcoming line starts with `c`; at the end of the
    /// document the answer is `at_end` (a blockquote is kept open there,
    /// an unordered list is closed).
    fn peek_starts(&self, c: char, at_end: bool) -> (r: bool)
        ensures
            r == if (self.line as int) < self.lines@.len() {
                starts_with_char(self.lines_view()[self.line as int], c)
            } else {
                at_end
            },
    {
        match self.peek_line() {
            Some(next) => next.len() > 0 && next[0] == c,
            None => at_end,
        }
    }

    /// Whether the upcoming line starts with a digit; at the end of the
    /// document, the open construct is kept.
    fn peek_digit(&self) -> (r: bool)
        ensures
            r == if (self.line as int) < self.lines@.len() {
                digit_start(self.lines_view()[self.line as int])
            } else {
                true
            },
    {
        match self.peek_line() {
            Some(next) => {
                if next.len() > 0 {
                    is_digit(next[0])
                } else {
                    false
                }
            },
            None => true,
        }
    }

    /// Emits a fenced code block: the opening tag pair, each body line
    /// verbatim, and the closing tag pair.
    fn emit_code_block(&mut self, v: &Vec<Vec<char>>)
        ensures
            final(self).lines == old(self).lines,
            final(self).line == old(self).line,
            final(self).col == old(self).col,
            final(self).output@ == old(self).output@ + spec_emit("<pre><code>"@) + emit_all(
                views(v@),
            ) + spec_emit("</pre></code>"@),
    {
        self.emit("<pre><code>");
        proof {
            assert(emit_all(views(v@).subrange(0, 0)) =~= Seq::<char>::empty());
            assert(self.output@ =~= old(self).output@ + spec_emit("<pre><code>"@) + emit_all(
                views(v@).subrange(0, 0),
            ));
        }
        let mut t: usize = 0;
        while t < v.len()
            invariant
                t <= v.len(),
                self.lines == old(self).lines,
                self.line == old(self).line,
                self.col == old(self).col,
                self.output@ == old(self).output@ + spec_emit("<pre><code>"@) + emit_all(
                    views(v@).subrange(0, t as int),
                ),
            decreases v.len() - t,
        {
            self.emit_chars(&v[t]);
            t = t + 1;
            proof {
                assert(views(v@).subrange(0, t as int).drop_last() =~= views(v@).subrange(
                    0,
                    t - 1,
                ));
                assert(views(v@).subrange(0, t as int).last() == v@[t - 1]@);
                assert(self.output@ =~= old(self).output@ + spec_emit("<pre><code>"@) + emit_all(
                    views(v@).subrange(0, t as int),
                ));
            }
        }
        proof {
            assert(views(v@).subrange(0, v@.len() as int) =~= views(v@));
        }
        self.emit("</pre></code>");
    }

    /// Consumes the run of backticks under the cursor and returns its
    /// length.
    fn take_ticks(&mut self) -> (k: usize)
        requires
            old(self).wf(),
            1 <= old(self).line,
        ensures
            final(self).wf(),
            final(self).lines == old(self).lines,
            final(self).line == old(self).line,
            final(self).output == old(self).output,
            k as int == tick_run(old(self).cur(), old(self).col as int),
            final(self).col == old(self).col + k,
    {
        let ghost line0 = old(self).cur();
        let ghost c0 = old(self).col as int;
        let mut k: usize = 0;
        loop
            invariant
                self.wf(),
                1 <= self.line,
                self.lines == old(self).lines,
                self.line == old(self).line,
                self.output == old(self).output,
                self.col == old(self).col + k,
                tick_run(line0, c0) == k + tick_run(line0, self.col as int),
            decreases line0.len() - self.col,
        {
            match self.peek_char() {
                Some(c) => {
                    if c == '`' {
                        let _ = self.next_char();
                        k = k + 1;
                        proof {
                            assert(tick_run(line0, self.col - 1) == 1 + tick_run(
                                line0,
                                self.col as int,
                            ));
                        }
                    } else {
                        proof {
                            assert(tick_run(line0, self.col as int) == 0);
                        }
                        return k;
                    }
                },
                None => {
                    proof {
                        assert(tick_run(line0, self.col as int) == 0);
                    }
                    return k;
                },
            }
        }
    }

    /// Consumes the body of a fenced code block, up to and including the
    /// closing fence line (or the document's end), and returns the body
    /// lines.
    fn collect_fence_body(&mut self) -> (v: Vec<Vec<char>>)
        requires
            old(self).wf(),
        ensures
            final(self).wf(),
            final(self).lines == old(self).lines,
            final(self).output == old(self).output,
            ({
                let f = find_fence(old(self).lines_view(), old(self).line as int);
                &&& views(v@) == old(self).lines_view().subrange(old(self).line as int, f)
                &&& final(self).line as int == if f < old(self).lines_view().len() {
                    f + 1
                } else {
                    f
                }
            }),
    {
        let ghost lv = old(self).lines_view();
        let ghost i0 = old(self).line as int;
        let mut v: Vec<Vec<char>> = Vec::new();
        proof {
            assert(views(v@) =~= lv.subrange(i0, i0));
        }
        loop
            invariant
                self.wf(),
                self.lines == old(self).lines,
                self.output == old(self).output,
                i0 <= self.line as int <= lv.len(),
                views(v@) == lv.subrange(i0, self.line as int),
                forall|j: int| i0 <= j < self.line as int ==> !is_fence(#[trigger] lv[j]),
            decreases lv.len() - self.line,
        {
            let ghost m = self.line as int;
            match self.next_line() {
                None => {
                    proof {
                        lemma_find_fence_at(lv, i0, m);
                    }
                    return v;
                },
                Some(l) => {
                    if is_fence_vec(&l) {
                        proof {
                            lemma_find_fence_at(lv, i0, m);
                        }
                        return v;
                    } else {
                        proof {
                            crate::lexer::lemma_views_push(v@, l);
                        }
                        v.push(l);
                        proof {
                            assert(views(v@) =~= lv.subrange(i0, self.line as int));
                        }
                    }
                },
            }
        }
    }

    /// A line that starts with `<`: raw passthrough, emitted exactly as
    /// it stands, with no inline transform.
    fn line_html(&mut self, in_list: bool, in_block: bool, paragraph: bool) -> (r: (
        bool,
        bool,
        bool,
    ))
        requires
            old(self).wf(),
            1 <= old(self).line <= old(self).lines@.len(),
            old(self).col == 0,
            old(self).cur().len() > 0,
            old(self).cur()[0] == '<',
        ensures
            final(self).wf(),
            final(self).lines == old(self).lines,
            final(self).line == old(self).line,
            spec_parse_loop(
                old(self).lines_view(),
                old(self).line - 1,
                in_list,
                in_block,
                paragraph,
                old(self).output@,
            ) == spec_parse_loop(
                old(self).lines_view(),
                final(self).line as int,
                r.0,
                r.1,
                r.2,
                final(self).output@,
            ),
    {
        let ghost lv = old(self).lines_view();
        let ghost pi = old(self).line - 1;
        proof {
            assert(old(self).cur() == lv[pi]);
        }
        let l = crate::lexer::copy_chars(&self.lines[self.line - 1]);
        self.emit_chars(&l);
        proof {
            assert(spec_parse_loop(lv, pi, in_list, in_block, paragraph, old(self).output@)
                == spec_parse_loop(
                lv,
                self.line as int,
                in_list,
                in_block,
                paragraph,
                self.output@,
            ));
        }
        (in_list, in_block, paragraph)
    }

    /// A heading line: the run of `#` is its depth; the white space after
    /// it is skipped, and the rest is inline content.
    fn line_heading(&mut self, in_list: bool, in_block: bool, paragraph: bool) -> (r: Result<
        (bool, bool, bool),
        Error,
    >)
        requires
            old(self).wf(),
            1 <= old(self).line <= old(self).lines@.len(),
            old(self).col == 0,
            old(self).cur().len() > 0,
            old(self).cur()[0] == '#',
        ensures
            final(self).wf(),
            final(self).lines == old(self).lines,
            final(self).line == old(self).line,
            match r {
                Ok(fl) => spec_parse_loop(
                    old(self).lines_view(),
                    old(self).line - 1,
                    in_list,
                    in_block,
                    paragraph,
                    old(self).output@,
                ) == spec_parse_loop(
                    old(self).lines_view(),
                    final(self).line as int,
                    fl.0,
                    fl.1,
                    fl.2,
                    final(self).output@,
                ),
                Err(e) => spec_parse_loop(
                    old(self).lines_view(),
                    old(self).line - 1,
                    in_list,
                    in_block,
                    paragraph,
                    old(self).output@,
                ) == Err::<Seq<char>, (char, int, int)>(
                    (e.expected, e.line as int, e.col as int),
                ),
            },
    {
        let ghost lv = old(self).lines_view();
        let ghost pi = old(self).line - 1;
        proof {
            assert(old(self).cur() == lv[pi]);
        }
        let depth: usize = match self.consume_while_char(Pred::IsChar('#')) {
            Some(hs) => hs.len(),
            None => 1,
        };
        let _w = self.consume_while_char(Pred::Space);
        match self.transform(false) {
            Err(e) => {
                proof {
                    assert(spec_parse_loop(lv, pi, in_list, in_block, paragraph, old(self).output@)
                        == Err::<Seq<char>, (char, int, int)>(
                        (e.expected, e.line as int, e.col as int),
                    ));
                }
                Err(e)
            },
            Ok(content) => {
                let frag = build_heading(depth, &content);
                self.emit_chars(&frag);
                proof {
                    assert(spec_parse_loop(lv, pi, in_list, in_block, paragraph, old(self).output@)
                        == spec_parse_loop(
                        lv,
                        self.line as int,
                        in_list,
                        in_block,
                        paragraph,
                        self.output@,
                    ));
                }
                Ok((in_list, in_block, paragraph))
            },
        }
    }

    /// An unordered list line: opens the list if it is not open, emits
    /// the item, and closes the list unless the next line continues it;
    /// at the document's end the list is closed.
    fn line_dash(&mut self, in_list: bool, in_block: bool, paragraph: bool) -> (r: Result<
        (bool, bool, bool),
        Error,
    >)
        requires
            old(self).wf(),
            1 <= old(self).line <= old(self).lines@.len(),
            old(self).col == 0,
            old(self).cur().len() > 0,
            old(self).cur()[0] == '-',
        ensures
            final(self).wf(),
            final(self).lines == old(self).lines,
            final(self).line == old(self).line,
            match r {
                Ok(fl) => spec_parse_loop(
                    old(self).lines_view(),
                    old(self).line - 1,
                    in_list,
                    in_block,
                    paragraph,
                    old(self).output@,
                ) == spec_parse_loop(
                    old(self).lines_view(),
                    final(self).line as int,
                    fl.0,
                    fl.1,
                    fl.2,
                    final(self).output@,
                ),
                Err(e) => spec_parse_loop(
                    old(self).lines_view(),
                    old(self).line - 1,
                    in_list,
                    in_block,
                    paragraph,
                    old(self).output@,
                ) == Err::<Seq<char>, (char, int, int)>(
                    (e.expected, e.line as int, e.col as int),
                ),
            },
    {
        let ghost lv = old(self).lines_view();
        let ghost pi = old(self).line - 1;
        let ghost was_list = in_list;
        proof {
            assert(old(self).cur() == lv[pi]);
        }
        let mut in_list = in_list;
        if !in_list {
            self.emit("<ul>");
            in_list = true;
        }
        match self.expect_char('-') {
            Err(e) => {
                proof {
                    assert(false);
                }
                return Err(e);
            },
            Ok(_) => {},
        }
        let _ws = self.consume_while_char(Pred::Space);
        match self.transform(false) {
            Err(e) => {
                proof {
                    assert(spec_parse_loop(lv, pi, was_list, in_block, paragraph, old(self).output@)
                        == Err::<Seq<char>, (char, int, int)>(
                        (e.expected, e.line as int, e.col as int),
                    ));
                }
                Err(e)
            },
            Ok(content) => {
                let frag = build_li(&content);
                self.emit_chars(&frag);
                let keep = self.peek_starts('-', false);
                in_list = keep;
                if !in_list {
                    self.emit("</ul>");
                }
                proof {
                    assert(spec_parse_loop(lv, pi, was_list, in_block, paragraph, old(self).output@)
                        == spec_parse_loop(
                        lv,
                        self.line as int,
                        in_list,
                        in_block,
                        paragraph,
                        self.output@,
                    ));
                }
                Ok((in_list, in_block, paragraph))
            },
        }
    }

    /// A blockquote line: reopens a closed paragraph, opens the
    /// blockquote if it is not open, emits the inline content bare, and
    /// closes the blockquote unless the next line continues it.
    fn line_quote(&mut self, in_list: bool, in_block: bool, paragraph: bool) -> (r: Result<
        (bool, bool, bool),
        Error,
    >)
        requires
            old(self).wf(),
            1 <= old(self).line <= old(self).lines@.len(),
            old(self).col == 0,
            old(self).cur().len() > 0,
            old(self).cur()[0] == '>',
        ensures
            final(self).wf(),
            final(self).lines == old(self).lines,
            final(self).line == old(self).line,
            match r {
                Ok(fl) => spec_parse_loop(
                    old(self).lines_view(),
                    old(self).line - 1,
                    in_list,
                    in_block,
                    paragraph,
                    old(self).output@,
                ) == spec_parse_loop(
                    old(self).lines_view(),
                    final(self).line as int,
                    fl.0,
                    fl.1,
                    fl.2,
                    final(self).output@,
                ),
                Err(e) => spec_parse_loop(
                    old(self).lines_view(),
                    old(self).line - 1,
                    in_list,
                    in_block,
                    paragraph,
                    old(self).output@,
                ) == Err::<Seq<char>, (char, int, int)>(
                    (e.expected, e.line as int, e.col as int),
                ),
            },
    {
        let ghost lv = old(self).lines_view();
        let ghost pi = old(self).line - 1;
        let ghost was_block = in_block;
        let ghost was_par = paragraph;
        proof {
            assert(old(self).cur() == lv[pi]);
        }
        let mut in_block = in_block;
        if !paragraph {
            self.emit("<p>");
        }
        let paragraph = true;
        if !in_block {
            self.emit("<blockquote>");
            in_block = true;
        }
        match self.expect_char('>') {
            Err(e) => {
                proof {
                    assert(false);
                }
                return Err(e);
            },
            Ok(_) => {},
        }
        let _ws = self.consume_while_char(Pred::Space);
        match self.transform(false) {
            Err(e) => {
                proof {
                    assert(spec_parse_loop(lv, pi, in_list, was_block, was_par, old(self).output@)
                        == Err::<Seq<char>, (char, int, int)>(
                        (e.expected, e.line as int, e.col as int),
                    ));
                }
                Err(e)
            },
            Ok(content) => {
                self.emit_chars(&content);
                let keep = self.peek_starts('>', true);
                in_block = keep;
                if !in_block {
                    self.emit("</blockquote>");
                }
                proof {
                    assert(spec_parse_loop(lv, pi, in_list, was_block, was_par, old(self).output@)
                        == spec_parse_loop(
                        lv,
                        self.line as int,
                        in_list,
                        in_block,
                        paragraph,
                        self.output@,
                    ));
                }
                Ok((in_list, in_block, paragraph))
            },
        }
    }

    /// A line that starts with a backtick: a run of exactly three is a
    /// fenced code block, consumed verbatim up to the closing fence; any
    /// other run leaves the rest of the line to the transformer, seated
    /// inside a code span.
    fn line_tick(&mut self, in_list: bool, in_block: bool, paragraph: bool) -> (r: Result<
        (bool, bool, bool),
        Error,
    >)
        requires
            old(self).wf(),
            1 <= old(self).line <= old(self).lines@.len(),
            old(self).col == 0,
            old(self).cur().len() > 0,
            old(self).cur()[0] == '`',
        ensures
            final(self).wf(),
            final(self).lines == old(self).lines,
            old(self).line <= final(self).line,
            match r {
                Ok(fl) => spec_parse_loop(
                    old(self).lines_view(),
                    old(self).line - 1,
                    in_list,
                    in_block,
                    paragraph,
                    old(self).output@,
                ) == spec_parse_loop(
                    old(self).lines_view(),
                    final(self).line as int,
                    fl.0,
                    fl.1,
                    fl.2,
                    final(self).output@,
                ),
                Err(e) => spec_parse_loop(
                    old(self).lines_view(),
                    old(self).line - 1,
                    in_list,
                    in_block,
                    paragraph,
                    old(self).output@,
                ) == Err::<Seq<char>, (char, int, int)>(
                    (e.expected, e.line as int, e.col as int),
                ),
            },
    {
        let ghost lv = old(self).lines_view();
        let ghost pi = old(self).line - 1;
        let ghost line0 = old(self).cur();
        let ghost was_par = paragraph;
        proof {
            assert(line0 == lv[pi]);
        }
        if !paragraph {
            self.emit("<p>");
        }
        let paragraph = true;
        let ghost pout1 = self.output@;
        let k = self.take_ticks();
        if k == 3 {
            let ghost i0 = self.line as int;
            let v = self.collect_fence_body();
            let ghost f = find_fence(lv, i0);
            proof {
                lemma_find_fence_bounds(lv, i0);
            }
            self.emit_code_block(&v);
            proof {
                lemma_emit_all_code_lines(lv, i0, f);
                assert(emit_all(views(v@)) == code_lines(lv, i0, f));
                assert(self.output@ =~= pout1 + spec_emit("<pre><code>"@) + code_lines(lv, i0, f)
                    + spec_emit("</pre></code>"@));
                assert(spec_parse_loop(lv, pi, in_list, in_block, was_par, old(self).output@)
                    == spec_parse_loop(
                    lv,
                    self.line as int,
                    in_list,
                    in_block,
                    paragraph,
                    self.output@,
                ));
            }
            Ok((in_list, in_block, paragraph))
        } else {
            match self.transform(true) {
                Err(e) => {
                    proof {
                        assert(spec_parse_loop(lv, pi, in_list, in_block, was_par, old(
                            self,
                        ).output@) == Err::<Seq<char>, (char, int, int)>(
                            (e.expected, e.line as int, e.col as int),
                        ));
                    }
                    Err(e)
                },
                Ok(s2) => {
                    self.emit_chars(&s2);
                    proof {
                        assert(spec_parse_loop(lv, pi, in_list, in_block, was_par, old(
                            self,
                        ).output@) == spec_parse_loop(
                            lv,
                            self.line as int,
                            in_list,
                            in_block,
                            paragraph,
                            self.output@,
                        ));
                    }
                    Ok((in_list, in_block, paragraph))
                },
            }
        }
    }

    /// Any other line: an ordered-list item when it starts with a digit
    /// (its number run and the mandatory `.` consumed), then a paragraph
    /// line run through the transformer.
    fn line_default(&mut self, in_list: bool, in_block: bool, paragraph: bool) -> (r: Result<
        (bool, bool, bool),
        Error,
    >)
        requires
            old(self).wf(),
            1 <= old(self).line <= old(self).lines@.len(),
            old(self).col == 0,
            old(self).cur().len() > 0,
            old(self).cur()[0] != '<',
            old(self).cur()[0] != '#',
            old(self).cur()[0] != '-',
            old(self).cur()[0] != '>',
            old(self).cur()[0] != '`',
        ensures
            final(self).wf(),
            final(self).lines == old(self).lines,
            final(self).line == old(self).line,
            match r {
                Ok(fl) => spec_parse_loop(
                    old(self).lines_view(),
                    old(self).line - 1,
                    in_list,
                    in_block,
                    paragraph,
                    old(self).output@,
                ) == spec_parse_loop(
                    old(self).lines_view(),
                    final(self).line as int,
                    fl.0,
                    fl.1,
                    fl.2,
                    final(self).output@,
                ),
                Err(e) => spec_parse_loop(
                    old(self).lines_view(),
                    old(self).line - 1,
                    in_list,
                    in_block,
                    paragraph,
                    old(self).output@,
                ) == Err::<Seq<char>, (char, int, int)>(
                    (e.expected, e.line as int, e.col as int),
                ),
            },
    {
        let ghost lv = old(self).lines_view();
        let ghost pi = old(self).line - 1;
        let ghost line0 = old(self).cur();
        let ghost was_list = in_list;
        let ghost was_par = paragraph;
        proof {
            assert(line0 == lv[pi]);
        }
        let mut in_list = in_list;
        if !paragraph {
            self.emit("<p>");
        }
        let paragraph = true;
        let s = match self.peek_char() {
            Some(c) => c,
            None => {
                proof {
                    assert(false);
                }
                ' '
            },
        };
        if is_digit(s) {
            if !in_list {
                self.emit("<ol>");
                in_list = true;
            }
            let _d = self.consume_while_char(Pred::Digit);
            match self.expect_char('.') {
                Err(e) => {
                    proof {
                        assert(spec_parse_loop(lv, pi, was_list, in_block, was_par, old(
                            self,
                        ).output@) == Err::<Seq<char>, (char, int, int)>(
                            (e.expected, e.line as int, e.col as int),
                        ));
                    }
                    return Err(e);
                },
                Ok(_) => {},
            }
            match self.transform(false) {
                Err(e) => {
                    proof {
                        assert(spec_parse_loop(lv, pi, was_list, in_block, was_par, old(
                            self,
                        ).output@) == Err::<Seq<char>, (char, int, int)>(
                            (e.expected, e.line as int, e.col as int),
                        ));
                    }
                    return Err(e);
                },
                Ok(content) => {
                    let frag = build_li(&content);
                    self.emit_chars(&frag);
                    let keep = self.peek_digit();
                    in_list = keep;
                    if !in_list {
                        self.emit("</ol>");
                    }
                },
            }
            match self.transform(false) {
                Err(e) => {
                    proof {
                        assert(false);
                    }
                    return Err(e);
                },
                Ok(s2) => {
                    let ghost before = self.output@;
                    self.emit_chars(&s2);
                    proof {
                        assert(s2@.len() == 0);
                        assert(self.output@ =~= before);
                    }
                },
            }
            proof {
                assert(spec_parse_loop(lv, pi, was_list, in_block, was_par, old(self).output@)
                    == spec_parse_loop(
                    lv,
                    self.line as int,
                    in_list,
                    in_block,
                    paragraph,
                    self.output@,
                ));
            }
            Ok((in_list, in_block, paragraph))
        } else {
            match self.transform(false) {
                Err(e) => {
                    proof {
                        assert(spec_parse_loop(lv, pi, was_list, in_block, was_par, old(
                            self,
                        ).output@) == Err::<Seq<char>, (char, int, int)>(
                            (e.expected, e.line as int, e.col as int),
                        ));
                    }
                    Err(e)
                },
                Ok(s2) => {
                    self.emit_chars(&s2);
                    proof {
                        assert(spec_parse_loop(lv, pi, was_list, in_block, was_par, old(
                            self,
                        ).output@) == spec_parse_loop(
                            lv,
                            self.line as int,
                            in_list,
                            in_block,
                            paragraph,
                            self.output@,
                        ));
                    }
                    Ok((in_list, in_block, paragraph))
                },
            }
        }
    }

    /// Runs the line loop over the whole document, appending to the
    /// output accumulator: the document wrapper, then each line's block
    /// markup.  The result is exactly what `spec_parse_loop` yields from
    /// a fresh state.
    pub fn parse(&mut self) -> (r: Result<(), Error>)
        requires
            old(self).wf(),
            old(self).line == 0,
        ensures
            final(self).wf(),
            final(self).lines == old(self).lines,
            ({
                let start = old(self).output@ + spec_emit("<!DOCTYPE html>"@) + spec_emit(
                    "<html>"@,
                );
                match r {
                    Ok(_) => spec_parse_loop(old(self).lines_view(), 0, false, false, true, start)
                        == Ok::<Seq<char>, (char, int, int)>(final(self).output@),
                    Err(e) => spec_parse_loop(old(self).lines_view(), 0, false, false, true, start)
                        == Err::<Seq<char>, (char, int, int)>(
                        (e.expected, e.line as int, e.col as int),
                    ),
                }
            }),
    {
        let ghost lv = old(self).lines_view();
        let mut in_list = false;
        let mut in_block = false;
        let mut paragraph = true;
        self.emit("<!DOCTYPE html>");
        self.emit("<html>");
        let ghost start = self.output@;
        while self.line < self.lines.len()
            invariant
                self.wf(),
                self.lines == old(self).lines,
                spec_parse_loop(lv, 0, false, false, true, start) == spec_parse_loop(
                    lv,
                    self.line as int,
                    in_list,
                    in_block,
                    paragraph,
                    self.output@,
                ),
            decreases lv.len() - self.line,
        {
            let ghost pi = self.line as int;
            let ghost pout = self.output@;
            let ghost pp = paragraph;
            match self.next_line() {
                None => {
                    proof {
                        assert(false);
                    }
                },
                Some(_l) => {
                    match self.peek_char() {
                        None => {
                            proof {
                                assert(self.cur() == lv[pi]);
                            }
                            if paragraph {
                                self.emit("</p>");
                            }
                            paragraph = false;
                            proof {
                                assert(spec_parse_loop(lv, pi, in_list, in_block, pp, pout)
                                    == spec_parse_loop(
                                    lv,
                                    self.line as int,
                                    in_list,
                                    in_block,
                                    paragraph,
                                    self.output@,
                                ));
                            }
                        },
                        Some(s) => {
                            proof {
                                assert(self.cur() == lv[pi]);
                            }
                            if s == '<' {
                                let fl = self.line_html(in_list, in_block, paragraph);
                                in_list = fl.0;
                                in_block = fl.1;
                                paragraph = fl.2;
                            } else if s == '#' {
                                match self.line_heading(in_list, in_block, paragraph) {
                                    Err(e) => {
                                        return Err(e);
                                    },
                                    Ok(fl) => {
                                        in_list = fl.0;
                                        in_block = fl.1;
                                        paragraph = fl.2;
                                    },
                                }
                            } else if s == '-' {
                                match self.line_dash(in_list, in_block, paragraph) {
                                    Err(e) => {
                                        return Err(e);
                                    },
                                    Ok(fl) => {
                                        in_list = fl.0;
                                        in_block = fl.1;
                                        paragraph = fl.2;
                                    },
                                }
                            } else if s == '>' {
                                match self.line_quote(in_list, in_block, paragraph) {
                                    Err(e) => {
                                        return Err(e);
                                    },
                                    Ok(fl) => {
                                        in_list = fl.0;
                                        in_block = fl.1;
                                        paragraph = fl.2;
                                    },
                                }
                            } else if s == '`' {
                                match self.line_tick(in_list, in_block, paragraph) {
                                    Err(e) => {
                                        return Err(e);
                                    },
                                    Ok(fl) => {
                                        in_list = fl.0;
                                        in_block = fl.1;
                                        paragraph = fl.2;
                                    },
                                }
                            } else {
                                match self.line_default(in_list, in_block, paragraph) {
                                    Err(e) => {
                                        return Err(e);
                                    },
                                    Ok(fl) => {
                                        in_list = fl.0;
                                        in_block = fl.1;
                                        paragraph = fl.2;
                                    },
                                }
                            }
                        },
                    }
                },
            }
        }
        let ghost endout = self.output@;
        self.emit("</html>");
        proof {
            assert(spec_parse_loop(lv, self.line as int, in_list, in_block, paragraph, endout)
                == Ok::<Seq<char>, (char, int, int)>(self.output@));
        }
        Ok(())
    }

    /// Converts a whole document to HTML: on success the output is
    /// exactly what `spec_lex` yields of the input, and on failure the
    /// expected character with its 1-based line and column are exactly
    /// `spec_lex`'s failure.
    pub fn lex(s: &str) -> (r: Result<String, Error>)
        ensures
            match r {
                Ok(out) => spec_lex(s@) == Ok::<Seq<char>, (char, int, int)>(out@),
                Err(e) => spec_lex(s@) == Err::<Seq<char>, (char, int, int)>(
                    (e.expected, e.line as int, e.col as int),
                ),
            },
    {
        let doc = str_to_chars(s);
        let lines = split_lines(&doc);
        let mut l = Lexer { lines, line: 0, col: 0, output: Vec::new() };
        proof {
            assert(Seq::<char>::empty() + spec_emit("<!DOCTYPE html>"@) + spec_emit("<html>"@)
                =~= spec_emit("<!DOCTYPE html>"@) + spec_emit("<html>"@));
        }
        match l.parse() {
            Ok(_) => Ok(chars_to_string(&l.output)),
            Err(e) => Err(e),
        }
    }
}

} // verus!
