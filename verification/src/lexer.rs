//! The tokenizer: scans source text character by character, line by line,
//! accumulating lexemes and emitting classified tokens with their spans.
//!
//! The scanner keeps one accumulation buffer per line, always a contiguous
//! slice `line[start..ci]` of the current line:
//! - a buffer whose first character is `"` is in string mode: it absorbs
//!   every character and is flushed as soon as the closing quote arrives;
//! - a buffer whose first character is `;` is in comment mode: it absorbs
//!   the rest of the line;
//! - the compound lexeme `,@` pending in the buffer is flushed before the
//!   next character is handled;
//! - a whitespace character flushes the buffer and is itself skipped;
//! - the strong characters `(`, `)` and a plain `,` flush the buffer and
//!   are emitted on their own;
//! - a weak character (`"` or `;`) flushes a pending ordinary buffer and
//!   opens its accumulation mode;
//! - the end of the line flushes whatever remains.
//!
//! The whole process is captured by the spec function [`scan_line_from`];
//! [`scan_string`] returns exactly the tokens of [`scan_spec`].

use vstd::prelude::*;
use vstd::string::StrSliceExecFns;

pub mod tokens;

use self::tokens::{classify_spec, is_ws_char, token_views, Token, TokenView};

verus! {

/// Position of the first line feed, or the length if there is none.
pub open spec fn first_nl(s: Seq<char>) -> int
    decreases s.len(),
{
    if s.len() == 0 {
        0
    } else if s[0] == '\n' {
        0
    } else {
        1 + first_nl(s.drop_first())
    }
}

proof fn lemma_first_nl_bounds(s: Seq<char>)
    ensures
        0 <= first_nl(s) <= s.len(),
        first_nl(s) < s.len() ==> s[first_nl(s)] == '\n',
        forall|j: int| 0 <= j < first_nl(s) ==> s[j] != '\n',
    decreases s.len(),
{
    if s.len() > 0 && s[0] != '\n' {
        lemma_first_nl_bounds(s.drop_first());
        assert forall|j: int| 0 <= j < first_nl(s) implies s[j] != '\n' by {
            if j > 0 {
                assert(s.drop_first()[j - 1] == s[j]);
            }
        }
        if first_nl(s) < s.len() {
            assert(s.drop_first()[first_nl(s.drop_first())] == s[first_nl(s)]);
        }
    }
}

proof fn lemma_first_nl_from_scan(s: Seq<char>, m: int)
    requires
        0 <= m <= s.len(),
        forall|j: int| 0 <= j < m ==> s[j] != '\n',
        m < s.len() ==> s[m] == '\n',
    ensures
        first_nl(s) == m,
    decreases s.len(),
{
    if s.len() > 0 && s[0] != '\n' {
        assert forall|j: int| 0 <= j < m - 1 implies s.drop_first()[j] != '\n' by {
            assert(s.drop_first()[j] == s[j + 1]);
        }
        if m - 1 < s.drop_first().len() {
            assert(s.drop_first()[m - 1] == s[m]);
        }
        lemma_first_nl_from_scan(s.drop_first(), m - 1);
    }
}

/// A terminated line with a trailing carriage return loses it: line
/// endings may be `\n` or `\r\n`.
pub open spec fn strip_cr(l: Seq<char>) -> Seq<char> {
    if l.len() > 0 && l[l.len() - 1] == '\r' {
        l.drop_last()
    } else {
        l
    }
}

/// The lines of the input: split at each line feed, dropping a carriage
/// return that precedes one; a final line without a terminator is kept
/// as it stands, and a trailing terminator opens no empty final line.
pub open spec fn lines_spec(s: Seq<char>) -> Seq<Seq<char>>
    decreases s.len(),
    via lines_spec_dec
{
    if s.len() == 0 {
        Seq::empty()
    } else {
        let i = first_nl(s);
        if i == s.len() {
            seq![s.take(i)]
        } else {
            seq![strip_cr(s.take(i))] + lines_spec(s.skip(i + 1))
        }
    }
}

#[via_fn]
proof fn lines_spec_dec(s: Seq<char>) {
    lemma_first_nl_bounds(s);
}

/// The token a flush at columns `s..=e` of `line` emits: row span
/// `(li, li)`, column span `(s, e)`, and the classification of exactly
/// the characters the span covers.
pub open spec fn line_token(line: Seq<char>, li: nat, s: int, e: int) -> TokenView {
    TokenView {
        row: (li, li),
        col: (s as nat, e as nat),
        kind: classify_spec(line.subrange(s, e + 1)),
    }
}

/// The tokens the scanner emits for the rest of `line`, from column `ci`
/// on, with the accumulation buffer holding `line[start..ci]`.
pub open spec fn scan_line_from(line: Seq<char>, li: nat, start: int, ci: int) -> Seq<TokenView>
    decreases line.len() - ci, ci - start,
{
    if !(0 <= start && start <= ci && ci <= line.len()) {
        Seq::empty()
    } else if ci == line.len() {
        // end of line: flush whatever remains
        if start < ci {
            seq![line_token(line, li, start, ci - 1)]
        } else {
            Seq::empty()
        }
    } else {
        let c = line[ci];
        let compound = c == ',' && ci + 1 < line.len() && line[ci + 1] == '@';
        if start < ci && line[start] == '"' {
            // string mode: absorb until the closing quote
            if c == '"' {
                seq![line_token(line, li, start, ci)] + scan_line_from(line, li, ci + 1, ci + 1)
            } else {
                scan_line_from(line, li, start, ci + 1)
            }
        } else if start < ci && line[start] == ';' {
            // comment mode: absorb the rest of the line
            scan_line_from(line, li, start, ci + 1)
        } else if ci - start == 2 && line[start] == ',' && line[start + 1] == '@' && c != '@' {
            // pending compound `,@`: flush it, then reprocess `c`
            seq![line_token(line, li, start, ci - 1)] + scan_line_from(line, li, ci, ci)
        } else if is_ws_char(c) {
            // whitespace: flush the buffer, skip the character
            if start < ci {
                seq![line_token(line, li, start, ci - 1)] + scan_line_from(line, li, ci + 1, ci + 1)
            } else {
                scan_line_from(line, li, ci + 1, ci + 1)
            }
        } else if c == '(' || c == ')' || (c == ',' && !compound) {
            // strong structural character: flush, then emit it alone
            if start < ci {
                seq![
                    line_token(line, li, start, ci - 1),
                    line_token(line, li, ci, ci),
                ] + scan_line_from(line, li, ci + 1, ci + 1)
            } else {
                seq![line_token(line, li, ci, ci)] + scan_line_from(line, li, ci + 1, ci + 1)
            }
        } else if c == '"' || c == ';' {
            // weak structural character: flush, then open its mode
            if start < ci {
                seq![line_token(line, li, start, ci - 1)] + scan_line_from(line, li, ci, ci + 1)
            } else {
                scan_line_from(line, li, start, ci + 1)
            }
        } else {
            // ordinary character: accumulate
            scan_line_from(line, li, start, ci + 1)
        }
    }
}

/// The tokens of a sequence of lines, the first numbered `li`.
pub open spec fn scan_lines_from(lines: Seq<Seq<char>>, li: nat) -> Seq<TokenView>
    decreases lines.len(),
{
    if lines.len() == 0 {
        Seq::empty()
    } else {
        scan_line_from(lines.first(), li, 0, 0) + scan_lines_from(lines.drop_first(), li + 1)
    }
}

/// The complete token stream of a source text.
pub open spec fn scan_spec(s: Seq<char>) -> Seq<TokenView> {
    scan_lines_from(lines_spec(s), 0)
}

/// Does some token's column span cover position `p`?
pub open spec fn covered(toks: Seq<TokenView>, p: int) -> bool {
    exists|a: int| 0 <= a < toks.len() && (#[trigger] toks[a]).col.0 <= p <= toks[a].col.1
}

/// Glue for the span-tiling induction: a flushed head whose tokens tile
/// the interval `[hstart, hend]`, followed by the tokens of a later
/// scanner state, keeps every span property.
proof fn lemma_spans_glue(
    line: Seq<char>,
    li: nat,
    head: Seq<TokenView>,
    rest: Seq<TokenView>,
    hstart: int,
    hend: int,
    rstart: int,
    rci: int,
)
    requires
        0 <= hstart <= hend,
        hend < rstart <= rci <= line.len(),
        hend < line.len(),
        head.len() >= 1,
        head[0].col.0 == hstart,
        forall|a: int|
            0 <= a < head.len() ==> hstart <= (#[trigger] head[a]).col.0 <= head[a].col.1 <= hend,
        forall|a: int, b: int|
            0 <= a < b < head.len() ==> (#[trigger] head[a]).col.1 < (#[trigger] head[b]).col.0,
        forall|p: int| hstart <= p <= hend ==> covered(head, p),
        forall|a: int|
            0 <= a < head.len() ==> (#[trigger] head[a]).row == (li, li) && head[a].kind
                == classify_spec(
                line.subrange(head[a].col.0 as int, head[a].col.1 as int + 1),
            ),
        forall|a: int, b: int|
            0 <= a < b < rest.len() ==> (#[trigger] rest[a]).col.1 < (#[trigger] rest[b]).col.0,
        forall|a: int|
            0 <= a < rest.len() ==> rstart <= (#[trigger] rest[a]).col.0 <= rest[a].col.1
                < line.len(),
        forall|p: int| rstart <= p < rci ==> covered(rest, p),
        forall|p: int| rci <= p < line.len() && !is_ws_char(line[p]) ==> covered(rest, p),
        forall|a: int|
            0 <= a < rest.len() ==> (#[trigger] rest[a]).row == (li, li) && rest[a].kind
                == classify_spec(
                line.subrange(rest[a].col.0 as int, rest[a].col.1 as int + 1),
            ),
    ensures
        forall|a: int, b: int|
            0 <= a < b < (head + rest).len() ==> (#[trigger] (head + rest)[a]).col.1 < (#[trigger] (
            head + rest)[b]).col.0,
        forall|a: int|
            0 <= a < (head + rest).len() ==> hstart <= (#[trigger] (head + rest)[a]).col.0 <= (head
                + rest)[a].col.1 < line.len(),
        (head + rest).len() > 0 && (head + rest)[0].col.0 == hstart,
        forall|p: int| hstart <= p <= hend ==> covered(head + rest, p),
        forall|p: int| rstart <= p < rci ==> covered(head + rest, p),
        forall|p: int| rci <= p < line.len() && !is_ws_char(line[p]) ==> covered(head + rest, p),
        forall|a: int|
            0 <= a < (head + rest).len() ==> (#[trigger] (head + rest)[a]).row == (li, li) && (head
                + rest)[a].kind == classify_spec(
                line.subrange((head + rest)[a].col.0 as int, (head + rest)[a].col.1 as int + 1),
            ),
{
    let toks = head + rest;
    assert forall|a: int, b: int| 0 <= a < b < toks.len() implies (#[trigger] toks[a]).col.1 < (
    #[trigger] toks[b]).col.0 by {
        if b < head.len() {
            assert(toks[a] == head[a] && toks[b] == head[b]);
        } else if a >= head.len() {
            assert(toks[a] == rest[a - head.len()] && toks[b] == rest[b - head.len()]);
        } else {
            assert(toks[a] == head[a] && toks[b] == rest[b - head.len()]);
            assert(head[a].col.1 <= hend);
            assert(rstart <= rest[b - head.len()].col.0);
        }
    }
    assert forall|a: int| 0 <= a < toks.len() implies hstart <= (#[trigger] toks[a]).col.0
        <= toks[a].col.1 < line.len() by {
        if a < head.len() {
            assert(toks[a] == head[a]);
        } else {
            assert(toks[a] == rest[a - head.len()]);
        }
    }
    assert(toks[0] == head[0]);
    assert forall|p: int| hstart <= p <= hend implies covered(toks, p) by {
        assert(covered(head, p));
        let a = choose|a: int|
            0 <= a < head.len() && (#[trigger] head[a]).col.0 <= p <= head[a].col.1;
        assert(toks[a] == head[a]);
    }
    assert forall|p: int| rstart <= p < rci implies covered(toks, p) by {
        assert(covered(rest, p));
        let a = choose|a: int|
            0 <= a < rest.len() && (#[trigger] rest[a]).col.0 <= p <= rest[a].col.1;
        assert(toks[head.len() + a] == rest[a]);
    }
    assert forall|p: int| rci <= p < line.len() && !is_ws_char(line[p]) implies covered(
        toks,
        p,
    ) by {
        assert(covered(rest, p));
        let a = choose|a: int|
            0 <= a < rest.len() && (#[trigger] rest[a]).col.0 <= p <= rest[a].col.1;
        assert(toks[head.len() + a] == rest[a]);
    }
    assert forall|a: int| 0 <= a < toks.len() implies (#[trigger] toks[a]).row == (li, li)
        && toks[a].kind == classify_spec(
        line.subrange(toks[a].col.0 as int, toks[a].col.1 as int + 1),
    ) by {
        if a < head.len() {
            assert(toks[a] == head[a]);
        } else {
            assert(toks[a] == rest[a - head.len()]);
        }
    }
}

/// Span tiling of the scanner, from any reachable state: the tokens it
/// goes on to emit have strictly increasing, pairwise disjoint column
/// spans within the line; a non-empty buffer is flushed first, at its
/// own start column; every buffered position and every later
/// non-whitespace position is covered by exactly one span; and every
/// token's kind is the classification of exactly the characters its
/// span covers on the line.
proof fn lemma_scan_line_spans(line: Seq<char>, li: nat, start: int, ci: int)
    requires
        0 <= start <= ci <= line.len(),
    ensures
        forall|a: int, b: int|
            0 <= a < b < scan_line_from(line, li, start, ci).len() ==> (#[trigger] scan_line_from(
                line,
                li,
                start,
                ci,
            )[a]).col.1 < (#[trigger] scan_line_from(line, li, start, ci)[b]).col.0,
        forall|a: int|
            0 <= a < scan_line_from(line, li, start, ci).len() ==> start <= (
            #[trigger] scan_line_from(line, li, start, ci)[a]).col.0 <= scan_line_from(
                line,
                li,
                start,
                ci,
            )[a].col.1 < line.len(),
        start < ci ==> scan_line_from(line, li, start, ci).len() > 0 && scan_line_from(
            line,
            li,
            start,
            ci,
        )[0].col.0 == start,
        forall|p: int| start <= p < ci ==> covered(scan_line_from(line, li, start, ci), p),
        forall|p: int|
            ci <= p < line.len() && !is_ws_char(line[p]) ==> covered(
                scan_line_from(line, li, start, ci),
                p,
            ),
        forall|a: int|
            0 <= a < scan_line_from(line, li, start, ci).len() ==> (#[trigger] scan_line_from(
                line,
                li,
                start,
                ci,
            )[a]).row == (li, li) && scan_line_from(line, li, start, ci)[a].kind == classify_spec(
                line.subrange(
                    scan_line_from(line, li, start, ci)[a].col.0 as int,
                    scan_line_from(line, li, start, ci)[a].col.1 as int + 1,
                ),
            ),
    decreases line.len() - ci, ci - start,
{
    let toks = scan_line_from(line, li, start, ci);
    if ci == line.len() {
        if start < ci {
            assert(toks == seq![line_token(line, li, start, ci - 1)]);
            assert forall|p: int| start <= p < ci implies covered(toks, p) by {
                assert(toks[0].col.0 <= p <= toks[0].col.1);
            }
        }
    } else {
        let c = line[ci];
        let compound = c == ',' && ci + 1 < line.len() && line[ci + 1] == '@';
        if start < ci && line[start] == '"' {
            if c == '"' {
                lemma_scan_line_spans(line, li, ci + 1, ci + 1);
                let head = seq![line_token(line, li, start, ci)];
                let rest = scan_line_from(line, li, ci + 1, ci + 1);
                assert forall|p: int| start <= p <= ci implies covered(head, p) by {
                    assert(head[0].col.0 <= p <= head[0].col.1);
                }
                lemma_spans_glue(line, li, head, rest, start, ci, ci + 1, ci + 1);
                assert(toks == head + rest);
            } else {
                lemma_scan_line_spans(line, li, start, ci + 1);
            }
        } else if start < ci && line[start] == ';' {
            lemma_scan_line_spans(line, li, start, ci + 1);
        } else if ci - start == 2 && line[start] == ',' && line[start + 1] == '@' && c != '@' {
            lemma_scan_line_spans(line, li, ci, ci);
            let head = seq![line_token(line, li, start, ci - 1)];
            let rest = scan_line_from(line, li, ci, ci);
            assert forall|p: int| start <= p <= ci - 1 implies covered(head, p) by {
                assert(head[0].col.0 <= p <= head[0].col.1);
            }
            lemma_spans_glue(line, li, head, rest, start, ci - 1, ci, ci);
            assert(toks == head + rest);
        } else if is_ws_char(c) {
            lemma_scan_line_spans(line, li, ci + 1, ci + 1);
            if start < ci {
                let head = seq![line_token(line, li, start, ci - 1)];
                let rest = scan_line_from(line, li, ci + 1, ci + 1);
                assert forall|p: int| start <= p <= ci - 1 implies covered(head, p) by {
                    assert(head[0].col.0 <= p <= head[0].col.1);
                }
                lemma_spans_glue(line, li, head, rest, start, ci - 1, ci + 1, ci + 1);
                assert(toks == head + rest);
            }
        } else if c == '(' || c == ')' || (c == ',' && !compound) {
            lemma_scan_line_spans(line, li, ci + 1, ci + 1);
            let rest = scan_line_from(line, li, ci + 1, ci + 1);
            if start < ci {
                let head = seq![
                    line_token(line, li, start, ci - 1),
                    line_token(line, li, ci, ci),
                ];
                assert forall|p: int| start <= p <= ci implies covered(head, p) by {
                    if p <= ci - 1 {
                        assert(head[0].col.0 <= p <= head[0].col.1);
                    } else {
                        assert(head[1].col.0 <= p <= head[1].col.1);
                    }
                }
                lemma_spans_glue(line, li, head, rest, start, ci, ci + 1, ci + 1);
                assert(toks == head + rest);
            } else {
                let head = seq![line_token(line, li, ci, ci)];
                assert forall|p: int| ci <= p <= ci implies covered(head, p) by {
                    assert(head[0].col.0 <= p <= head[0].col.1);
                }
                lemma_spans_glue(line, li, head, rest, ci, ci, ci + 1, ci + 1);
                assert(toks == head + rest);
            }
        } else if c == '"' || c == ';' {
            if start < ci {
                lemma_scan_line_spans(line, li, ci, ci + 1);
                let head = seq![line_token(line, li, start, ci - 1)];
                let rest = scan_line_from(line, li, ci, ci + 1);
                assert forall|p: int| start <= p <= ci - 1 implies covered(head, p) by {
                    assert(head[0].col.0 <= p <= head[0].col.1);
                }
                lemma_spans_glue(line, li, head, rest, start, ci - 1, ci, ci + 1);
                assert(toks == head + rest);
            } else {
                lemma_scan_line_spans(line, li, start, ci + 1);
            }
        } else {
            lemma_scan_line_spans(line, li, start, ci + 1);
        }
    }
}

/// Token span tiling, one line of source at a time: the tokens the
/// scanner emits for a line have strictly increasing, pairwise disjoint
/// column spans lying within the line, and every non-whitespace
/// character position of the line is covered by exactly one of them (the
/// positions left uncovered are whitespace skipped between lexemes).
/// Each token carries the line's number as its row span, and its kind is
/// the classification of exactly the substring its column span covers,
/// so the lexeme a token was made from can be re-derived from its span.
pub proof fn lemma_token_span_tiling(line: Seq<char>, li: nat)
    ensures
        forall|a: int, b: int|
            0 <= a < b < scan_line_from(line, li, 0, 0).len() ==> (#[trigger] scan_line_from(
                line,
                li,
                0,
                0,
            )[a]).col.1 < (#[trigger] scan_line_from(line, li, 0, 0)[b]).col.0,
        forall|a: int|
            0 <= a < scan_line_from(line, li, 0, 0).len() ==> 0 <= (#[trigger] scan_line_from(
                line,
                li,
                0,
                0,
            )[a]).col.0 <= scan_line_from(line, li, 0, 0)[a].col.1 < line.len(),
        forall|p: int|
            0 <= p < line.len() && !is_ws_char(line[p]) ==> covered(
                scan_line_from(line, li, 0, 0),
                p,
            ),
        forall|a: int|
            0 <= a < scan_line_from(line, li, 0, 0).len() ==> (#[trigger] scan_line_from(
                line,
                li,
                0,
                0,
            )[a]).row == (li, li) && scan_line_from(line, li, 0, 0)[a].kind == classify_spec(
                line.subrange(
                    scan_line_from(line, li, 0, 0)[a].col.0 as int,
                    scan_line_from(line, li, 0, 0)[a].col.1 as int + 1,
                ),
            ),
{
    lemma_scan_line_spans(line, li, 0, 0);
}

/// Is the lexeme a self-delimiting strong structural lexeme? A lone
/// comma is one only when the next character is not `@`, because `,@`
/// must stay together.
pub open spec fn is_special_lexeme(s: Seq<char>, next_is_at: bool) -> bool {
    ||| s.len() == 1 && (s[0] == '(' || s[0] == ')' || (s[0] == ',' && !next_is_at))
    ||| s.len() == 2 && s[0] == ',' && s[1] == '@'
}

/// Strong structural lexemes: `(`, `)`, `,@`, and `,` not followed by `@`.
pub fn is_special_char(c: &str, next_is_at: bool) -> (r: bool)
    ensures
        r == is_special_lexeme(c@, next_is_at),
{
    let n = c.unicode_len();
    if n == 1 {
        let c0 = c.get_char(0);
        c0 == '(' || c0 == ')' || (c0 == ',' && !next_is_at)
    } else if n == 2 {
        c.get_char(0) == ',' && c.get_char(1) == '@'
    } else {
        false
    }
}

/// Weak structural characters: the openers of string and comment mode.
pub fn kinda_special_char(c: char) -> (r: bool)
    ensures
        r == (c == '"' || c == ';'),
{
    '"' == c || ';' == c
}

/// Emit the token for a flush covering columns `s..=e` of `line`.
fn emit_token(tokens: &mut Vec<Token>, line: &str, li: usize, s: usize, e: usize)
    requires
        s <= e,
        (e as int) < line@.len(),
        line@.len() <= usize::MAX,
    ensures
        token_views(final(tokens)@) == token_views(old(tokens)@) + seq![
            line_token(line@, li as nat, s as int, e as int),
        ],
{
    let lex = line.substring_char(s, e + 1);
    let t = Token::new((li, li), (s, e), lex.to_owned());
    let ghost before = tokens@;
    tokens.push(t);
    proof {
        assert(t@ == line_token(line@, li as nat, s as int, e as int));
        assert(token_views(tokens@) =~= token_views(before) + seq![t@]);
    }
}

/// Scan one line, appending its tokens; `li` is its zero-based number.
fn scan_line(line: &str, li: usize, tokens: &mut Vec<Token>)
    ensures
        token_views(final(tokens)@) == token_views(old(tokens)@) + scan_line_from(
            line@,
            li as nat,
            0,
            0,
        ),
{
    let n = line.unicode_len();
    let ghost l = line@;
    let ghost lin = li as nat;
    let ghost full = scan_line_from(l, lin, 0, 0);
    let mut start: usize = 0;
    let mut ci: usize = 0;
    while ci < n
        invariant
            0 <= start <= ci <= n,
            n as nat == l.len(),
            l == line@,
            lin == li as nat,
            token_views(old(tokens)@) + full == token_views(tokens@) + scan_line_from(
                l,
                lin,
                start as int,
                ci as int,
            ),
        decreases n - ci,
    {
        let ghost s0 = start as int;
        let ghost c0 = ci as int;
        let ghost tail0 = scan_line_from(l, lin, s0, c0);
        let c = line.get_char(ci);
        let compound = c == ',' && ci + 1 < n && line.get_char(ci + 1) == '@';
        if start < ci && line.get_char(start) == '"' {
            // string mode
            if c == '"' {
                let ghost prevtv = token_views(tokens@);
                emit_token(tokens, line, li, start, ci);
                proof {
                    let head = seq![line_token(l, lin, s0, c0)];
                    let rest = scan_line_from(l, lin, c0 + 1, c0 + 1);
                    assert(tail0 == head + rest);
                    assert(prevtv + (head + rest) =~= (prevtv + head) + rest);
                }
                start = ci + 1;
            } else {
                proof {
                    assert(tail0 == scan_line_from(l, lin, s0, c0 + 1));
                }
            }
            ci = ci + 1;
        } else if start < ci && line.get_char(start) == ';' {
            // comment mode
            proof {
                assert(tail0 == scan_line_from(l, lin, s0, c0 + 1));
            }
            ci = ci + 1;
        } else {
            if ci - start == 2 && line.get_char(start) == ',' && line.get_char(start + 1) == '@'
                && c != '@' {
                // pending compound `,@`
                let ghost prevtv = token_views(tokens@);
                emit_token(tokens, line, li, start, ci - 1);
                proof {
                    let head = seq![line_token(l, lin, s0, c0 - 1)];
                    let rest = scan_line_from(l, lin, c0, c0);
                    assert(tail0 == head + rest);
                    assert(prevtv + (head + rest) =~= (prevtv + head) + rest);
                }
                start = ci;
            }
            let ghost s1 = start as int;
            let ghost tail1 = scan_line_from(l, lin, s1, c0);
            let ws = c == ' ' || c == '\t' || c == '\n' || c == '\r' || c == '\u{b}' || c
                == '\u{c}';
            if ws {
                // whitespace: flush, skip
                if start < ci {
                    let ghost prevtv = token_views(tokens@);
                    emit_token(tokens, line, li, start, ci - 1);
                    proof {
                        let head = seq![line_token(l, lin, s1, c0 - 1)];
                        let rest = scan_line_from(l, lin, c0 + 1, c0 + 1);
                        assert(tail1 == head + rest);
                        assert(prevtv + (head + rest) =~= (prevtv + head) + rest);
                    }
                } else {
                    proof {
                        assert(tail1 == scan_line_from(l, lin, c0 + 1, c0 + 1));
                    }
                }
                start = ci + 1;
                ci = ci + 1;
            } else if c == '(' || c == ')' || (c == ',' && !compound) {
                // strong structural character
                if start < ci {
                    let ghost prevtv = token_views(tokens@);
                    emit_token(tokens, line, li, start, ci - 1);
                    emit_token(tokens, line, li, ci, ci);
                    proof {
                        let h1 = seq![line_token(l, lin, s1, c0 - 1)];
                        let h2 = seq![line_token(l, lin, c0, c0)];
                        let rest = scan_line_from(l, lin, c0 + 1, c0 + 1);
                        assert(seq![
                            line_token(l, lin, s1, c0 - 1),
                            line_token(l, lin, c0, c0),
                        ] =~= h1 + h2);
                        assert(tail1 == (h1 + h2) + rest);
                        assert(prevtv + ((h1 + h2) + rest) =~= ((prevtv + h1) + h2) + rest);
                    }
                } else {
                    let ghost prevtv = token_views(tokens@);
                    emit_token(tokens, line, li, ci, ci);
                    proof {
                        let head = seq![line_token(l, lin, c0, c0)];
                        let rest = scan_line_from(l, lin, c0 + 1, c0 + 1);
                        assert(tail1 == head + rest);
                        assert(prevtv + (head + rest) =~= (prevtv + head) + rest);
                    }
                }
                start = ci + 1;
                ci = ci + 1;
            } else if kinda_special_char(c) {
                // weak structural character
                if start < ci {
                    let ghost prevtv = token_views(tokens@);
                    emit_token(tokens, line, li, start, ci - 1);
                    proof {
                        let head = seq![line_token(l, lin, s1, c0 - 1)];
                        let rest = scan_line_from(l, lin, c0, c0 + 1);
                        assert(tail1 == head + rest);
                        assert(prevtv + (head + rest) =~= (prevtv + head) + rest);
                    }
                    start = ci;
                } else {
                    proof {
                        assert(tail1 == scan_line_from(l, lin, s1, c0 + 1));
                    }
                }
                ci = ci + 1;
            } else {
                // ordinary character: accumulate
                proof {
                    assert(tail1 == scan_line_from(l, lin, s1, c0 + 1));
                }
                ci = ci + 1;
            }
        }
    }
    if start < n {
        let ghost tail = scan_line_from(l, lin, start as int, n as int);
        let ghost prevtv = token_views(tokens@);
        emit_token(tokens, line, li, start, n - 1);
        proof {
            assert(tail == seq![line_token(l, lin, start as int, n as int - 1)]);
            assert(prevtv + tail =~= token_views(tokens@));
        }
    } else {
        proof {
            assert(scan_line_from(l, lin, start as int, n as int) =~= Seq::<TokenView>::empty());
            assert(token_views(tokens@) + Seq::<TokenView>::empty() =~= token_views(tokens@));
        }
    }
}

/// Split the input into its lines; see [`lines_spec`].
fn split_lines(input: &str) -> (lines: Vec<String>)
    ensures
        lines@.map_values(|l: String| l@) == lines_spec(input@),
{
    let n = input.unicode_len();
    let ghost s = input@;
    let mut lines: Vec<String> = Vec::new();
    let mut pos: usize = 0;
    proof {
        assert(s.skip(0) =~= s);
        assert(lines@.map_values(|l: String| l@) =~= Seq::<Seq<char>>::empty());
    }
    while pos < n
        invariant
            0 <= pos <= n,
            n as nat == s.len(),
            s == input@,
            lines@.map_values(|l: String| l@) + lines_spec(s.skip(pos as int)) == lines_spec(s),
        decreases n - pos,
    {
        let ghost t = s.skip(pos as int);
        let mut j: usize = pos;
        while j < n && input.get_char(j) != '\n'
            invariant
                pos <= j <= n,
                n as nat == s.len(),
                s == input@,
                forall|k: int| pos <= k < j ==> s[k] != '\n',
            decreases n - j,
        {
            j = j + 1;
        }
        proof {
            assert forall|k: int| 0 <= k < j - pos implies t[k] != '\n' by {
                assert(t[k] == s[pos + k]);
            }
            if (j as int) - (pos as int) < t.len() {
                assert(t[j - pos] == s[j as int]);
            }
            lemma_first_nl_from_scan(t, j as int - pos as int);
        }
        let line_end = if j < n && j > pos && input.get_char(j - 1) == '\r' {
            j - 1
        } else {
            j
        };
        let lex = input.substring_char(pos, line_end);
        let ghost before = lines@;
        lines.push(lex.to_owned());
        proof {
            let i = j as int - pos as int;
            if j < n {
                assert(strip_cr(t.take(i)) =~= s.subrange(pos as int, line_end as int)) by {
                    assert(t.take(i) =~= s.subrange(pos as int, j as int));
                }
                assert(t.skip(i + 1) =~= s.skip(j + 1));
                assert(lines_spec(t) == seq![strip_cr(t.take(i))] + lines_spec(t.skip(i + 1)));
            } else {
                assert(t.take(i) =~= s.subrange(pos as int, j as int));
                assert(lines_spec(t) == seq![t.take(i)]);
                assert(lines_spec(s.skip(j as int)) + Seq::<Seq<char>>::empty() =~= lines_spec(
                    s.skip(j as int),
                ));
            }
            let bv = before.map_values(|l: String| l@);
            assert(lines@.map_values(|l: String| l@) =~= bv.push(
                s.subrange(pos as int, line_end as int),
            ));
            assert(bv.push(s.subrange(pos as int, line_end as int)) =~= bv + seq![
                s.subrange(pos as int, line_end as int),
            ]);
            assert((bv + seq![s.subrange(pos as int, line_end as int)]) + lines_spec(
                s.skip(j + 1),
            ) =~= bv + (seq![s.subrange(pos as int, line_end as int)] + lines_spec(s.skip(j + 1))));
            assert((bv + seq![s.subrange(pos as int, line_end as int)])
                + Seq::<Seq<char>>::empty() =~= bv + seq![
                s.subrange(pos as int, line_end as int),
            ]);
        }
        pos = if j < n {
            j + 1
        } else {
            n
        };
    }
    proof {
        assert(lines_spec(s.skip(n as int)) =~= Seq::<Seq<char>>::empty());
        assert(lines@.map_values(|l: String| l@) + Seq::<Seq<char>>::empty() =~= lines@.map_values(
            |l: String| l@,
        ));
    }
    lines
}

/// Scan a whole source text into its ordered token sequence; the result
/// is exactly [`scan_spec`] of the input.
pub fn scan_string(input: String) -> (tokens: Vec<Token>)
    ensures
        token_views(tokens@) == scan_spec(input@),
{
    let lines = split_lines(input.as_str());
    let ghost lviews = lines_spec(input@);
    let mut tokens: Vec<Token> = Vec::new();
    let mut li: usize = 0;
    proof {
        assert(lviews.skip(0) =~= lviews);
        assert(token_views(tokens@) =~= Seq::<TokenView>::empty());
    }
    while li < lines.len()
        invariant
            0 <= li <= lines.len(),
            lviews == lines_spec(input@),
            lines@.map_values(|l: String| l@) == lviews,
            lviews.len() == lines@.len(),
            token_views(tokens@) + scan_lines_from(lviews.skip(li as int), li as nat)
                == scan_lines_from(lviews, 0),
        decreases lines.len() - li,
    {
        let ghost before = tokens@;
        let line = &lines[li];
        proof {
            assert(lines@.map_values(|l: String| l@)[li as int] == line@);
            assert(lviews.skip(li as int).first() == lviews[li as int]);
            assert(lviews.skip(li as int).drop_first() =~= lviews.skip(li as int + 1));
        }
        scan_line(line.as_str(), li, &mut tokens);
        proof {
            let head = scan_line_from(line@, li as nat, 0, 0);
            let rest = scan_lines_from(lviews.skip(li as int + 1), li as nat + 1);
            assert(scan_lines_from(lviews.skip(li as int), li as nat) == head + rest);
            assert(token_views(before) + (head + rest) =~= (token_views(before) + head) + rest);
        }
        li = li + 1;
    }
    proof {
        assert(lviews.skip(lviews.len() as int) =~= Seq::<Seq<char>>::empty());
        assert(token_views(tokens@) + Seq::<TokenView>::empty() =~= token_views(tokens@));
    }
    tokens
}

} // verus!
