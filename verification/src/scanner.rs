//! The statement scanner: a single left-to-right pass over a chunk of dump
//! text that splits it into blank-line markers, single-line comments and
//! semicolon-terminated statements.
//!
//! The scanner does not parse SQL grammar.  It only tracks a small stack of
//! open delimiters (quotes and parentheses) so that semicolons and comment
//! markers inside quoted strings are not mistaken for boundaries, and so that
//! each emitted statement can be flagged as balanced or not.

use vstd::prelude::*;
use vstd::slice::slice_to_vec;

verus! {

/// The quote character `'`.
pub const QUOTE_BYTE: u8 = 39;

/// The opening parenthesis `(`.
pub const OPEN_PAREN_BYTE: u8 = 40;

/// The closing parenthesis `)`.
pub const CLOSE_PAREN_BYTE: u8 = 41;

/// The dash `-`; two in a row open a single-line comment.
pub const DASH_BYTE: u8 = 45;

/// The line feed character.
pub const NEWLINE_BYTE: u8 = 10;

/// The statement terminator `;`.
pub const SEMICOLON_BYTE: u8 = 59;

/// One marker on the scanner's delimiter stack.
#[derive(Clone, Copy, PartialEq, Eq, Structural, Debug)]
pub enum Delim {
    /// A quote that has been opened and not yet closed.
    Quote,
    /// A parenthesis that has been opened and not yet closed.
    Paren,
    /// A closing parenthesis that matched nothing; it stays on the stack so
    /// that the statement it sits in is later flagged as unbalanced.
    Stray,
}

/// The scanner's whole state between two characters of the chunk.
pub ghost struct ScanModel {
    /// Open delimiters, innermost last.
    pub stack: Seq<Delim>,
    /// True when the scanner is not mid-token: only then can a blank line or
    /// a comment start be recognized.
    pub complete: bool,
    /// True while a single-line comment is being consumed.
    pub in_comment: bool,
    /// Offset of the first character of the unit being built.
    pub start: int,
}

/// A unit of the scan result, at the specification level: the variant, the
/// span it covers (start inclusive, end exclusive) and the covered text.
pub ghost enum SpecUnit {
    /// A bare newline separating statements.
    Blank,
    /// A single-line comment, without its terminating newline.
    Comment { start: int, end: int, text: Seq<u8> },
    /// A statement; `valid` is true when no quote or parenthesis was left
    /// open at its end.
    Query { valid: bool, start: int, end: int, text: Seq<u8> },
}

/// The state the scanner starts a chunk in.
pub open spec fn init_model() -> ScanModel {
    ScanModel { stack: Seq::empty(), complete: true, in_comment: false, start: 0 }
}

/// Whether the innermost open delimiter is `d`.
pub open spec fn top_is(stack: Seq<Delim>, d: Delim) -> bool {
    stack.len() > 0 && stack.last() == d
}

/// The stack after a quote character: a quote closes an open quote and opens
/// one otherwise.  Because a doubled quote closes and immediately reopens, a
/// quoted span survives it unchanged (see `law_doubled_quote_keeps_quote_open`).
pub open spec fn quote_step(stack: Seq<Delim>) -> Seq<Delim> {
    if top_is(stack, Delim::Quote) {
        stack.drop_last()
    } else {
        stack.push(Delim::Quote)
    }
}

/// The stack after a closing parenthesis: it closes an open parenthesis, is
/// plain content inside a quote, and otherwise goes on the stack as a stray
/// marker so the statement can never count as balanced.
pub open spec fn close_paren_step(stack: Seq<Delim>) -> Seq<Delim> {
    if top_is(stack, Delim::Paren) {
        stack.drop_last()
    } else if top_is(stack, Delim::Quote) {
        stack
    } else {
        stack.push(Delim::Stray)
    }
}

/// The scanner's state after reading the character at offset `i` of `q` in
/// state `m`.
pub open spec fn model_step(q: Seq<u8>, i: int, m: ScanModel) -> ScanModel
    recommends
        0 <= i < q.len(),
{
    let b = q[i];
    if m.in_comment {
        if b == NEWLINE_BYTE {
            ScanModel { stack: Seq::empty(), complete: true, in_comment: false, start: i + 1 }
        } else {
            m
        }
    } else if b == QUOTE_BYTE {
        ScanModel { stack: quote_step(m.stack), complete: false, in_comment: false, start: m.start }
    } else if b == OPEN_PAREN_BYTE {
        if top_is(m.stack, Delim::Quote) {
            m
        } else {
            ScanModel {
                stack: m.stack.push(Delim::Paren),
                complete: false,
                in_comment: false,
                start: m.start,
            }
        }
    } else if b == CLOSE_PAREN_BYTE {
        ScanModel {
            stack: close_paren_step(m.stack),
            complete: false,
            in_comment: false,
            start: m.start,
        }
    } else if b == DASH_BYTE {
        if m.complete && i + 1 < q.len() && q[i + 1] == DASH_BYTE {
            ScanModel { stack: m.stack, complete: m.complete, in_comment: true, start: m.start }
        } else {
            m
        }
    } else if b == SEMICOLON_BYTE {
        if top_is(m.stack, Delim::Quote) {
            m
        } else {
            ScanModel { stack: Seq::empty(), complete: true, in_comment: false, start: i + 1 }
        }
    } else {
        m
    }
}

/// The unit emitted, if any, on reading the character at offset `i` of `q`
/// in state `m`.
pub open spec fn step_unit(q: Seq<u8>, i: int, m: ScanModel) -> Option<SpecUnit>
    recommends
        0 <= i < q.len(),
{
    let b = q[i];
    if m.in_comment {
        if b == NEWLINE_BYTE {
            Some(SpecUnit::Comment { start: m.start, end: i, text: q.subrange(m.start, i) })
        } else {
            None
        }
    } else if b == NEWLINE_BYTE && m.complete {
        Some(SpecUnit::Blank)
    } else if b == SEMICOLON_BYTE && !top_is(m.stack, Delim::Quote) {
        Some(
            SpecUnit::Query {
                valid: m.stack.len() == 0,
                start: m.start,
                end: i + 1,
                text: q.subrange(m.start, i + 1),
            },
        )
    } else {
        None
    }
}

/// The sequence an optional unit contributes to the scan result.
pub open spec fn opt_unit_seq(o: Option<SpecUnit>) -> Seq<SpecUnit> {
    match o {
        Some(u) => seq![u],
        None => Seq::empty(),
    }
}

/// The scanner's state just before the character at offset `i` of `q`.
pub open spec fn scan_model_at(q: Seq<u8>, i: int) -> ScanModel
    decreases i,
{
    if i <= 0 {
        init_model()
    } else {
        model_step(q, i - 1, scan_model_at(q, i - 1))
    }
}

/// The units emitted while reading the first `i` characters of `q`.
pub open spec fn units_upto(q: Seq<u8>, i: int) -> Seq<SpecUnit>
    decreases i,
{
    if i <= 0 {
        Seq::empty()
    } else {
        units_upto(q, i - 1) + opt_unit_seq(step_unit(q, i - 1, scan_model_at(q, i - 1)))
    }
}

/// The units emitted at end of chunk for the unterminated remainder, if it is
/// non-empty: an unfinished statement when the scanner is mid-token, the tail
/// of a comment when one is still open, and a blank marker otherwise.
pub open spec fn flush_units(q: Seq<u8>, m: ScanModel) -> Seq<SpecUnit> {
    let len = q.len() as int;
    if m.start < len {
        if !m.complete {
            seq![
                SpecUnit::Query {
                    valid: m.stack.len() == 0,
                    start: m.start,
                    end: len,
                    text: q.subrange(m.start, len),
                },
            ]
        } else if m.in_comment {
            seq![SpecUnit::Comment { start: m.start, end: len, text: q.subrange(m.start, len) }]
        } else {
            seq![SpecUnit::Blank]
        }
    } else {
        Seq::empty()
    }
}

/// The full scan of a chunk: the units emitted along the way, then whatever
/// the end-of-chunk flush adds for the remainder.
pub open spec fn spec_scan(q: Seq<u8>) -> Seq<SpecUnit> {
    units_upto(q, q.len() as int) + flush_units(q, scan_model_at(q, q.len() as int))
}

/// What always holds of the scanner's state before offset `i`: the start
/// offset lies in the consumed prefix; a complete statement has an empty
/// stack; a comment can only be open between tokens; and a quote marker only
/// ever sits on top of the stack.
pub open spec fn model_inv(m: ScanModel, i: int) -> bool {
    &&& 0 <= m.start <= i
    &&& (m.complete ==> m.stack.len() == 0)
    &&& (m.in_comment ==> m.complete)
    &&& forall|j: int| 0 <= j < m.stack.len() - 1 ==> m.stack[j] != Delim::Quote
}

/// One step preserves the state invariant.
proof fn lemma_step_inv(q: Seq<u8>, i: int, m: ScanModel)
    requires
        0 <= i < q.len(),
        model_inv(m, i),
    ensures
        model_inv(model_step(q, i, m), i + 1),
{
    let m2 = model_step(q, i, m);
    let b = q[i];
    if !m.in_comment && b == QUOTE_BYTE {
        if top_is(m.stack, Delim::Quote) {
            assert(forall|j: int|
                0 <= j < m2.stack.len() - 1 ==> m2.stack[j] == m.stack[j] && m.stack[j]
                    != Delim::Quote);
        } else {
            assert(forall|j: int|
                0 <= j < m2.stack.len() - 1 ==> m2.stack[j] == m.stack[j]);
            assert(m.stack.len() > 0 ==> m.stack[m.stack.len() - 1] != Delim::Quote);
        }
    } else if !m.in_comment && b == OPEN_PAREN_BYTE && !top_is(m.stack, Delim::Quote) {
        assert(forall|j: int| 0 <= j < m2.stack.len() - 1 ==> m2.stack[j] == m.stack[j]);
        assert(m.stack.len() > 0 ==> m.stack[m.stack.len() - 1] != Delim::Quote);
    } else if !m.in_comment && b == CLOSE_PAREN_BYTE {
        if top_is(m.stack, Delim::Paren) {
            assert(forall|j: int|
                0 <= j < m2.stack.len() - 1 ==> m2.stack[j] == m.stack[j] && m.stack[j]
                    != Delim::Quote);
        } else if !top_is(m.stack, Delim::Quote) {
            assert(forall|j: int| 0 <= j < m2.stack.len() - 1 ==> m2.stack[j] == m.stack[j]);
            assert(m.stack.len() > 0 ==> m.stack[m.stack.len() - 1] != Delim::Quote);
        }
    }
}

/// The state invariant holds before every offset of every chunk.
pub proof fn lemma_model_inv(q: Seq<u8>, i: int)
    requires
        0 <= i <= q.len(),
    ensures
        model_inv(scan_model_at(q, i), i),
    decreases i,
{
    if i > 0 {
        lemma_model_inv(q, i - 1);
        lemma_step_inv(q, i - 1, scan_model_at(q, i - 1));
    }
}

/// A single-line comment found in a chunk: its span (start inclusive, end
/// exclusive, the terminating newline not included) and its text.
pub struct CommentStatement {
    pub start_index: usize,
    pub end_index: usize,
    pub statement: Vec<u8>,
}

/// A statement found in a chunk: its span (start inclusive, end exclusive,
/// the terminating semicolon included when one was found) and its text.
/// `valid` is true when no quote or parenthesis was left open at its end.
pub struct QueryStatement {
    pub valid: bool,
    pub start_index: usize,
    pub end_index: usize,
    pub statement: Vec<u8>,
}

/// One unit of a scanned chunk.
pub enum Statement {
    /// A bare newline separating statements.
    NewLine,
    /// A single-line comment.
    CommentLine(CommentStatement),
    /// A statement, terminated or trailing.
    Query(QueryStatement),
}

impl View for Statement {
    type V = SpecUnit;

    open spec fn view(&self) -> SpecUnit {
        match self {
            Statement::NewLine => SpecUnit::Blank,
            Statement::CommentLine(c) => SpecUnit::Comment {
                start: c.start_index as int,
                end: c.end_index as int,
                text: c.statement@,
            },
            Statement::Query(s) => SpecUnit::Query {
                valid: s.valid,
                start: s.start_index as int,
                end: s.end_index as int,
                text: s.statement@,
            },
        }
    }
}

/// Splits a chunk of dump text into its ordered units, exactly as the
/// specification-level scan describes: one pass over the bytes, tracking open
/// quotes and parentheses, emitting a blank marker for each separating
/// newline, a comment unit for each single-line comment, and a statement unit
/// at each semicolon found outside quotes as well as for an unterminated
/// remainder.  The flag of a trailing unterminated statement is best-effort:
/// it reports balance so far, not that the statement is finished.
pub fn list_statements(chunk: &[u8]) -> (res: Vec<Statement>)
    ensures
        res@.len() == spec_scan(chunk@).len(),
        forall|k: int| 0 <= k < res@.len() ==> #[trigger] res@[k]@ == spec_scan(chunk@)[k],
{
    let ghost q = chunk@;
    let mut res: Vec<Statement> = Vec::new();
    let mut stack: Vec<Delim> = Vec::new();
    let mut complete: bool = true;
    let mut in_comment: bool = false;
    let mut start: usize = 0;
    let mut i: usize = 0;
    while i < chunk.len()
        invariant
            q == chunk@,
            i <= q.len(),
            stack@ == scan_model_at(q, i as int).stack,
            complete == scan_model_at(q, i as int).complete,
            in_comment == scan_model_at(q, i as int).in_comment,
            start as int == scan_model_at(q, i as int).start,
            res@.len() == units_upto(q, i as int).len(),
            forall|k: int|
                0 <= k < res@.len() ==> #[trigger] res@[k]@ == units_upto(q, i as int)[k],
        decreases q.len() - i,
    {
        proof {
            lemma_model_inv(q, i as int);
        }
        let ghost m = scan_model_at(q, i as int);
        let b = chunk[i];
        if in_comment {
            if b == NEWLINE_BYTE {
                let text = slice_to_vec(&chunk[start..i]);
                res.push(
                    Statement::CommentLine(
                        CommentStatement { start_index: start, end_index: i, statement: text },
                    ),
                );
                stack.clear();
                complete = true;
                in_comment = false;
                start = i + 1;
            }
        } else if b == QUOTE_BYTE {
            if stack.len() > 0 && stack[stack.len() - 1] == Delim::Quote {
                let _ = stack.pop();
                proof {
                    assert(stack@ =~= quote_step(m.stack));
                }
            } else {
                stack.push(Delim::Quote);
            }
            complete = false;
        } else if b == OPEN_PAREN_BYTE {
            if !(stack.len() > 0 && stack[stack.len() - 1] == Delim::Quote) {
                stack.push(Delim::Paren);
                complete = false;
            }
        } else if b == CLOSE_PAREN_BYTE {
            if stack.len() > 0 && stack[stack.len() - 1] == Delim::Paren {
                let _ = stack.pop();
                proof {
                    assert(stack@ =~= close_paren_step(m.stack));
                }
            } else if !(stack.len() > 0 && stack[stack.len() - 1] == Delim::Quote) {
                stack.push(Delim::Stray);
            }
            complete = false;
        } else if b == DASH_BYTE {
            if complete && i + 1 < chunk.len() && chunk[i + 1] == DASH_BYTE {
                in_comment = true;
            }
        } else if b == NEWLINE_BYTE {
            if complete {
                res.push(Statement::NewLine);
            }
        } else if b == SEMICOLON_BYTE {
            if !(stack.len() > 0 && stack[stack.len() - 1] == Delim::Quote) {
                let text = slice_to_vec(&chunk[start..i + 1]);
                res.push(
                    Statement::Query(
                        QueryStatement {
                            valid: stack.len() == 0,
                            start_index: start,
                            end_index: i + 1,
                            statement: text,
                        },
                    ),
                );
                stack.clear();
                complete = true;
                in_comment = false;
                start = i + 1;
            }
        }
        proof {
            assert(scan_model_at(q, i + 1) == model_step(q, i as int, m));
            assert(units_upto(q, i + 1) =~= units_upto(q, i as int) + opt_unit_seq(
                step_unit(q, i as int, m),
            ));
        }
        i = i + 1;
    }
    proof {
        lemma_model_inv(q, q.len() as int);
    }
    let ghost m = scan_model_at(q, q.len() as int);
    if start < chunk.len() {
        if !complete {
            let text = slice_to_vec(&chunk[start..chunk.len()]);
            res.push(
                Statement::Query(
                    QueryStatement {
                        valid: stack.len() == 0,
                        start_index: start,
                        end_index: chunk.len(),
                        statement: text,
                    },
                ),
            );
        } else if in_comment {
            let text = slice_to_vec(&chunk[start..chunk.len()]);
            res.push(
                Statement::CommentLine(
                    CommentStatement {
                        start_index: start,
                        end_index: chunk.len(),
                        statement: text,
                    },
                ),
            );
        } else {
            res.push(Statement::NewLine);
        }
    }
    res
}

} // verus!
