//! The stream driver: reads a line-buffered byte source incrementally,
//! carries unfinished statements over between reads, runs the scanner on
//! each completed stretch and hands every blank marker, comment line and
//! valid statement to a caller-supplied handler.

use vstd::prelude::*;
use crate::scanner::NEWLINE_BYTE;
use crate::scanner::SEMICOLON_BYTE;
use crate::scanner::SpecUnit;
use crate::scanner::Statement;
use crate::scanner::list_statements;

verus! {

/// The handler's answer after each unit: keep going, or stop the stream.
#[derive(Clone, Copy, PartialEq, Eq, Structural, Debug)]
pub enum ListQueryResult {
    Continue,
    Break,
}

/// A consumer of scanned units.  The driver calls `handle` once per emitted
/// blank marker (a single newline), comment line and valid statement, in
/// stream order; the text is borrowed and valid only for the call.
///
/// `history` is the ghost record of what the handler has been handed: every
/// call to `handle` appends its text and changes nothing else of the record.
/// The dispatch contracts below speak of delivery through it.  The library
/// itself implements this trait nowhere; an implementation is trusted to
/// maintain the record as stated.
pub trait QueryHandler {
    /// The texts this handler has been handed so far, oldest first.  An
    /// implementation written outside verified code may leave this default;
    /// the record is ghost either way, and what the dispatch contracts say
    /// through it is only as good as the implementation's keeping of it.
    open spec fn history(&self) -> Seq<Seq<u8>> {
        Seq::empty()
    }

    /// Receives one unit's text; returns whether the driver should go on.
    fn handle(&mut self, text: &[u8]) -> (r: ListQueryResult)
        ensures
            final(self).history() == old(self).history().push(text@),
    ;
}

/// How a dump stream can fail.
#[derive(Debug)]
pub enum DumpFileError {
    /// The dump file could not be opened.
    DoesNotExist,
    /// Reading from the source failed; the underlying cause is kept.
    ReadError(std::io::Error),
    /// The buffered bytes were not valid text when they were about to be
    /// scanned.
    EncodingError,
}

#[verifier::external_type_specification]
#[verifier::external_body]
pub struct ExIoError(std::io::Error);

#[verifier::external_type_specification]
#[verifier::external_body]
#[verifier::reject_recursive_types(R)]
pub struct ExBufReader<R: ?Sized>(std::io::BufReader<R>);

/// How many consecutive boundary segments with nothing left to flush the
/// driver tolerates before concluding the source is exhausted.  This is a
/// fallback for sources whose reads do not signal end of input reliably; a
/// read of zero bytes ends the loop directly.
pub const EMPTY_SEGMENT_LIMIT: u64 = 49;

/// Whether the bytes are valid UTF-8 text; the answer depends on the bytes
/// alone.
pub uninterp spec fn utf8_valid(bytes: Seq<u8>) -> bool;

/// Relies on std::str::from_utf8: it succeeds exactly on valid UTF-8, and
/// its answer is a function of the bytes alone.
#[verifier::external_body]
fn check_utf8(bytes: &[u8]) -> (r: bool)
    ensures
        r == utf8_valid(bytes@),
{
    std::str::from_utf8(bytes).is_ok()
}

/// Relies on std::io::BufRead::read_until: it reads bytes from the source up
/// to and including the first newline, or to the end of input, appends them
/// to `buf`, and returns how many bytes it appended; only the last appended
/// byte can be a newline.  A return of zero means the source is at end of
/// input.
#[verifier::external_body]
fn read_segment<R: std::io::Read>(
    reader: &mut std::io::BufReader<R>,
    buf: &mut Vec<u8>,
) -> (res: Result<usize, std::io::Error>)
    ensures
        res matches Ok(n) ==> final(buf)@.len() == old(buf)@.len() + n,
        res is Ok ==> final(buf)@.subrange(0, old(buf)@.len() as int) == old(buf)@,
        res is Ok ==> forall|i: int|
            old(buf)@.len() <= i < final(buf)@.len() - 1 ==> #[trigger] final(buf)@[i]
                != NEWLINE_BYTE,
{
    std::io::BufRead::read_until(reader, NEWLINE_BYTE, buf)
}

/// Whether a line-delimited segment looks like the end of a statement: its
/// last character before the trailing newline, if any, is the terminator.
pub open spec fn segment_ends_statement(line: Seq<u8>) -> bool {
    let core = if line.len() > 0 && line.last() == NEWLINE_BYTE {
        line.drop_last()
    } else {
        line
    };
    core.len() > 0 && core.last() == SEMICOLON_BYTE
}

/// Decides `segment_ends_statement` for a segment held in memory.
fn segment_marks_boundary(line: &[u8]) -> (r: bool)
    ensures
        r == segment_ends_statement(line@),
{
    if line.len() == 0 {
        false
    } else if line[line.len() - 1] == NEWLINE_BYTE {
        if line.len() >= 2 {
            line[line.len() - 2] == SEMICOLON_BYTE
        } else {
            false
        }
    } else {
        line[line.len() - 1] == SEMICOLON_BYTE
    }
}

/// What one unit contributes to the carry-over buffer: the text of a
/// statement that is still open, nothing for anything else.
pub open spec fn retained_of(u: SpecUnit) -> Seq<u8> {
    match u {
        SpecUnit::Query { valid, text, .. } => if !valid {
            text
        } else {
            Seq::empty()
        },
        _ => Seq::empty(),
    }
}

/// The bytes the driver must carry over after dispatching these units: the
/// texts of the statements that were still open, in order.
pub open spec fn retained_bytes(units: Seq<SpecUnit>) -> Seq<u8>
    decreases units.len(),
{
    if units.len() == 0 {
        Seq::empty()
    } else {
        retained_bytes(units.drop_last()) + retained_of(units.last())
    }
}

/// What one unit owes the handler: a single newline for a blank marker, the
/// comment text, the text of a statement that is closed; nothing for a
/// statement that is still open.
pub open spec fn delivered_of(u: SpecUnit) -> Seq<Seq<u8>> {
    match u {
        SpecUnit::Blank => seq![seq![NEWLINE_BYTE]],
        SpecUnit::Comment { text, .. } => seq![text],
        SpecUnit::Query { valid, text, .. } => if valid {
            seq![text]
        } else {
            Seq::empty()
        },
    }
}

/// The texts the handler is owed for these units, in order.
pub open spec fn delivered_texts(units: Seq<SpecUnit>) -> Seq<Seq<u8>>
    decreases units.len(),
{
    if units.len() == 0 {
        Seq::empty()
    } else {
        delivered_texts(units.drop_last()) + delivered_of(units.last())
    }
}

/// A record that grew by some suffix still extends what it began as.
proof fn lemma_append_keeps_prefix(a: Seq<Seq<u8>>, b: Seq<Seq<u8>>)
    ensures
        a.is_prefix_of(a + b),
{
    assert((a + b).subrange(0, a.len() as int) =~= a);
}

/// Extending a record keeps every earlier prefix a prefix.
proof fn lemma_prefix_transitive(a: Seq<Seq<u8>>, b: Seq<Seq<u8>>, c: Seq<Seq<u8>>)
    requires
        a.is_prefix_of(b),
        b.is_prefix_of(c),
    ensures
        a.is_prefix_of(c),
{
    assert forall|i: int| 0 <= i < a.len() implies a[i] == c.subrange(0, a.len() as int)[i] by {
        assert(a[i] == b.subrange(0, a.len() as int)[i]);
        assert(b[i] == c.subrange(0, b.len() as int)[i]);
    }
    assert(a =~= c.subrange(0, a.len() as int));
}

/// Hands each unit to the handler in order — a single newline for a blank
/// marker, the comment text for a comment line, the statement text for a
/// statement that is closed — and collects the text of the statements that
/// are still open.  Returns whether the handler asked to stop, and the
/// collected carry-over bytes.  The contract fixes delivery: for some
/// prefix of the units, the handler's history grows by exactly that
/// prefix's owed texts, in order, and the carry-over is exactly that
/// prefix's still-open statement texts; the prefix is everything unless the
/// handler stopped the run, and a stop can only follow a delivery.
pub fn dispatch_units<H: QueryHandler>(units: &Vec<Statement>, query: &mut H) -> (res: (
    bool,
    Vec<u8>,
))
    ensures
        ({
            let us = units@.map_values(|s: Statement| s@);
            exists|k: int|
                {
                    &&& 0 <= k <= us.len()
                    &&& final(query).history() == old(query).history() + delivered_texts(
                        #[trigger] us.take(k),
                    )
                    &&& res.1@ == retained_bytes(us.take(k))
                    &&& (!res.0 ==> k == us.len())
                    &&& (res.0 ==> delivered_texts(us.take(k)).len() > 0)
                }
        }),
        ({
            let us = units@.map_values(|s: Statement| s@);
            (forall|j: int| 0 <= j < us.len() ==> delivered_of(#[trigger] us[j]).len() == 0)
                ==> !res.0
        }),
        old(query).history().is_prefix_of(final(query).history()),
{
    let ghost spec_units = units@.map_values(|s: Statement| s@);
    let mut keep: Vec<u8> = Vec::new();
    let mut j: usize = 0;
    while j < units.len()
        invariant
            j <= units@.len(),
            spec_units == units@.map_values(|s: Statement| s@),
            keep@ == retained_bytes(spec_units.take(j as int)),
            query.history() == old(query).history() + delivered_texts(spec_units.take(j as int)),
        decreases units@.len() - j,
    {
        proof {
            assert(spec_units.take(j + 1).drop_last() =~= spec_units.take(j as int));
            assert(spec_units.take(j + 1).last() == spec_units[j as int]);
        }
        match &units[j] {
            Statement::NewLine => {
                let newline: Vec<u8> = vec![NEWLINE_BYTE];
                proof {
                    assert(newline@ =~= seq![NEWLINE_BYTE]);
                }
                let stop = query.handle(newline.as_slice());
                proof {
                    assert(delivered_texts(spec_units.take(j + 1)) =~= delivered_texts(
                        spec_units.take(j as int),
                    ).push(newline@));
                    assert(query.history() == old(query).history() + delivered_texts(
                        spec_units.take(j + 1),
                    ));
                    assert(retained_bytes(spec_units.take(j + 1)) =~= retained_bytes(
                        spec_units.take(j as int),
                    ));
                    lemma_append_keeps_prefix(
                        old(query).history(),
                        delivered_texts(spec_units.take(j + 1)),
                    );
                }
                match stop {
                    ListQueryResult::Continue => {},
                    ListQueryResult::Break => {
                        return (true, keep);
                    },
                }
            },
            Statement::CommentLine(comment_statement) => {
                let stop = query.handle(comment_statement.statement.as_slice());
                proof {
                    assert(delivered_texts(spec_units.take(j + 1)) =~= delivered_texts(
                        spec_units.take(j as int),
                    ).push(comment_statement.statement@));
                    assert(query.history() == old(query).history() + delivered_texts(
                        spec_units.take(j + 1),
                    ));
                    assert(retained_bytes(spec_units.take(j + 1)) =~= retained_bytes(
                        spec_units.take(j as int),
                    ));
                    lemma_append_keeps_prefix(
                        old(query).history(),
                        delivered_texts(spec_units.take(j + 1)),
                    );
                }
                match stop {
                    ListQueryResult::Continue => {},
                    ListQueryResult::Break => {
                        return (true, keep);
                    },
                }
            },
            Statement::Query(sql_statement) => {
                if sql_statement.valid {
                    let stop = query.handle(sql_statement.statement.as_slice());
                    proof {
                        assert(delivered_texts(spec_units.take(j + 1)) =~= delivered_texts(
                            spec_units.take(j as int),
                        ).push(sql_statement.statement@));
                        assert(query.history() == old(query).history() + delivered_texts(
                            spec_units.take(j + 1),
                        ));
                        assert(retained_bytes(spec_units.take(j + 1)) =~= retained_bytes(
                            spec_units.take(j as int),
                        ));
                        lemma_append_keeps_prefix(
                            old(query).history(),
                            delivered_texts(spec_units.take(j + 1)),
                        );
                    }
                    match stop {
                        ListQueryResult::Continue => {},
                        ListQueryResult::Break => {
                            return (true, keep);
                        },
                    }
                } else {
                    // the statement is still open; keep it for the next
                    // segments
                    keep.extend_from_slice(sql_statement.statement.as_slice());
                    proof {
                        assert(retained_bytes(spec_units.take(j + 1)) =~= retained_bytes(
                            spec_units.take(j as int),
                        ) + sql_statement.statement@);
                        assert(delivered_texts(spec_units.take(j + 1)) =~= delivered_texts(
                            spec_units.take(j as int),
                        ));
                    }
                }
            },
        }
        j = j + 1;
    }
    proof {
        assert(spec_units.take(units@.len() as int) =~= spec_units);
        lemma_append_keeps_prefix(
            old(query).history(),
            delivered_texts(spec_units.take(units@.len() as int)),
        );
    }
    (false, keep)
}

/// Reads the dump incrementally and hands each blank marker, comment line
/// and valid statement to the handler, in order.  Statements that are still
/// open at a segment boundary are carried over and rescanned with the next
/// segments, so a statement split across reads is delivered once, whole.
/// The loop stops at end of input, when the handler answers `Break`, after
/// `EMPTY_SEGMENT_LIMIT` consecutive boundary segments with nothing to
/// flush, or on the first read or encoding failure; an open failure is never
/// reported here.  Whatever was delivered before a stop or an error stands:
/// the handler's history only ever grows, through `dispatch_units`, whose
/// contract fixes each flush's deliveries.
pub fn list_sql_queries_from_dump_reader<R: std::io::Read, H: QueryHandler>(
    dump_reader: std::io::BufReader<R>,
    query: &mut H,
) -> (res: Result<(), DumpFileError>)
    ensures
        res matches Err(e) ==> (e matches DumpFileError::ReadError(_) || e
            matches DumpFileError::EncodingError),
        old(query).history().is_prefix_of(final(query).history()),
{
    let mut reader = dump_reader;
    let mut count_empty_lines: u64 = 0;
    let mut buf_bytes: Vec<u8> = Vec::new();
    // a formal bound on the number of segments, so that each call has a
    // termination measure; no real source comes near it
    let mut segment_budget: u64 = u64::MAX;
    proof {
        assert(query.history().subrange(0, query.history().len() as int) =~= query.history());
    }
    loop
        invariant
            count_empty_lines <= EMPTY_SEGMENT_LIMIT,
            old(query).history().is_prefix_of(query.history()),
        decreases segment_budget,
    {
        if segment_budget == 0 {
            break;
        }
        segment_budget = segment_budget - 1;
        let mut line_buf: Vec<u8> = Vec::new();
        let total_bytes = match read_segment(&mut reader, &mut line_buf) {
            Ok(n) => n,
            Err(e) => {
                return Err(DumpFileError::ReadError(e));
            },
        };
        let boundary = total_bytes <= 1 || segment_marks_boundary(line_buf.as_slice());
        buf_bytes.append(&mut line_buf);
        if total_bytes > 1 {
            // a data-bearing segment breaks any run of blank segments, so
            // the statements it completes are flushed, not mistaken for
            // padding at the end of the source
            count_empty_lines = 0;
        }
        if boundary {
            let mut buf_to_keep: Vec<u8> = Vec::new();
            let mut flushed = false;
            if buf_bytes.len() > 1 && count_empty_lines == 0 {
                if !check_utf8(buf_bytes.as_slice()) {
                    return Err(DumpFileError::EncodingError);
                }
                let units = list_statements(buf_bytes.as_slice());
                let ghost history_before = query.history();
                let (stopped, keep) = dispatch_units(&units, query);
                proof {
                    lemma_prefix_transitive(
                        old(query).history(),
                        history_before,
                        query.history(),
                    );
                }
                if stopped {
                    return Ok(());
                }
                buf_to_keep = keep;
                flushed = true;
            }
            buf_bytes.clear();
            buf_bytes.append(&mut buf_to_keep);
            if flushed {
                count_empty_lines = 0;
            } else {
                if count_empty_lines >= EMPTY_SEGMENT_LIMIT {
                    // the source has looked exhausted for long enough
                    break;
                }
                count_empty_lines = count_empty_lines + 1;
            }
        }
        if total_bytes == 0 {
            // a read of zero bytes is the end of the source
            break;
        }
    }
    Ok(())
}

} // verus!
