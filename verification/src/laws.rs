//! Laws of the statement scanner, stated over the specification-level scan
//! that `list_statements` is proved to implement.

use vstd::prelude::*;
use crate::scanner::CLOSE_PAREN_BYTE;
use crate::scanner::DASH_BYTE;
use crate::scanner::Delim;
use crate::scanner::NEWLINE_BYTE;
use crate::scanner::OPEN_PAREN_BYTE;
use crate::scanner::QUOTE_BYTE;
use crate::scanner::SEMICOLON_BYTE;
use crate::scanner::SpecUnit;
use crate::scanner::flush_units;
use crate::scanner::init_model;
use crate::scanner::lemma_model_inv;
use crate::scanner::model_step;
use crate::scanner::scan_model_at;
use crate::scanner::spec_scan;
use crate::scanner::step_unit;
use crate::scanner::top_is;
use crate::scanner::units_upto;

verus! {

/// A byte that the scanner treats as ordinary token content: not a quote,
/// parenthesis, dash, newline or semicolon.
pub open spec fn plain_content_byte(b: u8) -> bool {
    &&& b != QUOTE_BYTE
    &&& b != OPEN_PAREN_BYTE
    &&& b != CLOSE_PAREN_BYTE
    &&& b != DASH_BYTE
    &&& b != NEWLINE_BYTE
    &&& b != SEMICOLON_BYTE
}

/// Reading plain content leaves the scanner in its starting state and emits
/// nothing.
proof fn lemma_plain_prefix(q: Seq<u8>, i: int)
    requires
        0 <= i <= q.len(),
        forall|j: int| 0 <= j < i ==> plain_content_byte(#[trigger] q[j]),
    ensures
        scan_model_at(q, i) == init_model(),
        units_upto(q, i) =~= Seq::<SpecUnit>::empty(),
    decreases i,
{
    if i > 0 {
        lemma_plain_prefix(q, i - 1);
    }
}

/// A chunk of ordinary content terminated by a semicolon scans to exactly
/// one unit: a statement marked valid that spans the whole chunk.
pub proof fn law_plain_terminated_chunk_is_one_valid_statement(q: Seq<u8>)
    requires
        q.len() > 0,
        q[q.len() - 1] == SEMICOLON_BYTE,
        forall|j: int| 0 <= j < q.len() - 1 ==> plain_content_byte(#[trigger] q[j]),
    ensures
        spec_scan(q) =~= seq![
            SpecUnit::Query { valid: true, start: 0, end: q.len() as int, text: q },
        ],
{
    let len = q.len() as int;
    lemma_plain_prefix(q, len - 1);
    let m = scan_model_at(q, len - 1);
    let u = SpecUnit::Query { valid: true, start: 0, end: len, text: q.subrange(0, len) };
    assert(step_unit(q, len - 1, m) == Some(u));
    assert(units_upto(q, len) =~= units_upto(q, len - 1) + seq![u]);
    assert(scan_model_at(q, len) == model_step(q, len - 1, m));
    assert(scan_model_at(q, len).start == len);
    assert(flush_units(q, scan_model_at(q, len)) =~= Seq::<SpecUnit>::empty());
    assert(q.subrange(0, len) =~= q);
}

/// Whether a unit's span is a valid index range into the chunk (start
/// inclusive, end exclusive) whose text is exactly the covered bytes.
pub open spec fn unit_wf(q: Seq<u8>, u: SpecUnit) -> bool {
    match u {
        SpecUnit::Blank => true,
        SpecUnit::Comment { start, end, text } => {
            &&& 0 <= start <= end <= q.len()
            &&& text == q.subrange(start, end)
        },
        SpecUnit::Query { start, end, text, .. } => {
            &&& 0 <= start <= end <= q.len()
            &&& text == q.subrange(start, end)
        },
    }
}

/// Every unit emitted while scanning a prefix has a well-formed span.
proof fn lemma_units_upto_wf(q: Seq<u8>, i: int)
    requires
        0 <= i <= q.len(),
    ensures
        forall|k: int| 0 <= k < units_upto(q, i).len() ==> unit_wf(q, #[trigger] units_upto(q, i)[k]),
    decreases i,
{
    if i > 0 {
        lemma_units_upto_wf(q, i - 1);
        lemma_model_inv(q, i - 1);
        let us = units_upto(q, i - 1);
        let m = scan_model_at(q, i - 1);
        assert forall|k: int| 0 <= k < units_upto(q, i).len() implies unit_wf(
            q,
            #[trigger] units_upto(q, i)[k],
        ) by {
            if k < us.len() {
                assert(units_upto(q, i)[k] == us[k]);
            } else {
                assert(units_upto(q, i)[k] == step_unit(q, i - 1, m).unwrap());
            }
        }
    }
}

/// Unit spans are always valid index ranges into the chunk that produced
/// them, and each carries exactly the bytes its span covers.
pub proof fn law_unit_spans_lie_in_chunk(q: Seq<u8>)
    ensures
        forall|k: int| 0 <= k < spec_scan(q).len() ==> unit_wf(q, #[trigger] spec_scan(q)[k]),
{
    let len = q.len() as int;
    lemma_units_upto_wf(q, len);
    lemma_model_inv(q, len);
    let us = units_upto(q, len);
    let m = scan_model_at(q, len);
    assert forall|k: int| 0 <= k < spec_scan(q).len() implies unit_wf(
        q,
        #[trigger] spec_scan(q)[k],
    ) by {
        if k < us.len() {
            assert(spec_scan(q)[k] == us[k]);
        } else {
            assert(spec_scan(q)[k] == flush_units(q, m)[k - us.len()]);
        }
    }
}

/// A chunk whose final character is a semicolon read outside any comment,
/// with every quote and parenthesis closed at that point (the delimiter
/// stack is empty), ends in a statement unit that is marked valid and spans
/// up to and including the terminator.
pub proof fn law_balanced_terminated_statement_is_valid(q: Seq<u8>)
    requires
        q.len() > 0,
        q[q.len() - 1] == SEMICOLON_BYTE,
        !scan_model_at(q, q.len() - 1).in_comment,
        scan_model_at(q, q.len() - 1).stack.len() == 0,
    ensures
        spec_scan(q).len() > 0,
        spec_scan(q).last() matches SpecUnit::Query { valid, end, .. } && valid && end
            == q.len() as int,
{
    let len = q.len() as int;
    let m = scan_model_at(q, len - 1);
    let u = SpecUnit::Query {
        valid: true,
        start: m.start,
        end: len,
        text: q.subrange(m.start, len),
    };
    assert(step_unit(q, len - 1, m) == Some(u));
    assert(units_upto(q, len) =~= units_upto(q, len - 1) + seq![u]);
    assert(scan_model_at(q, len) == model_step(q, len - 1, m));
    assert(scan_model_at(q, len).start == len);
    assert(flush_units(q, scan_model_at(q, len)) =~= Seq::<SpecUnit>::empty());
    assert(spec_scan(q) =~= units_upto(q, len - 1) + seq![u]);
    assert(spec_scan(q).last() == u);
}

/// A chunk whose final character is a semicolon read outside any comment and
/// outside any quote, but with some quote or parenthesis still open or a
/// stray closing parenthesis on the stack, ends in a statement unit that is
/// marked invalid.  In particular a `(` never closed before the terminator,
/// or an unmatched `)`, makes the statement invalid.
pub proof fn law_unbalanced_terminated_statement_is_invalid(q: Seq<u8>)
    requires
        q.len() > 0,
        q[q.len() - 1] == SEMICOLON_BYTE,
        !scan_model_at(q, q.len() - 1).in_comment,
        scan_model_at(q, q.len() - 1).stack.len() > 0,
        !top_is(scan_model_at(q, q.len() - 1).stack, Delim::Quote),
    ensures
        spec_scan(q).len() > 0,
        spec_scan(q).last() matches SpecUnit::Query { valid, end, .. } && !valid && end
            == q.len() as int,
{
    let len = q.len() as int;
    let m = scan_model_at(q, len - 1);
    let u = SpecUnit::Query {
        valid: false,
        start: m.start,
        end: len,
        text: q.subrange(m.start, len),
    };
    assert(step_unit(q, len - 1, m) == Some(u));
    assert(units_upto(q, len) =~= units_upto(q, len - 1) + seq![u]);
    assert(scan_model_at(q, len) == model_step(q, len - 1, m));
    assert(scan_model_at(q, len).start == len);
    assert(flush_units(q, scan_model_at(q, len)) =~= Seq::<SpecUnit>::empty());
    assert(spec_scan(q) =~= units_upto(q, len - 1) + seq![u]);
    assert(spec_scan(q).last() == u);
}

/// A doubled quote character inside a quoted span does not close the quote:
/// after both marks the delimiter stack is exactly what it was before them,
/// so the span is still open and no unit was emitted for either mark.
pub proof fn law_doubled_quote_keeps_quote_open(q: Seq<u8>, i: int)
    requires
        0 <= i,
        i + 1 < q.len(),
        q[i] == QUOTE_BYTE,
        q[i + 1] == QUOTE_BYTE,
        !scan_model_at(q, i).in_comment,
        top_is(scan_model_at(q, i).stack, Delim::Quote),
    ensures
        scan_model_at(q, i + 2).stack == scan_model_at(q, i).stack,
        top_is(scan_model_at(q, i + 2).stack, Delim::Quote),
        !scan_model_at(q, i + 2).in_comment,
        step_unit(q, i, scan_model_at(q, i)) is None,
        step_unit(q, i + 1, scan_model_at(q, i + 1)) is None,
{
    lemma_model_inv(q, i);
    let m = scan_model_at(q, i);
    let m1 = scan_model_at(q, i + 1);
    assert(m1 == model_step(q, i, m));
    assert(m1.stack == m.stack.drop_last());
    assert(m1.stack.len() > 0 ==> m1.stack.last() == m.stack[m.stack.len() - 2]);
    assert(!top_is(m1.stack, Delim::Quote));
    let m2 = scan_model_at(q, i + 2);
    assert(m2 == model_step(q, i + 1, m1));
    assert(m2.stack == m.stack.drop_last().push(Delim::Quote));
    assert(m2.stack =~= m.stack);
}

/// A dash read while some quote or parenthesis is open is ordinary statement
/// content: it cannot start a comment, and it changes nothing of the
/// scanner's state.  In particular a `--` inside an open quote never opens a
/// comment.
pub proof fn law_dash_inside_open_delimiter_is_content(q: Seq<u8>, i: int)
    requires
        0 <= i < q.len(),
        q[i] == DASH_BYTE,
        scan_model_at(q, i).stack.len() > 0,
    ensures
        scan_model_at(q, i + 1) == scan_model_at(q, i),
        !scan_model_at(q, i + 1).in_comment,
        step_unit(q, i, scan_model_at(q, i)) is None,
{
    lemma_model_inv(q, i);
    let m = scan_model_at(q, i);
    assert(!m.complete);
    assert(!m.in_comment);
    assert(scan_model_at(q, i + 1) == model_step(q, i, m));
}

} // verus!
