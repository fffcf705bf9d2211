//! How scans compose across the driver's carry-over: rescanning a retained
//! statement tail together with the next text yields exactly what scanning
//! the whole text in one chunk yields, past the units already emitted.

use vstd::prelude::*;
use crate::scanner::ScanModel;
use crate::scanner::SpecUnit;
use crate::scanner::init_model;
use crate::scanner::lemma_model_inv;
use crate::scanner::flush_units;
use crate::scanner::model_step;
use crate::scanner::opt_unit_seq;
use crate::scanner::scan_model_at;
use crate::scanner::spec_scan;
use crate::scanner::step_unit;
use crate::scanner::units_upto;

verus! {

/// The state the scanner is in right after a unit boundary at offset `s`:
/// nothing open, between tokens, the next unit starting at `s`.
pub open spec fn reset_model(s: int) -> ScanModel {
    ScanModel { stack: Seq::empty(), complete: true, in_comment: false, start: s }
}

/// Wherever the scanner stands, it passed through a clean reset at the start
/// offset of the unit it is building.
proof fn lemma_reset_at_start(q: Seq<u8>, i: int)
    requires
        0 <= i <= q.len(),
    ensures
        scan_model_at(q, scan_model_at(q, i).start) == reset_model(scan_model_at(q, i).start),
    decreases i,
{
    if i == 0 {
        assert(scan_model_at(q, 0) == init_model());
    } else {
        let m = scan_model_at(q, i - 1);
        let m2 = scan_model_at(q, i);
        assert(m2 == model_step(q, i - 1, m));
        if m2.start == m.start {
            lemma_reset_at_start(q, i - 1);
        } else {
            assert(m2 == reset_model(i as int));
        }
    }
}

/// Scanning a prefix is not affected by what follows it, as long as the
/// position after it stays inside the prefix: states and emitted units agree
/// between the prefix alone and the prefix inside the longer chunk.
proof fn lemma_prefix_scan(q1: Seq<u8>, q2: Seq<u8>, i: int)
    requires
        0 <= i < q1.len(),
    ensures
        scan_model_at(q1 + q2, i) == scan_model_at(q1, i),
        units_upto(q1 + q2, i) =~~= units_upto(q1, i),
    decreases i,
{
    let q = q1 + q2;
    if i > 0 {
        lemma_prefix_scan(q1, q2, i - 1);
        let m = scan_model_at(q1, i - 1);
        assert(q[i - 1] == q1[i - 1]);
        assert(i < q.len() ==> q[i] == q1[i]);
        assert(model_step(q, i - 1, m) == model_step(q1, i - 1, m));
        lemma_model_inv(q1, i - 1);
        assert(q.subrange(m.start, i - 1) =~= q1.subrange(m.start, i - 1));
        assert(q.subrange(m.start, i) =~= q1.subrange(m.start, i));
        assert(step_unit(q, i - 1, m) == step_unit(q1, i - 1, m));
    }
}

/// The same unit, with its span moved right by `d`.
pub open spec fn shift_unit(u: SpecUnit, d: int) -> SpecUnit {
    match u {
        SpecUnit::Blank => SpecUnit::Blank,
        SpecUnit::Comment { start, end, text } => SpecUnit::Comment {
            start: start + d,
            end: end + d,
            text,
        },
        SpecUnit::Query { valid, start, end, text } => SpecUnit::Query {
            valid,
            start: start + d,
            end: end + d,
            text,
        },
    }
}

/// The same state, with its start offset moved right by `d`.
pub open spec fn shift_model(m: ScanModel, d: int) -> ScanModel {
    ScanModel { stack: m.stack, complete: m.complete, in_comment: m.in_comment, start: m.start + d }
}

/// Scanning on from a clean reset at offset `s` behaves exactly like
/// scanning the tail from `s` on its own: states correspond up to the `s`
/// offset, and the emitted units are the tail's units, shifted.
proof fn lemma_shift_scan(q: Seq<u8>, s: int, k: int)
    requires
        0 <= s <= q.len(),
        scan_model_at(q, s) == reset_model(s),
        0 <= k <= q.len() - s,
    ensures
        scan_model_at(q, s + k) == shift_model(
            scan_model_at(q.subrange(s, q.len() as int), k),
            s,
        ),
        units_upto(q, s + k) =~~= units_upto(q, s) + units_upto(
            q.subrange(s, q.len() as int),
            k,
        ).map_values(|u: SpecUnit| shift_unit(u, s)),
    decreases k,
{
    let tail = q.subrange(s, q.len() as int);
    let f = |u: SpecUnit| shift_unit(u, s);
    if k == 0 {
        assert(scan_model_at(tail, 0) == init_model());
        assert(shift_model(init_model(), s) == reset_model(s));
        assert(units_upto(tail, 0).map_values(f) =~= Seq::<SpecUnit>::empty());
    } else {
        lemma_shift_scan(q, s, k - 1);
        let mt = scan_model_at(tail, k - 1);
        let mq = scan_model_at(q, s + k - 1);
        lemma_model_inv(tail, k - 1);
        assert(q[s + k - 1] == tail[k - 1]);
        assert(k < tail.len() ==> q[s + k] == tail[k]);
        assert((k - 1) + 1 < tail.len() <==> (s + k - 1) + 1 < q.len());
        assert(model_step(q, s + k - 1, mq) == shift_model(model_step(tail, k - 1, mt), s));
        assert(q.subrange(mq.start, s + k - 1) =~= tail.subrange(mt.start, k - 1));
        assert(q.subrange(mq.start, s + k) =~= tail.subrange(mt.start, k));
        if step_unit(tail, k - 1, mt) is Some {
            let u = step_unit(tail, k - 1, mt).unwrap();
            assert(step_unit(q, s + k - 1, mq) == Some(shift_unit(u, s)));
            assert(opt_unit_seq(step_unit(tail, k - 1, mt)).map_values(f) =~= seq![
                shift_unit(u, s),
            ]);
        } else {
            assert(step_unit(q, s + k - 1, mq) is None);
            assert(opt_unit_seq(step_unit(tail, k - 1, mt)).map_values(f) =~= Seq::<
                SpecUnit,
            >::empty());
        }
        assert((units_upto(tail, k - 1) + opt_unit_seq(step_unit(tail, k - 1, mt))).map_values(f)
            =~= units_upto(tail, k - 1).map_values(f) + opt_unit_seq(
            step_unit(tail, k - 1, mt),
        ).map_values(f));
        assert(units_upto(q, s + k) =~~= units_upto(q, s) + units_upto(tail, k).map_values(f));
    }
}

/// As long as the scanner has emitted nothing, the unit being built still
/// starts at the beginning of the chunk.
proof fn lemma_no_units_means_start_zero(q: Seq<u8>, i: int)
    requires
        0 <= i <= q.len(),
        units_upto(q, i).len() == 0,
    ensures
        scan_model_at(q, i).start == 0,
    decreases i,
{
    if i > 0 {
        assert(units_upto(q, i - 1).len() == 0);
        lemma_no_units_means_start_zero(q, i - 1);
        let m = scan_model_at(q, i - 1);
        assert(opt_unit_seq(step_unit(q, i - 1, m)).len() == 0);
        assert(step_unit(q, i - 1, m) is None);
    }
}

/// Two statements concatenated with nothing between them scan to exactly
/// two units, each valid, each spanning only its own text.  A statement
/// here is a chunk whose only boundary character is its final semicolon,
/// read outside any comment with every quote and parenthesis closed, and
/// which emits nothing before that terminator.
pub proof fn law_concatenated_statements_keep_their_spans(q1: Seq<u8>, q2: Seq<u8>)
    requires
        q1.len() > 0,
        q1[q1.len() - 1] == crate::scanner::SEMICOLON_BYTE,
        !scan_model_at(q1, q1.len() - 1).in_comment,
        scan_model_at(q1, q1.len() - 1).stack.len() == 0,
        units_upto(q1, q1.len() - 1).len() == 0,
        q2.len() > 0,
        q2[q2.len() - 1] == crate::scanner::SEMICOLON_BYTE,
        !scan_model_at(q2, q2.len() - 1).in_comment,
        scan_model_at(q2, q2.len() - 1).stack.len() == 0,
        units_upto(q2, q2.len() - 1).len() == 0,
    ensures
        ({
            let l1 = q1.len() as int;
            let l2 = q2.len() as int;
            spec_scan(q1 + q2) =~~= seq![
                SpecUnit::Query { valid: true, start: 0, end: l1, text: q1 },
                SpecUnit::Query { valid: true, start: l1, end: l1 + l2, text: q2 },
            ]
        }),
{
    let l1 = q1.len() as int;
    let l2 = q2.len() as int;
    let q = q1 + q2;
    let f = |u: SpecUnit| shift_unit(u, l1);
    lemma_no_units_means_start_zero(q1, l1 - 1);
    lemma_no_units_means_start_zero(q2, l2 - 1);
    lemma_prefix_scan(q1, q2, l1 - 1);
    let m = scan_model_at(q1, l1 - 1);
    // the terminator of the first statement fires identically inside `q`
    assert(q[l1 - 1] == q1[l1 - 1]);
    assert(scan_model_at(q, l1) == model_step(q, l1 - 1, m));
    assert(scan_model_at(q, l1) == reset_model(l1));
    assert(q.subrange(0, l1) =~= q1);
    let u1 = SpecUnit::Query { valid: true, start: 0, end: l1, text: q.subrange(0, l1) };
    assert(step_unit(q, l1 - 1, m) == Some(u1));
    assert(units_upto(q, l1) =~~= seq![u1]);
    // the rest of `q` is exactly `q2`, scanned from a clean reset
    lemma_shift_scan(q, l1, l2);
    let tail = q.subrange(l1, q.len() as int);
    assert(tail =~= q2);
    let m2 = scan_model_at(q2, l2 - 1);
    let u2 = SpecUnit::Query { valid: true, start: 0, end: l2, text: q2.subrange(0, l2) };
    assert(step_unit(q2, l2 - 1, m2) == Some(u2));
    assert(units_upto(q2, l2) =~~= seq![u2]);
    assert(scan_model_at(q2, l2) == reset_model(l2));
    assert(units_upto(q, l1 + l2) =~~= units_upto(q, l1) + units_upto(q2, l2).map_values(f));
    assert(units_upto(q2, l2).map_values(f) =~~= seq![shift_unit(u2, l1)]);
    // nothing is left to flush: the final state starts past the end
    assert(scan_model_at(q, l1 + l2) == shift_model(reset_model(l2), l1));
    assert(flush_units(q, scan_model_at(q, l1 + l2)) =~= Seq::<SpecUnit>::empty());
    assert(q2.subrange(0, l2) =~= q2);
    assert(spec_scan(q) =~~= seq![u1, shift_unit(u2, l1)]);
}

/// The law behind the driver's carry-over.  When a chunk `c1` ends
/// mid-statement, its trailing unit is an unterminated statement starting at
/// some offset `s`, and its text — `c1` from `s` on — is what the driver
/// retains.  Scanning the whole text `c1 + c2` in one chunk yields exactly
/// the units already emitted before `s`, followed by the scan of the
/// retained text concatenated with the continuation, shifted to its place.
/// So a statement split across reads is found once and whole, with the same
/// validity, exactly as if the whole text had been scanned in one chunk.
pub proof fn law_carryover_rescan_matches_whole_scan(c1: Seq<u8>, c2: Seq<u8>)
    requires
        !scan_model_at(c1, c1.len() as int).complete,
    ensures
        ({
            let s = scan_model_at(c1, c1.len() as int).start;
            let tail = c1.subrange(s, c1.len() as int) + c2;
            spec_scan(c1 + c2) =~~= units_upto(c1, s) + spec_scan(tail).map_values(
                |u: SpecUnit| shift_unit(u, s),
            )
        }),
{
    let len1 = c1.len() as int;
    let m1 = scan_model_at(c1, len1);
    let s = m1.start;
    let f = |u: SpecUnit| shift_unit(u, s);
    lemma_model_inv(c1, len1);
    lemma_reset_at_start(c1, len1);
    assert(s < len1) by {
        if s == len1 {
            assert(m1 == reset_model(s));
        }
    }
    let q = c1 + c2;
    if s == 0 {
        assert(scan_model_at(q, 0) == reset_model(0));
        assert(units_upto(q, 0) =~~= units_upto(c1, 0));
    } else {
        lemma_prefix_scan(c1, c2, s);
    }
    let tailq = q.subrange(s, q.len() as int);
    assert(tailq =~= c1.subrange(s, len1) + c2);
    lemma_shift_scan(q, s, q.len() - s);
    let mf_t = scan_model_at(tailq, tailq.len() as int);
    let mf_q = scan_model_at(q, q.len() as int);
    assert(mf_q == shift_model(mf_t, s));
    lemma_model_inv(tailq, tailq.len() as int);
    assert(q.subrange(mf_q.start, q.len() as int) =~= tailq.subrange(
        mf_t.start,
        tailq.len() as int,
    ));
    assert(flush_units(q, mf_q) =~~= flush_units(tailq, mf_t).map_values(f));
    assert((units_upto(tailq, tailq.len() as int) + flush_units(tailq, mf_t)).map_values(f)
        =~= units_upto(tailq, tailq.len() as int).map_values(f) + flush_units(
        tailq,
        mf_t,
    ).map_values(f));
    assert(spec_scan(q) =~~= units_upto(c1, s) + spec_scan(tailq).map_values(f));
}

} // verus!
