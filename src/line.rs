//! Log records: `<timestamp> - <message>\n`, as bytes.
use vstd::prelude::*;
use vstd::string::StringSliceAdditionalSpecFns;

use crate::stamp::{
    Stamp,
    decode_stamp,
    format_stamp,
    lemma_stamp_round_trip,
    lemma_stamp_text_no_newline,
    lemma_stamp_unique,
    local_now,
    stamp_text,
};

verus! {

/// ` - `, between the timestamp and the message.
pub open spec fn separator() -> Seq<u8> {
    seq![32u8, 45u8, 32u8]
}

/// One record: the timestamp text, the separator, the message verbatim, a newline.
pub open spec fn line_bytes(timestamp: Seq<u8>, message: Seq<u8>) -> Seq<u8> {
    timestamp + separator() + message + seq![10u8]
}

/// The record of a message logged at stamp `s`.
pub open spec fn record(s: Stamp, message: Seq<u8>) -> Seq<u8> {
    line_bytes(stamp_text(s), message)
}

/// The stamp and message of a record, if `b` is one.
pub open spec fn decode_line(b: Seq<u8>) -> Option<(Stamp, Seq<u8>)> {
    if b.len() >= 23 && b.subrange(19, 22) == separator() && b.last() == 10 && decode_stamp(
        b.subrange(0, 19),
    ) is Some {
        Some((decode_stamp(b.subrange(0, 19))->0, b.subrange(22, b.len() - 1)))
    } else {
        None
    }
}

fn push_all(out: &mut Vec<u8>, b: &[u8])
    ensures
        final(out)@ == old(out)@ + b@,
{
    let ghost start = out@;
    let mut i: usize = 0;
    while i < b.len()
        invariant
            i <= b@.len(),
            out@ == start + b@.subrange(0, i as int),
        decreases b@.len() - i,
    {
        out.push(b[i]);
        i = i + 1;
        assert(b@.subrange(0, i as int) =~= b@.subrange(0, i - 1).push(b@[i - 1]));
    }
    assert(b@.subrange(0, i as int) =~= b@);
}

/// Joins a timestamp text and a message into one record, message bytes unchanged.
pub fn compose_line(timestamp: &[u8], message: &[u8]) -> (r: Vec<u8>)
    ensures
        r@ == line_bytes(timestamp@, message@),
        r@.len() == timestamp@.len() + 3 + message@.len() + 1,
{
    let mut r: Vec<u8> = Vec::new();
    push_all(&mut r, timestamp);
    r.push(32);
    r.push(45);
    r.push(32);
    push_all(&mut r, message);
    r.push(10);
    assert(r@ =~= line_bytes(timestamp@, message@));
    r
}

/// The record of `message` logged at `stamp`.
pub fn render_line(stamp: &Stamp, message: &str) -> (r: Vec<u8>)
    requires
        stamp.wf(),
    ensures
        r@ == record(*stamp, message.spec_bytes()),
{
    let text = format_stamp(stamp);
    compose_line(text.as_slice(), message.as_bytes())
}

/// The record of `message` logged now, with the local time it carries.
pub fn line_now(message: &str) -> (r: (Stamp, Vec<u8>))
    ensures
        r.0.wf(),
        r.1@ == record(r.0, message.spec_bytes()),
{
    let stamp = local_now();
    let bytes = render_line(&stamp, message);
    (stamp, bytes)
}

/// Reads one record back: its stamp and its message. Anything else gives `None`.
pub fn parse_line(line: &[u8]) -> (r: Option<(Stamp, Vec<u8>)>)
    ensures
        match r {
            Some(p) => decode_line(line@) == Some((p.0, p.1@)),
            None => decode_line(line@) is None,
        },
{
    let n = line.len();
    if n < 23 || line[19] != 32 || line[20] != 45 || line[21] != 32 || line[n - 1] != 10 {
        assert(n >= 23 ==> line@.subrange(19, 22)[0] == line@[19] && line@.subrange(19, 22)[1]
            == line@[20] && line@.subrange(19, 22)[2] == line@[21]);
        return None;
    }
    assert(line@.subrange(19, 22) =~= separator());
    match parse_stamp_prefix(line) {
        Some(s) => {
            let message = vstd::slice::slice_to_vec(vstd::slice::slice_subrange(line, 22, n - 1));
            Some((s, message))
        },
        None => None,
    }
}

fn parse_stamp_prefix(line: &[u8]) -> (r: Option<Stamp>)
    requires
        line@.len() >= 19,
    ensures
        r == decode_stamp(line@.subrange(0, 19)),
{
    crate::stamp::parse_stamp(vstd::slice::slice_subrange(line, 0, 19))
}

/// Reading back a record whose stamp has a four-digit year gives its stamp and its
/// message, whatever bytes the message holds.
pub proof fn lemma_line_round_trip(s: Stamp, message: Seq<u8>)
    requires
        s.wf(),
        s.has_plain_year(),
    ensures
        decode_line(record(s, message)) == Some((s, message)),
{
    let b = record(s, message);
    lemma_stamp_round_trip(s);
    assert(stamp_text(s).len() == 19);
    assert(b.subrange(0, 19) =~= stamp_text(s));
    assert(b.subrange(19, 22) =~= separator());
    assert(b.subrange(22, b.len() - 1) =~= message);
}

/// A text that reads as a record is exactly the record of what it reads as.
pub proof fn lemma_line_unique(b: Seq<u8>)
    requires
        decode_line(b) is Some,
    ensures
        decode_line(b) matches Some(p) && record(p.0, p.1) == b && p.0.has_plain_year(),
{
    lemma_stamp_unique(b.subrange(0, 19));
    assert(b =~= b.subrange(0, 19) + b.subrange(19, 22) + b.subrange(22, b.len() - 1) + seq![
        10u8,
    ]);
}

/// The number of newline bytes in `b`.
pub open spec fn newlines(b: Seq<u8>) -> nat
    decreases b.len(),
{
    if b.len() == 0 {
        0
    } else {
        newlines(b.drop_last()) + if b.last() == 10 {
            1nat
        } else {
            0nat
        }
    }
}

/// Newlines of a concatenation add up.
pub proof fn lemma_newlines_concat(a: Seq<u8>, b: Seq<u8>)
    ensures
        newlines(a + b) == newlines(a) + newlines(b),
    decreases b.len(),
{
    if b.len() > 0 {
        assert((a + b).drop_last() =~= a + b.drop_last());
        lemma_newlines_concat(a, b.drop_last());
    } else {
        assert(a + b =~= a);
    }
}

proof fn lemma_no_newlines(b: Seq<u8>)
    requires
        forall|i: int| 0 <= i < b.len() ==> b[i] != 10,
    ensures
        newlines(b) == 0,
    decreases b.len(),
{
    if b.len() > 0 {
        lemma_no_newlines(b.drop_last());
    }
}

/// A record holds one newline more than its message: a message with embedded
/// newlines is written verbatim and reads as several lines.
pub proof fn lemma_record_newlines(s: Stamp, message: Seq<u8>)
    requires
        s.wf(),
    ensures
        newlines(record(s, message)) == newlines(message) + 1,
{
    let t = stamp_text(s);
    lemma_stamp_text_no_newline(s);
    lemma_no_newlines(t);
    lemma_no_newlines(separator());
    lemma_newlines_concat(t, separator());
    lemma_newlines_concat(t + separator(), message);
    lemma_newlines_concat(t + separator() + message, seq![10u8]);
    assert(seq![10u8].drop_last() =~= Seq::<u8>::empty());
    assert(newlines(Seq::<u8>::empty()) == 0);
    assert(newlines(seq![10u8]) == 1);
}

/// The bytes of a log holding `prior` after the records `rs` were appended in order.
pub open spec fn log_after(prior: Seq<u8>, rs: Seq<(Stamp, Seq<u8>)>) -> Seq<u8>
    decreases rs.len(),
{
    if rs.len() == 0 {
        prior
    } else {
        log_after(prior, rs.drop_last()) + record(rs.last().0, rs.last().1)
    }
}

/// Appending one record keeps every prior byte and adds exactly the record:
/// timestamp, three separator bytes, the message, one newline.
pub proof fn lemma_append_keeps_prior(
    prior: Seq<u8>,
    rs: Seq<(Stamp, Seq<u8>)>,
    s: Stamp,
    message: Seq<u8>,
)
    ensures
        log_after(prior, rs.push((s, message))).subrange(0, log_after(prior, rs).len() as int)
            == log_after(prior, rs),
        log_after(prior, rs.push((s, message))).len() == log_after(prior, rs).len()
            + stamp_text(s).len() + 3 + message.len() + 1,
{
    let rs2 = rs.push((s, message));
    assert(rs2.drop_last() =~= rs);
    let a = log_after(prior, rs);
    assert(log_after(prior, rs2) == a + record(s, message));
    assert((a + record(s, message)).subrange(0, a.len() as int) =~= a);
}

/// After `n` records whose messages hold no newline, a log that began empty or
/// ended in a newline holds exactly `n` more lines.
pub proof fn lemma_one_line_per_record(prior: Seq<u8>, rs: Seq<(Stamp, Seq<u8>)>)
    requires
        forall|k: int| 0 <= k < rs.len() ==> (#[trigger] rs[k]).0.wf(),
        forall|k: int| 0 <= k < rs.len() ==> newlines(#[trigger] rs[k].1) == 0,
    ensures
        newlines(log_after(prior, rs)) == newlines(prior) + rs.len(),
    decreases rs.len(),
{
    if rs.len() > 0 {
        let last = rs.last();
        assert(last == rs[rs.len() - 1]);
        let init = rs.drop_last();
        assert forall|k: int| 0 <= k < init.len() implies (#[trigger] init[k]).0.wf()
            && newlines(init[k].1) == 0 by {
            assert(init[k] == rs[k]);
        }
        lemma_one_line_per_record(prior, init);
        lemma_record_newlines(last.0, last.1);
        lemma_newlines_concat(log_after(prior, init), record(last.0, last.1));
    }
}


/// The pieces of `ls`, one after another.
pub open spec fn join(ls: Seq<Seq<u8>>) -> Seq<u8>
    decreases ls.len(),
{
    if ls.len() == 0 {
        Seq::empty()
    } else {
        join(ls.drop_last()) + ls.last()
    }
}

/// The records of `rs`, one piece per call, in call order.
pub open spec fn records_of(rs: Seq<(Stamp, Seq<u8>)>) -> Seq<Seq<u8>> {
    Seq::new(rs.len(), |k: int| record(rs[k].0, rs[k].1))
}

/// A log after `n` appends is its prior bytes followed by the `n` records in call
/// order. Where no message holds a newline, each record holds exactly one newline,
/// its last byte, so the log gains one line per call, the `k`-th new line being the
/// `k`-th record.
pub proof fn lemma_lines_in_call_order(prior: Seq<u8>, rs: Seq<(Stamp, Seq<u8>)>)
    requires
        forall|k: int| 0 <= k < rs.len() ==> (#[trigger] rs[k]).0.wf(),
        forall|k: int| 0 <= k < rs.len() ==> newlines(#[trigger] rs[k].1) == 0,
    ensures
        log_after(prior, rs) == prior + join(records_of(rs)),
        forall|k: int|
            0 <= k < rs.len() ==> newlines(#[trigger] records_of(rs)[k]) == 1
                && records_of(rs)[k].last() == 10,
    decreases rs.len(),
{
    let ls = records_of(rs);
    if rs.len() > 0 {
        let init = rs.drop_last();
        assert forall|k: int| 0 <= k < init.len() implies (#[trigger] init[k]).0.wf()
            && newlines(init[k].1) == 0 by {
            assert(init[k] == rs[k]);
        }
        lemma_lines_in_call_order(prior, init);
        assert(records_of(init) =~= ls.drop_last());
        assert(ls.last() == record(rs.last().0, rs.last().1));
        assert(prior + join(ls) =~= (prior + join(records_of(init))) + ls.last());
    } else {
        assert(prior + join(ls) =~= prior);
    }
    assert forall|k: int| 0 <= k < rs.len() implies newlines(#[trigger] records_of(rs)[k]) == 1
        && records_of(rs)[k].last() == 10 by {
        lemma_record_newlines(rs[k].0, rs[k].1);
    }
}

} // verus!
