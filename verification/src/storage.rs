//! How the log lies in storage: one record for each transaction, written
//! behind the records that are there.
//!
//! A record is the length of its payload, as eight bytes with the least
//! significant first, and then the payload. A reader takes records as long
//! as they are complete: what follows the last complete record, as an
//! interrupted append leaves it, is not read.

use vstd::prelude::*;

verus! {

/// Number of bytes of a record's header.
pub const HEADER_LEN: usize = 8;

/// The number `n` as `width` bytes, the least significant first.
pub open spec fn length_bytes(n: nat, width: nat) -> Seq<u8>
    decreases width,
{
    if width == 0 {
        Seq::empty()
    } else {
        seq![(n % 256) as u8] + length_bytes(n / 256, (width - 1) as nat)
    }
}

/// The number that the bytes `b` denote, the least significant first.
pub open spec fn length_value(b: Seq<u8>) -> nat
    decreases b.len(),
{
    if b.len() == 0 {
        0
    } else {
        b[0] as nat + 256 * length_value(b.drop_first())
    }
}

/// The record that holds `payload`.
pub open spec fn record(payload: Seq<u8>) -> Seq<u8> {
    length_bytes(payload.len(), HEADER_LEN as nat) + payload
}

/// The payloads of the complete records at the start of `bytes`, up to the
/// first record that is cut short.
pub open spec fn records(bytes: Seq<u8>) -> Seq<Seq<u8>>
    decreases bytes.len(),
{
    if bytes.len() < HEADER_LEN {
        Seq::empty()
    } else {
        let n = length_value(bytes.take(HEADER_LEN as int));
        if bytes.len() - HEADER_LEN < n {
            Seq::empty()
        } else {
            seq![bytes.subrange(HEADER_LEN as int, HEADER_LEN + n)] + records(
                bytes.skip(HEADER_LEN + n),
            )
        }
    }
}

/// The number of bytes that the complete records at the start of `bytes`
/// take.
pub open spec fn committed_len(bytes: Seq<u8>) -> nat
    decreases bytes.len(),
{
    if bytes.len() < HEADER_LEN {
        0
    } else {
        let n = length_value(bytes.take(HEADER_LEN as int));
        if bytes.len() - HEADER_LEN < n {
            0
        } else {
            HEADER_LEN as nat + n + committed_len(bytes.skip(HEADER_LEN + n))
        }
    }
}

/// The bytes of a log that holds the records of `payloads`, one behind the
/// other.
pub open spec fn log_bytes(payloads: Seq<Seq<u8>>) -> Seq<u8>
    decreases payloads.len(),
{
    if payloads.len() == 0 {
        Seq::empty()
    } else {
        record(payloads.first()) + log_bytes(payloads.drop_first())
    }
}

/// 256 to the power of `n`.
spec fn pow256(n: nat) -> nat
    decreases n,
{
    if n == 0 {
        1
    } else {
        256 * pow256((n - 1) as nat)
    }
}

/// Eight bytes count up to 2 to the power of 64.
proof fn lemma_pow256_8()
    ensures
        pow256(8) == 0x1_0000_0000_0000_0000,
{
    reveal_with_fuel(pow256, 9);
}

/// A number that fits in `width` bytes is read back from them.
proof fn lemma_length_round_trip(n: nat, width: nat)
    requires
        n < pow256(width),
    ensures
        length_bytes(n, width).len() == width,
        length_value(length_bytes(n, width)) == n,
    decreases width,
{
    if width > 0 {
        lemma_length_round_trip(n / 256, (width - 1) as nat);
        let rest = length_bytes(n / 256, (width - 1) as nat);
        let all = length_bytes(n, width);
        assert(all.drop_first() == rest);
        assert(all[0] == (n % 256) as u8);
    }
}

/// A reader of a complete record followed by `tail` gets the record's
/// payload, and then what it gets from `tail`.
pub proof fn lemma_record_then_tail(payload: Seq<u8>, tail: Seq<u8>)
    requires
        payload.len() <= u64::MAX,
    ensures
        records(record(payload) + tail) == seq![payload] + records(tail),
        committed_len(record(payload) + tail) == record(payload).len() + committed_len(tail),
{
    lemma_pow256_8();
    lemma_length_round_trip(payload.len(), HEADER_LEN as nat);
    let header = length_bytes(payload.len(), HEADER_LEN as nat);
    let bytes = record(payload) + tail;
    assert(bytes.take(HEADER_LEN as int) == header);
    assert(bytes.subrange(HEADER_LEN as int, HEADER_LEN + payload.len()) == payload);
    assert(bytes.skip(HEADER_LEN + payload.len()) == tail);
}

/// A reader of a record that was cut short gets nothing.
pub proof fn lemma_cut_record_is_not_read(payload: Seq<u8>, cut: int)
    requires
        payload.len() <= u64::MAX,
        0 <= cut < record(payload).len(),
    ensures
        records(record(payload).take(cut)) == Seq::<Seq<u8>>::empty(),
        committed_len(record(payload).take(cut)) == 0,
{
    lemma_pow256_8();
    lemma_length_round_trip(payload.len(), HEADER_LEN as nat);
    let header = length_bytes(payload.len(), HEADER_LEN as nat);
    let bytes = record(payload).take(cut);
    if cut >= HEADER_LEN {
        assert(bytes.take(HEADER_LEN as int) == header);
    }
}

/// A reader of a log followed by `tail` gets the payloads of the log, and
/// then what it gets from `tail`.
pub proof fn lemma_log_then_tail(payloads: Seq<Seq<u8>>, tail: Seq<u8>)
    requires
        forall|i: int| 0 <= i < payloads.len() ==> (#[trigger] payloads[i]).len() <= u64::MAX,
    ensures
        records(log_bytes(payloads) + tail) == payloads + records(tail),
        committed_len(log_bytes(payloads) + tail) == log_bytes(payloads).len() + committed_len(
            tail,
        ),
    decreases payloads.len(),
{
    if payloads.len() == 0 {
        assert(log_bytes(payloads) + tail == tail);
        assert(payloads + records(tail) == records(tail));
    } else {
        let first = payloads.first();
        let rest = payloads.drop_first();
        assert forall|i: int| 0 <= i < rest.len() implies (#[trigger] rest[i]).len() <= u64::MAX by {
            assert(rest[i] == payloads[i + 1]);
        }
        lemma_log_then_tail(rest, tail);
        lemma_record_then_tail(first, log_bytes(rest) + tail);
        assert(log_bytes(payloads) + tail == record(first) + (log_bytes(rest) + tail));
        assert(seq![first] + (rest + records(tail)) == payloads + records(tail));
    }
}

/// An append that was interrupted shows nothing of its transaction: a
/// reader of a log behind which a record was written in part, up to any
/// byte short of the whole, gets the payloads of the log and no more. Once
/// the record is whole, the reader gets its payload as well.
pub proof fn lemma_interrupted_append_is_invisible(
    payloads: Seq<Seq<u8>>,
    payload: Seq<u8>,
    cut: int,
)
    requires
        forall|i: int| 0 <= i < payloads.len() ==> (#[trigger] payloads[i]).len() <= u64::MAX,
        payload.len() <= u64::MAX,
        0 <= cut < record(payload).len(),
    ensures
        records(log_bytes(payloads) + record(payload).take(cut)) == payloads,
        committed_len(log_bytes(payloads) + record(payload).take(cut)) == log_bytes(
            payloads,
        ).len(),
        records(log_bytes(payloads) + record(payload)) == payloads.push(payload),
{
    lemma_log_then_tail(payloads, record(payload).take(cut));
    lemma_cut_record_is_not_read(payload, cut);
    assert(payloads + Seq::<Seq<u8>>::empty() == payloads);
    lemma_log_then_tail(payloads, record(payload));
    lemma_record_then_tail(payload, Seq::<u8>::empty());
    assert(record(payload) + Seq::<u8>::empty() == record(payload));
    assert(records(Seq::<u8>::empty()) == Seq::<Seq<u8>>::empty());
    assert(payloads + (seq![payload] + Seq::<Seq<u8>>::empty()) == payloads.push(payload));
}

/// What lies behind the complete records of `bytes` does not count: a
/// reader of the complete records followed by `tail` gets what it gets from
/// `bytes`, and then what it gets from `tail`.
pub proof fn lemma_leftover_is_cut_off(bytes: Seq<u8>, tail: Seq<u8>)
    ensures
        committed_len(bytes) <= bytes.len(),
        records(bytes.take(committed_len(bytes) as int) + tail) == records(bytes) + records(tail),
    decreases bytes.len(),
{
    let kept = bytes.take(committed_len(bytes) as int);
    if bytes.len() < HEADER_LEN || bytes.len() - HEADER_LEN < length_value(
        bytes.take(HEADER_LEN as int),
    ) {
        assert(kept + tail == tail);
        assert(records(bytes) + records(tail) == records(tail));
    } else {
        let n = length_value(bytes.take(HEADER_LEN as int));
        let rest = bytes.skip(HEADER_LEN + n);
        lemma_leftover_is_cut_off(rest, tail);
        let whole = kept + tail;
        let c = committed_len(rest) as int;
        assert(whole.take(HEADER_LEN as int) == bytes.take(HEADER_LEN as int));
        assert(whole.subrange(HEADER_LEN as int, HEADER_LEN + n) == bytes.subrange(
            HEADER_LEN as int,
            HEADER_LEN + n,
        ));
        assert(whole.skip(HEADER_LEN + n) == rest.take(c) + tail);
        assert(seq![bytes.subrange(HEADER_LEN as int, HEADER_LEN + n)] + (records(rest) + records(
            tail,
        )) == records(bytes) + records(tail));
    }
}

/// How a transaction is added to the log in storage.
#[derive(Debug)]
pub struct AppendPlan {
    /// The log is cut to this length first: what an interrupted append
    /// left behind the last complete record goes.
    pub keep: usize,
    /// These bytes are then written behind it.
    pub bytes: Vec<u8>,
}

/// Plans the append of a record with the payload `payload` to the log
/// whose bytes are `stored`: the log is cut behind its last complete
/// record and the new record written there. A reader of the result gets
/// the payloads that it got before, and the new one.
pub fn plan_append(stored: &Vec<u8>, payload: &Vec<u8>) -> (plan: AppendPlan)
    ensures
        plan.keep == committed_len(stored@),
        plan.keep <= stored@.len(),
        plan.bytes@ == record(payload@),
        records(stored@.take(plan.keep as int) + plan.bytes@) == records(stored@).push(payload@),
{
    let read = read_records(stored);
    let size: usize = payload.len();
    let mut bytes: Vec<u8> = Vec::new();
    append_record(&mut bytes, payload);
    proof {
        assert(payload@.len() == size);
        assert(bytes@ == record(payload@));
        lemma_leftover_is_cut_off(stored@, bytes@);
        lemma_record_then_tail(payload@, Seq::<u8>::empty());
        assert(record(payload@) + Seq::<u8>::empty() == record(payload@));
        assert(records(Seq::<u8>::empty()) == Seq::<Seq<u8>>::empty());
        assert(records(stored@) + (seq![payload@] + Seq::<Seq<u8>>::empty()) == records(
            stored@,
        ).push(payload@));
    }
    AppendPlan { keep: read.1, bytes }
}

/// The payloads that the vectors of `payloads` hold.
pub open spec fn payload_views(payloads: Seq<Vec<u8>>) -> Seq<Seq<u8>> {
    Seq::new(payloads.len(), |i: int| payloads[i]@)
}

/// Appends the header for a payload of `n` bytes.
fn push_length(out: &mut Vec<u8>, n: u64)
    ensures
        final(out)@ == old(out)@ + length_bytes(n as nat, HEADER_LEN as nat),
{
    let mut rest = n;
    let mut i: usize = 0;
    let ghost start = out@;
    assert(length_bytes(rest as nat, 8) == Seq::<u8>::empty() + length_bytes(rest as nat, 8));
    while i < HEADER_LEN
        invariant
            i <= HEADER_LEN,
            out@ + length_bytes(rest as nat, (HEADER_LEN - i) as nat) == start + length_bytes(
                n as nat,
                HEADER_LEN as nat,
            ),
        decreases HEADER_LEN - i,
    {
        let ghost before = out@;
        let ghost tail = length_bytes(rest as nat / 256, (HEADER_LEN - i - 1) as nat);
        out.push((rest % 256) as u8);
        proof {
            assert(length_bytes(rest as nat, (HEADER_LEN - i) as nat) == seq![
                (rest as nat % 256) as u8,
            ] + tail);
            assert(out@ + tail == before + (seq![(rest as nat % 256) as u8] + tail));
        }
        rest = rest / 256;
        i += 1;
    }
    assert(out@ + Seq::<u8>::empty() == out@);
}

/// Reads the header that starts at `at`.
fn read_length(bytes: &Vec<u8>, at: usize) -> (n: u64)
    requires
        at + HEADER_LEN <= bytes@.len(),
    ensures
        n == length_value(bytes@.subrange(at as int, at + HEADER_LEN)),
{
    let ghost header = bytes@.subrange(at as int, at + HEADER_LEN);
    let mut acc: u64 = 0;
    let mut k: usize = HEADER_LEN;
    let total = bytes.len();
    assert(header.skip(8).len() == 0);
    while k > 0
        invariant
            k <= HEADER_LEN,
            at + HEADER_LEN <= bytes@.len(),
            total == bytes@.len(),
            header == bytes@.subrange(at as int, at + HEADER_LEN),
            acc == length_value(header.skip(k as int)),
            acc < pow256((HEADER_LEN - k) as nat),
        decreases k,
    {
        proof {
            reveal_with_fuel(pow256, 9);
            assert(header.skip(k - 1).drop_first() == header.skip(k as int));
            assert(header.skip(k - 1)[0] == bytes@[at + k - 1]);
        }
        k -= 1;
        acc = acc * 256 + bytes[at + k] as u64;
    }
    assert(header.skip(0) == header);
    acc
}

/// Writes the record of `payload` behind what `log` holds.
pub fn append_record(log: &mut Vec<u8>, payload: &Vec<u8>)
    ensures
        final(log)@ == old(log)@ + record(payload@),
{
    push_length(log, payload.len() as u64);
    let mut i: usize = 0;
    let ghost with_header = log@;
    assert(log@ == with_header + payload@.take(0));
    while i < payload.len()
        invariant
            i <= payload@.len(),
            log@ == with_header + payload@.take(i as int),
        decreases payload.len() - i,
    {
        log.push(payload[i]);
        i += 1;
        assert(payload@.take(i as int) == payload@.take(i - 1).push(payload@[i - 1]));
    }
    assert(payload@.take(payload@.len() as int) == payload@);
    assert(log@ == old(log)@ + record(payload@));
}

/// Reads the payloads of the complete records of `bytes`, and says how
/// many bytes they take. What lies behind them is the rest of an append
/// that did not come to its end.
pub fn read_records(bytes: &Vec<u8>) -> (r: (Vec<Vec<u8>>, usize))
    ensures
        payload_views(r.0@) == records(bytes@),
        r.1 == committed_len(bytes@),
        r.1 <= bytes@.len(),
{
    let mut found: Vec<Vec<u8>> = Vec::new();
    let mut at: usize = 0;
    let total = bytes.len();
    proof {
        assert(bytes@.skip(0) == bytes@);
        assert(payload_views(found@) + records(bytes@) == records(bytes@));
    }
    loop
        invariant_except_break
            at <= total,
            total == bytes@.len(),
            payload_views(found@) + records(bytes@.skip(at as int)) == records(bytes@),
            at + committed_len(bytes@.skip(at as int)) == committed_len(bytes@),
        ensures
            at <= total,
            total == bytes@.len(),
            payload_views(found@) == records(bytes@),
            at == committed_len(bytes@),
        decreases total - at,
    {
        let ghost rest = bytes@.skip(at as int);
        if total - at < HEADER_LEN {
            proof {
                assert(records(rest) == Seq::<Seq<u8>>::empty());
                assert(payload_views(found@) + Seq::<Seq<u8>>::empty() == payload_views(found@));
            }
            break ;
        }
        let n = read_length(bytes, at);
        proof {
            assert(rest.take(HEADER_LEN as int) == bytes@.subrange(at as int, at + HEADER_LEN));
        }
        if ((total - at - HEADER_LEN) as u64) < n {
            proof {
                assert(records(rest) == Seq::<Seq<u8>>::empty());
                assert(payload_views(found@) + Seq::<Seq<u8>>::empty() == payload_views(found@));
            }
            break ;
        }
        let from = at + HEADER_LEN;
        let to = from + n as usize;
        let mut payload: Vec<u8> = Vec::new();
        let mut i: usize = from;
        while i < to
            invariant
                from <= i <= to <= bytes@.len(),
                payload@ == bytes@.subrange(from as int, i as int),
            decreases to - i,
        {
            payload.push(bytes[i]);
            i += 1;
            assert(bytes@.subrange(from as int, i as int) == bytes@.subrange(
                from as int,
                i - 1,
            ).push(bytes@[i - 1]));
        }
        let ghost before = found@;
        found.push(payload);
        proof {
            assert(rest.subrange(HEADER_LEN as int, HEADER_LEN + n) == payload@);
            assert(rest.skip(HEADER_LEN + n) == bytes@.skip(to as int));
            assert(payload_views(found@) == payload_views(before) + seq![payload@]);
            assert(payload_views(found@) + records(bytes@.skip(to as int)) == payload_views(before)
                + (seq![payload@] + records(bytes@.skip(to as int))));
        }
        at = to;
    }
    (found, at)
}

} // verus!
