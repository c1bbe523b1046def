//! The text in which a transaction is stored: a header line with the
//! transaction id, then one line for each event.
//!
//! ```text
//! transaction <id>
//! commit <commit> <time>
//! rewrite <commit> <commit or -> <time>
//! ref <commit or -> <commit or -> <time> <name>
//! hide <commit> <time>
//! unhide <commit> <time>
//! ```
//!
//! A commit is written as its 40 hexadecimal digits, an absent commit as
//! `-`, a number as 16 hexadecimal digits. Every line ends in a line feed.

use vstd::prelude::*;
use vstd::string::*;
use vstd::utf8::*;
use crate::commit_id::{
    hex_digit_value, hex_digits, hex_number, is_hex, is_lower_hex, lemma_hex_round_trip, lemma_hex_word,
    parse_commit_id, parse_word, push_hex, CommitId,
};
use crate::event::{event_views, Event, EventView, Transaction, TransactionView};
use crate::text::{
    chars_of, extend, extend_str, lemma_split_on_append, lemma_split_on_first,
    lemma_split_on_nonempty, lemma_split_on_whole, line_views, same_chars, slice, split, split_on, string_of,
};

verus! {

/// The number `x` as 16 hexadecimal digits.
pub open spec fn hex16(x: u64) -> Seq<char> {
    hex_digits((x / 0x1_0000_0000) as nat, 8) + hex_digits((x % 0x1_0000_0000) as nat, 8)
}

/// The number that the 16 hexadecimal digits `s` denote; `None` for any
/// other text.
pub open spec fn parse_hex16(s: Seq<char>) -> Option<u64> {
    if s.len() == 16 && is_hex(s) {
        Some((hex_number(s.take(8)) * 0x1_0000_0000 + hex_number(s.skip(8))) as u64)
    } else {
        None
    }
}

/// A commit that may be absent, as text.
pub open spec fn side_text(side: Option<CommitId>) -> Seq<char> {
    match side {
        Some(id) => id.hex_spec(),
        None => seq!['-'],
    }
}

/// The commit, or the absence of one, that `s` denotes.
pub open spec fn parse_side_text(s: Seq<char>) -> Option<Option<CommitId>> {
    if s == seq!['-'] {
        Some(None)
    } else {
        match parse_commit_id(s) {
            Some(id) => Some(Some(id)),
            None => None,
        }
    }
}

/// The line of an event, without its line feed.
pub open spec fn event_line(event: EventView) -> Seq<char> {
    match event {
        EventView::CommitCreated { commit_id, time } => "commit "@ + commit_id.hex_spec() + seq![
            ' ',
        ] + hex16(time as u64),
        EventView::RewriteEvent { old_commit_id, new_commit_id, time } => "rewrite "@
            + old_commit_id.hex_spec() + seq![' '] + side_text(new_commit_id) + seq![' '] + hex16(
            time as u64,
        ),
        EventView::RefUpdateEvent { ref_name, old_commit_id, new_commit_id, time } => "ref "@
            + side_text(old_commit_id) + seq![' '] + side_text(new_commit_id) + seq![' '] + hex16(
            time as u64,
        ) + seq![' '] + ref_name,
        EventView::HideEvent { commit_id, time } => "hide "@ + commit_id.hex_spec() + seq![' ']
            + hex16(time as u64),
        EventView::UnhideEvent { commit_id, time } => "unhide "@ + commit_id.hex_spec() + seq![
            ' ',
        ] + hex16(time as u64),
    }
}

/// The lines of the first `k` of `events`, a line feed after each.
pub open spec fn event_lines(events: Seq<EventView>, k: int) -> Seq<char>
    decreases k,
{
    if k <= 0 {
        Seq::empty()
    } else {
        event_lines(events, k - 1) + event_line(events[k - 1]) + seq!['\n']
    }
}

/// The text of a transaction.
pub open spec fn transaction_text(transaction: TransactionView) -> Seq<char> {
    "transaction "@ + hex16(transaction.id) + seq!['\n'] + event_lines(
        transaction.events,
        transaction.events.len() as int,
    )
}

/// Whether the event can be written on one line: the name of a reference
/// holds no line feed.
pub open spec fn fits_on_a_line(event: EventView) -> bool {
    match event {
        EventView::RefUpdateEvent { ref_name, .. } => !ref_name.contains('\n'),
        EventView::CommitCreated { .. } => true,
        EventView::RewriteEvent { .. } => true,
        EventView::HideEvent { .. } => true,
        EventView::UnhideEvent { .. } => true,
    }
}

/// Where the name starts in a line `ref <old> <new> <time> <name>` with
/// the given words.
pub open spec fn name_start(words: Seq<Seq<char>>) -> int {
    4 + words[1].len() as int + 1 + words[2].len() as int + 1 + words[3].len() as int + 1
}

/// The event that `line` denotes; `None` where it has not the form of any.
pub open spec fn parse_event_line(line: Seq<char>) -> Option<EventView> {
    let words = split_on(line, ' ');
    if words[0] == "commit"@ {
        if words.len() == 3 && parse_commit_id(words[1]) is Some && parse_hex16(words[2]) is Some {
            Some(
                EventView::CommitCreated {
                    commit_id: parse_commit_id(words[1])->0,
                    time: parse_hex16(words[2])->0 as i64,
                },
            )
        } else {
            None
        }
    } else if words[0] == "rewrite"@ {
        if words.len() == 4 && parse_commit_id(words[1]) is Some && parse_side_text(
            words[2],
        ) is Some && parse_hex16(words[3]) is Some {
            Some(
                EventView::RewriteEvent {
                    old_commit_id: parse_commit_id(words[1])->0,
                    new_commit_id: parse_side_text(words[2])->0,
                    time: parse_hex16(words[3])->0 as i64,
                },
            )
        } else {
            None
        }
    } else if words[0] == "ref"@ {
        if words.len() >= 5 && parse_side_text(words[1]) is Some && parse_side_text(
            words[2],
        ) is Some && parse_hex16(words[3]) is Some && name_start(words) <= line.len() {
            Some(
                EventView::RefUpdateEvent {
                    ref_name: line.skip(name_start(words)),
                    old_commit_id: parse_side_text(words[1])->0,
                    new_commit_id: parse_side_text(words[2])->0,
                    time: parse_hex16(words[3])->0 as i64,
                },
            )
        } else {
            None
        }
    } else if words[0] == "hide"@ {
        if words.len() == 3 && parse_commit_id(words[1]) is Some && parse_hex16(words[2]) is Some {
            Some(
                EventView::HideEvent {
                    commit_id: parse_commit_id(words[1])->0,
                    time: parse_hex16(words[2])->0 as i64,
                },
            )
        } else {
            None
        }
    } else if words[0] == "unhide"@ {
        if words.len() == 3 && parse_commit_id(words[1]) is Some && parse_hex16(words[2]) is Some {
            Some(
                EventView::UnhideEvent {
                    commit_id: parse_commit_id(words[1])->0,
                    time: parse_hex16(words[2])->0 as i64,
                },
            )
        } else {
            None
        }
    } else {
        None
    }
}

/// The events that the lines from the second up to, and not including,
/// the `k`-th denote; `None` where one of them denotes none.
pub open spec fn parse_event_lines(lines: Seq<Seq<char>>, k: int) -> Option<Seq<EventView>>
    decreases k,
{
    if k <= 1 {
        Some(Seq::empty())
    } else {
        match (parse_event_lines(lines, k - 1), parse_event_line(lines[k - 1])) {
            (Some(before), Some(event)) => Some(before.push(event)),
            _ => None,
        }
    }
}

/// The transaction id that a header line denotes.
pub open spec fn parse_header(line: Seq<char>) -> Option<u64> {
    let words = split_on(line, ' ');
    if words.len() == 2 && words[0] == "transaction"@ {
        parse_hex16(words[1])
    } else {
        None
    }
}

/// The transaction that `text` denotes: a header line and event lines,
/// each ended by a line feed, and nothing else.
pub open spec fn parse_transaction_text(text: Seq<char>) -> Option<TransactionView> {
    let lines = split_on(text, '\n');
    if lines.len() >= 2 && lines.last().len() == 0 && parse_header(lines[0]) is Some
        && parse_event_lines(lines, lines.len() - 1) is Some {
        Some(
            TransactionView {
                id: parse_header(lines[0])->0,
                events: parse_event_lines(lines, lines.len() - 1)->0,
            },
        )
    } else {
        None
    }
}

/// The transaction that the bytes of a record's payload denote.
pub open spec fn parse_transaction(bytes: Seq<u8>) -> Option<TransactionView> {
    if valid_utf8(bytes) {
        parse_transaction_text(decode_utf8(bytes))
    } else {
        None
    }
}

/// `std::str::from_utf8`: the text that `bytes` encode, exactly if they
/// are valid UTF-8.
#[verifier::external_body]
fn text_of_bytes(bytes: &Vec<u8>) -> (text: Option<&str>)
    ensures
        text is Some <==> valid_utf8(bytes@),
        text is Some ==> text->0.spec_bytes() == bytes@,
{
    match std::str::from_utf8(bytes) {
        Ok(text) => Some(text),
        Err(_) => None,
    }
}

/// Appends the 16 hexadecimal digits of `x`.
fn push_hex16(out: &mut Vec<char>, x: u64)
    ensures
        final(out)@ == old(out)@ + hex16(x),
{
    push_hex(out, (x / 0x1_0000_0000) as u32, 8);
    push_hex(out, (x % 0x1_0000_0000) as u32, 8);
}

/// Reads a number from its 16 hexadecimal digits.
fn read_hex16(s: &Vec<char>) -> (r: Option<u64>)
    ensures
        r == parse_hex16(s@),
{
    if s.len() != 16 {
        return None;
    }
    proof {
        assert(s@.take(8) == s@.subrange(0, 8));
        assert(s@.skip(8) == s@.subrange(8, 16));
        if is_hex(s@) {
            assert forall|k: int| 0 <= k < 8 implies (#[trigger] hex_digit_value(
                s@.subrange(0, 8)[k],
            )) is Some by {
                assert(s@.subrange(0, 8)[k] == s@[k]);
            }
            assert forall|k: int| 0 <= k < 8 implies (#[trigger] hex_digit_value(
                s@.subrange(8, 16)[k],
            )) is Some by {
                assert(s@.subrange(8, 16)[k] == s@[k + 8]);
            }
        }
    }
    let high = match parse_word(s, 0) {
        Some(w) => w,
        None => {
            return None;
        },
    };
    let low = match parse_word(s, 8) {
        Some(w) => w,
        None => {
            return None;
        },
    };
    proof {
        assert forall|k: int| 0 <= k < 16 implies (#[trigger] hex_digit_value(
            s@[k],
        )) is Some by {
            if k < 8 {
                assert(s@.subrange(0, 8)[k] == s@[k]);
            } else {
                assert(s@.subrange(8, 16)[k - 8] == s@[k]);
            }
        }
    }
    Some(high as u64 * 0x1_0000_0000 + low as u64)
}

/// Appends the text of a commit that may be absent.
fn push_side(out: &mut Vec<char>, side: Option<CommitId>)
    ensures
        final(out)@ == old(out)@ + side_text(side),
{
    match side {
        Some(id) => {
            push_id(out, id);
        },
        None => {
            out.push('-');
        },
    }
}

/// Appends the 40 hexadecimal digits of `id`.
fn push_id(out: &mut Vec<char>, id: CommitId)
    ensures
        final(out)@ == old(out)@ + id.hex_spec(),
{
    push_hex(out, id.0, 8);
    push_hex(out, id.1, 8);
    push_hex(out, id.2, 8);
    push_hex(out, id.3, 8);
    push_hex(out, id.4, 8);
    assert(out@ == old(out)@ + id.hex_spec());
}

/// Reads a commit from its 40 hexadecimal digits.
fn read_id(s: &Vec<char>) -> (r: Option<CommitId>)
    ensures
        r == parse_commit_id(s@),
{
    assert(s@.subrange(0, s@.len() as int) == s@);
    CommitId::from_chars(s, 0, s.len())
}

/// Reads a commit that may be absent.
fn read_side(s: &Vec<char>) -> (r: Option<Option<CommitId>>)
    ensures
        r == parse_side_text(s@),
{
    if s.len() == 1 && s[0] == '-' {
        assert(s@ == seq!['-']);
        return Some(None);
    }
    proof {
        if s@ == seq!['-'] {
            assert(s@.len() == 1 && s@[0] == '-');
        }
    }
    match read_id(s) {
        Some(id) => Some(Some(id)),
        None => None,
    }
}

/// Appends the line of `event`, without a line feed.
fn push_event(out: &mut Vec<char>, event: &Event)
    ensures
        final(out)@ == old(out)@ + event_line(event@),
{
    match event {
        Event::CommitCreated { commit_id, time } => {
            extend_str(out, "commit ");
            push_id(out, *commit_id);
            out.push(' ');
            push_hex16(
                out,
                #[verifier::truncate]
                (*time as u64),
            );
        },
        Event::RewriteEvent { old_commit_id, new_commit_id, time } => {
            extend_str(out, "rewrite ");
            push_id(out, *old_commit_id);
            out.push(' ');
            push_side(out, *new_commit_id);
            out.push(' ');
            push_hex16(
                out,
                #[verifier::truncate]
                (*time as u64),
            );
        },
        Event::RefUpdateEvent { ref_name, old_commit_id, new_commit_id, time } => {
            extend_str(out, "ref ");
            push_side(out, *old_commit_id);
            out.push(' ');
            push_side(out, *new_commit_id);
            out.push(' ');
            push_hex16(
                out,
                #[verifier::truncate]
                (*time as u64),
            );
            out.push(' ');
            extend_str(out, ref_name.as_str());
        },
        Event::HideEvent { commit_id, time } => {
            extend_str(out, "hide ");
            push_id(out, *commit_id);
            out.push(' ');
            push_hex16(
                out,
                #[verifier::truncate]
                (*time as u64),
            );
        },
        Event::UnhideEvent { commit_id, time } => {
            extend_str(out, "unhide ");
            push_id(out, *commit_id);
            out.push(' ');
            push_hex16(
                out,
                #[verifier::truncate]
                (*time as u64),
            );
        },
    }
    assert(out@ == old(out)@ + event_line(event@));
}

/// Whether `s` holds a line feed.
fn has_line_feed(s: &str) -> (r: bool)
    ensures
        r == s@.contains('\n'),
{
    let v = chars_of(s);
    let mut i: usize = 0;
    while i < v.len()
        invariant
            i <= v@.len(),
            v@ == s@,
            forall|k: int| 0 <= k < i ==> v@[k] != '\n',
        decreases v.len() - i,
    {
        if v[i] == '\n' {
            assert(s@[i as int] == '\n');
            return true;
        }
        i += 1;
    }
    false
}

/// Whether `event` can be written on one line.
fn event_fits(event: &Event) -> (r: bool)
    ensures
        r == fits_on_a_line(event@),
{
    match event {
        Event::RefUpdateEvent { ref_name, .. } => !has_line_feed(ref_name.as_str()),
        Event::CommitCreated { .. } => true,
        Event::RewriteEvent { .. } => true,
        Event::HideEvent { .. } => true,
        Event::UnhideEvent { .. } => true,
    }
}

/// The bytes in which `transaction` is stored as the payload of a record.
/// There are none exactly if the name of a reference holds a line feed.
pub fn encode_transaction(transaction: &Transaction) -> (r: Option<Vec<u8>>)
    ensures
        match r {
            Some(bytes) => bytes@ == encode_utf8(transaction_text(transaction@)),
            None => exists|i: int|
                0 <= i < transaction@.events.len() && !fits_on_a_line(
                    #[trigger] transaction@.events[i],
                ),
        },
        r is Some <==> forall|i: int|
            0 <= i < transaction@.events.len() ==> fits_on_a_line(#[trigger] transaction@.events[i]),
{
    let ghost views = transaction@.events;
    let mut text = chars_of("transaction ");
    push_hex16(&mut text, transaction.id);
    text.push('\n');
    let ghost head = text@;
    let mut k: usize = 0;
    assert(text@ == head + event_lines(views, 0));
    while k < transaction.events.len()
        invariant
            k <= transaction.events@.len(),
            views == event_views(transaction.events@),
            text@ == head + event_lines(views, k as int),
            forall|i: int| 0 <= i < k ==> fits_on_a_line(#[trigger] views[i]),
        decreases transaction.events.len() - k,
    {
        let event = &transaction.events[k];
        assert(views[k as int] == event@);
        if !event_fits(event) {
            assert(!fits_on_a_line(transaction@.events[k as int]));
            return None;
        }
        let ghost before = text@;
        push_event(&mut text, event);
        text.push('\n');
        assert(text@ == head + (event_lines(views, k as int) + event_line(views[k as int]) + seq![
            '\n',
        ]));
        k += 1;
    }
    assert(text@ == transaction_text(transaction@));
    let stored = string_of(&text);
    let bytes = stored.as_str().as_bytes_vec();
    Some(bytes)
}

/// Reads an event from its line.
fn read_event(line: &Vec<char>) -> (r: Option<Event>)
    ensures
        match r {
            Some(event) => parse_event_line(line@) == Some(event@),
            None => parse_event_line(line@) is None,
        },
{
    let words = split(line, ' ');
    let ghost views = line_views(words@);
    assert(views.len() == words@.len());
    assert(views.len() >= 1) by {
        lemma_split_on_nonempty(line@, ' ');
    }
    assert(views[0] == words@[0]@);
    let kind = &words[0];
    let n = words.len();
    proof {
        reveal_strlit("commit");
        reveal_strlit("hide");
        reveal_strlit("unhide");
        reveal_strlit("ref");
        reveal_strlit("rewrite");
    }
    if same_chars(kind, &chars_of("ref")) {
        if n < 5 {
            return None;
        }
        assert(views[1] == words@[1]@ && views[2] == words@[2]@ && views[3] == words@[3]@);
        let old = read_side(&words[1]);
        let new = read_side(&words[2]);
        let time = read_hex16(&words[3]);
        if words[1].len() > 40 || words[2].len() > 40 || words[3].len() > 16 {
            proof {
                assert(parse_side_text(views[1]) is None || parse_side_text(views[2]) is None
                    || parse_hex16(views[3]) is None);
            }
            return None;
        }
        let start = 4 + words[1].len() + 1 + words[2].len() + 1 + words[3].len() + 1;
        match (old, new, time) {
            (Some(old_commit_id), Some(new_commit_id), Some(t)) => {
                if start > line.len() {
                    return None;
                }
                let name = slice(line, start, line.len());
                assert(name@ == line@.skip(start as int));
                Some(
                    Event::RefUpdateEvent {
                        ref_name: string_of(&name),
                        old_commit_id,
                        new_commit_id,
                        time: #[verifier::truncate]
                        (t as i64),
                    },
                )
            },
            _ => None,
        }
    } else if same_chars(kind, &chars_of("rewrite")) {
        if n != 4 {
            return None;
        }
        assert(views[1] == words@[1]@ && views[2] == words@[2]@ && views[3] == words@[3]@);
        match (read_id(&words[1]), read_side(&words[2]), read_hex16(&words[3])) {
            (Some(old_commit_id), Some(new_commit_id), Some(t)) => Some(
                Event::RewriteEvent {
                    old_commit_id,
                    new_commit_id,
                    time: #[verifier::truncate]
                    (t as i64),
                },
            ),
            _ => None,
        }
    } else {
        let is_commit = same_chars(kind, &chars_of("commit"));
        let is_hide = same_chars(kind, &chars_of("hide"));
        let is_unhide = same_chars(kind, &chars_of("unhide"));
        if !(is_commit || is_hide || is_unhide) {
            return None;
        }
        if n != 3 {
            return None;
        }
        assert(views[1] == words@[1]@ && views[2] == words@[2]@);
        match (read_id(&words[1]), read_hex16(&words[2])) {
            (Some(commit_id), Some(t)) => {
                let time = #[verifier::truncate]
                (t as i64);
                if is_commit {
                    Some(Event::CommitCreated { commit_id, time })
                } else if is_hide {
                    Some(Event::HideEvent { commit_id, time })
                } else {
                    Some(Event::UnhideEvent { commit_id, time })
                }
            },
            _ => None,
        }
    }
}

/// Reads the transaction id from a header line.
fn read_header(line: &Vec<char>) -> (r: Option<u64>)
    ensures
        r == parse_header(line@),
{
    let words = split(line, ' ');
    let ghost views = line_views(words@);
    assert(views.len() == words@.len());
    if words.len() != 2 {
        return None;
    }
    assert(views[0] == words@[0]@ && views[1] == words@[1]@);
    if !same_chars(&words[0], &chars_of("transaction")) {
        return None;
    }
    read_hex16(&words[1])
}

/// Reads a transaction from the payload of a record. `None` exactly if the
/// bytes are not the text of a transaction.
pub fn decode_transaction(bytes: &Vec<u8>) -> (r: Option<Transaction>)
    ensures
        match r {
            Some(transaction) => parse_transaction(bytes@) == Some(transaction@),
            None => parse_transaction(bytes@) is None,
        },
{
    let stored = match text_of_bytes(bytes) {
        Some(text) => text,
        None => {
            return None;
        },
    };
    proof {
        encode_utf8_decode_utf8(stored@);
    }
    let text = chars_of(stored);
    assert(text@ == decode_utf8(bytes@));
    let lines = split(&text, '\n');
    let ghost views = line_views(lines@);
    assert(views.len() == lines@.len());
    let n = lines.len();
    if n < 2 {
        return None;
    }
    assert(views[n - 1] == lines@[n - 1]@);
    assert(views[0] == lines@[0]@);
    if lines[n - 1].len() != 0 {
        return None;
    }
    let id = match read_header(&lines[0]) {
        Some(id) => id,
        None => {
            return None;
        },
    };
    let mut events: Vec<Event> = Vec::new();
    let mut k: usize = 1;
    assert(event_views(events@) == Seq::<EventView>::empty());
    while k < n - 1
        invariant
            1 <= k <= n - 1,
            n == lines@.len(),
            views == line_views(lines@),
            views == split_on(text@, '\n'),
            valid_utf8(bytes@),
            text@ == decode_utf8(bytes@),
            parse_event_lines(views, k as int) == Some(event_views(events@)),
        decreases n - k,
    {
        assert(views[k as int] == lines@[k as int]@);
        match read_event(&lines[k]) {
            Some(event) => {
                let ghost before = events@;
                events.push(event);
                assert(event_views(events@) == event_views(before).push(event@));
            },
            None => {
                proof {
                    assert(parse_event_line(views[k as int]) is None);
                    assert(parse_event_lines(views, k + 1) is None);
                    lemma_parse_event_lines_fails(views, k + 1, (n - 1) as int);
                }
                return None;
            },
        }
        k += 1;
    }
    Some(Transaction { id, events })
}

/// Lines that cannot be read up to one point cannot be read beyond it.
proof fn lemma_parse_event_lines_fails(lines: Seq<Seq<char>>, k: int, n: int)
    requires
        k <= n,
        parse_event_lines(lines, k) is None,
    ensures
        parse_event_lines(lines, n) is None,
    decreases n - k,
{
    if k < n {
        lemma_parse_event_lines_fails(lines, k, n - 1);
    }
}

/// Text of hexadecimal digits holds neither a blank nor a line feed.
proof fn lemma_digits_are_plain(s: Seq<char>)
    requires
        forall|i: int| 0 <= i < s.len() ==> is_lower_hex(#[trigger] s[i]),
    ensures
        !s.contains(' '),
        !s.contains('\n'),
        s != seq!['-'],
{
    if s == seq!['-'] {
        assert(is_lower_hex(s[0]));
    }
}

/// A number is read back from its 16 digits.
pub proof fn lemma_hex16_round_trip(x: u64)
    ensures
        hex16(x).len() == 16,
        parse_hex16(hex16(x)) == Some(x),
        forall|i: int| 0 <= i < 16 ==> is_lower_hex(#[trigger] hex16(x)[i]),
{
    let high = (x / 0x1_0000_0000) as u32;
    let low = (x % 0x1_0000_0000) as u32;
    lemma_hex_word(high);
    lemma_hex_word(low);
    let s = hex16(x);
    let h = hex_digits(high as nat, 8);
    let l = hex_digits(low as nat, 8);
    assert(s == h + l);
    assert(s.take(8) == h);
    assert(s.skip(8) == l);
    assert forall|i: int| 0 <= i < 16 implies is_lower_hex(#[trigger] s[i]) && (
    #[trigger] hex_digit_value(s[i])) is Some by {
        if i < 8 {
            assert(s[i] == h[i]);
        } else {
            assert(s[i] == l[i - 8]);
        }
    }
}

/// A commit that may be absent is read back from its text, which holds
/// neither a blank nor a line feed.
pub proof fn lemma_side_round_trip(side: Option<CommitId>)
    ensures
        parse_side_text(side_text(side)) == Some(side),
        !side_text(side).contains(' '),
        !side_text(side).contains('\n'),
{
    match side {
        Some(id) => {
            lemma_hex_round_trip(id);
            lemma_digits_are_plain(id.hex_spec());
        },
        None => {
            let s = seq!['-'];
            if s.contains(' ') || s.contains('\n') {
                let i = choose|i: int| 0 <= i < s.len() && (s[i] == ' ' || s[i] == '\n');
                assert(s[i] == '-');
            }
        },
    }
}

/// A time is read back from the number that stands for it.
proof fn lemma_time_round_trip(time: i64)
    ensures
        ((time as u64) as i64) == time,
{
    assert(((time as u64) as i64) == time) by (bit_vector);
}

/// Three words free of blanks, with blanks between them, are split into
/// those words.
proof fn lemma_three_words(a: Seq<char>, b: Seq<char>, c: Seq<char>)
    requires
        !a.contains(' '),
        !b.contains(' '),
        !c.contains(' '),
    ensures
        split_on(a + seq![' '] + b + seq![' '] + c, ' ') == seq![a, b, c],
{
    lemma_split_on_first(a, ' ', b + seq![' '] + c);
    lemma_split_on_first(b, ' ', c);
    lemma_split_on_whole(c, ' ');
    assert(a + seq![' '] + b + seq![' '] + c == a + seq![' '] + (b + seq![' '] + c));
    assert(seq![a] + (seq![b] + seq![c]) == seq![a, b, c]);
}

/// Four words free of blanks, with blanks between them, are split into
/// those words.
proof fn lemma_four_words(a: Seq<char>, b: Seq<char>, c: Seq<char>, d: Seq<char>)
    requires
        !a.contains(' '),
        !b.contains(' '),
        !c.contains(' '),
        !d.contains(' '),
    ensures
        split_on(a + seq![' '] + b + seq![' '] + c + seq![' '] + d, ' ') == seq![a, b, c, d],
{
    lemma_split_on_first(a, ' ', b + seq![' '] + c + seq![' '] + d);
    lemma_three_words(b, c, d);
    assert(a + seq![' '] + b + seq![' '] + c + seq![' '] + d == a + seq![' '] + (b + seq![' ']
        + c + seq![' '] + d));
    assert(seq![a] + seq![b, c, d] == seq![a, b, c, d]);
}

/// Four words free of blanks and any text behind them, with blanks
/// between, are split into those words and the pieces of the text.
proof fn lemma_four_words_and_more(
    a: Seq<char>,
    b: Seq<char>,
    c: Seq<char>,
    d: Seq<char>,
    more: Seq<char>,
)
    requires
        !a.contains(' '),
        !b.contains(' '),
        !c.contains(' '),
        !d.contains(' '),
    ensures
        split_on(a + seq![' '] + b + seq![' '] + c + seq![' '] + d + seq![' '] + more, ' ')
            == seq![a, b, c, d] + split_on(more, ' '),
{
    let rest3 = d + seq![' '] + more;
    let rest2 = c + seq![' '] + rest3;
    let rest1 = b + seq![' '] + rest2;
    lemma_split_on_first(a, ' ', rest1);
    lemma_split_on_first(b, ' ', rest2);
    lemma_split_on_first(c, ' ', rest3);
    lemma_split_on_first(d, ' ', more);
    assert(a + seq![' '] + b + seq![' '] + c + seq![' '] + d + seq![' '] + more == a + seq![' ']
        + rest1);
    assert(rest1 == b + seq![' '] + rest2);
    assert(rest2 == c + seq![' '] + rest3);
    assert(seq![a] + (seq![b] + (seq![c] + (seq![d] + split_on(more, ' ')))) == seq![a, b, c, d]
        + split_on(more, ' '));
}

/// The words that start the lines hold no blank and no line feed, and
/// differ from one another.
proof fn lemma_keywords()
    ensures
        "commit "@ == "commit"@ + seq![' '],
        "rewrite "@ == "rewrite"@ + seq![' '],
        "ref "@ == "ref"@ + seq![' '],
        "hide "@ == "hide"@ + seq![' '],
        "unhide "@ == "unhide"@ + seq![' '],
        "transaction "@ == "transaction"@ + seq![' '],
        !"commit"@.contains(' ') && !"commit"@.contains('\n'),
        !"rewrite"@.contains(' ') && !"rewrite"@.contains('\n'),
        !"ref"@.contains(' ') && !"ref"@.contains('\n'),
        !"hide"@.contains(' ') && !"hide"@.contains('\n'),
        !"unhide"@.contains(' ') && !"unhide"@.contains('\n'),
        !"transaction"@.contains(' ') && !"transaction"@.contains('\n'),
        "ref"@.len() == 3,
        "commit"@ != "rewrite"@,
        "commit"@ != "ref"@,
        "commit"@ != "hide"@,
        "commit"@ != "unhide"@,
        "rewrite"@ != "ref"@,
        "rewrite"@ != "hide"@,
        "rewrite"@ != "unhide"@,
        "ref"@ != "hide"@,
        "ref"@ != "unhide"@,
        "hide"@ != "unhide"@,
{
    reveal_strlit("commit");
    reveal_strlit("rewrite");
    reveal_strlit("ref");
    reveal_strlit("hide");
    reveal_strlit("unhide");
    reveal_strlit("transaction");
    reveal_strlit("commit ");
    reveal_strlit("rewrite ");
    reveal_strlit("ref ");
    reveal_strlit("hide ");
    reveal_strlit("unhide ");
    reveal_strlit("transaction ");
    assert("commit"@[0] == 'c' && "unhide"@[0] == 'u');
    assert("commit "@ =~= "commit"@ + seq![' ']);
    assert("rewrite "@ =~= "rewrite"@ + seq![' ']);
    assert("ref "@ =~= "ref"@ + seq![' ']);
    assert("hide "@ =~= "hide"@ + seq![' ']);
    assert("unhide "@ =~= "unhide"@ + seq![' ']);
    assert("transaction "@ =~= "transaction"@ + seq![' ']);
}

/// An event is read back from its line.
pub proof fn lemma_event_round_trip(event: EventView)
    ensures
        parse_event_line(event_line(event)) == Some(event),
{
    lemma_keywords();
    let line = event_line(event);
    match event {
        EventView::CommitCreated { commit_id, time } => {
            lemma_hex_round_trip(commit_id);
            lemma_digits_are_plain(commit_id.hex_spec());
            lemma_hex16_round_trip(time as u64);
            lemma_digits_are_plain(hex16(time as u64));
            lemma_time_round_trip(time);
            lemma_three_words("commit"@, commit_id.hex_spec(), hex16(time as u64));
            assert(line == "commit"@ + seq![' '] + commit_id.hex_spec() + seq![' '] + hex16(
                time as u64,
            ));
        },
        EventView::HideEvent { commit_id, time } => {
            lemma_hex_round_trip(commit_id);
            lemma_digits_are_plain(commit_id.hex_spec());
            lemma_hex16_round_trip(time as u64);
            lemma_digits_are_plain(hex16(time as u64));
            lemma_time_round_trip(time);
            lemma_three_words("hide"@, commit_id.hex_spec(), hex16(time as u64));
            assert(line == "hide"@ + seq![' '] + commit_id.hex_spec() + seq![' '] + hex16(
                time as u64,
            ));
        },
        EventView::UnhideEvent { commit_id, time } => {
            lemma_hex_round_trip(commit_id);
            lemma_digits_are_plain(commit_id.hex_spec());
            lemma_hex16_round_trip(time as u64);
            lemma_digits_are_plain(hex16(time as u64));
            lemma_time_round_trip(time);
            lemma_three_words("unhide"@, commit_id.hex_spec(), hex16(time as u64));
            assert(line == "unhide"@ + seq![' '] + commit_id.hex_spec() + seq![' '] + hex16(
                time as u64,
            ));
        },
        EventView::RewriteEvent { old_commit_id, new_commit_id, time } => {
            lemma_hex_round_trip(old_commit_id);
            lemma_digits_are_plain(old_commit_id.hex_spec());
            lemma_side_round_trip(new_commit_id);
            lemma_hex16_round_trip(time as u64);
            lemma_digits_are_plain(hex16(time as u64));
            lemma_time_round_trip(time);
            lemma_four_words(
                "rewrite"@,
                old_commit_id.hex_spec(),
                side_text(new_commit_id),
                hex16(time as u64),
            );
            assert(line == "rewrite"@ + seq![' '] + old_commit_id.hex_spec() + seq![' ']
                + side_text(new_commit_id) + seq![' '] + hex16(time as u64));
        },
        EventView::RefUpdateEvent { ref_name, old_commit_id, new_commit_id, time } => {
            lemma_side_round_trip(old_commit_id);
            lemma_side_round_trip(new_commit_id);
            lemma_hex16_round_trip(time as u64);
            lemma_digits_are_plain(hex16(time as u64));
            lemma_time_round_trip(time);
            lemma_four_words_and_more(
                "ref"@,
                side_text(old_commit_id),
                side_text(new_commit_id),
                hex16(time as u64),
                ref_name,
            );
            let front = "ref"@ + seq![' '] + side_text(old_commit_id) + seq![' '] + side_text(
                new_commit_id,
            ) + seq![' '] + hex16(time as u64) + seq![' '];
            assert(line == front + ref_name);
            let words = split_on(line, ' ');
            lemma_split_on_nonempty(ref_name, ' ');
            assert(words == seq![
                "ref"@,
                side_text(old_commit_id),
                side_text(new_commit_id),
                hex16(time as u64),
            ] + split_on(ref_name, ' '));
            assert(words[0] == "ref"@);
            assert(words[1] == side_text(old_commit_id));
            assert(words[2] == side_text(new_commit_id));
            assert(words[3] == hex16(time as u64));
            assert(name_start(words) == front.len());
            assert(line.skip(front.len() as int) == ref_name);
        },
    }
}

/// Two texts without a line feed, with a blank between them, hold no line
/// feed.
proof fn lemma_one_line(a: Seq<char>, b: Seq<char>)
    requires
        !a.contains('\n'),
        !b.contains('\n'),
    ensures
        !(a + seq![' '] + b).contains('\n'),
{
    let s = a + seq![' '] + b;
    if s.contains('\n') {
        let i = choose|i: int| 0 <= i < s.len() && s[i] == '\n';
        if i < a.len() {
            assert(a.contains(a[i]));
        } else if i > a.len() {
            assert(s[i] == b[i - a.len() - 1]);
            assert(b.contains(b[i - a.len() - 1]));
        }
    }
}

/// The line of an event that fits on a line holds no line feed.
pub proof fn lemma_event_line_is_one_line(event: EventView)
    requires
        fits_on_a_line(event),
    ensures
        !event_line(event).contains('\n'),
{
    lemma_keywords();
    let line = event_line(event);
    match event {
        EventView::CommitCreated { commit_id, time } => {
            lemma_kind_id_time_is_one_line("commit"@, commit_id, time);
            assert(line == "commit"@ + seq![' '] + commit_id.hex_spec() + seq![' '] + hex16(
                time as u64,
            ));
        },
        EventView::HideEvent { commit_id, time } => {
            lemma_kind_id_time_is_one_line("hide"@, commit_id, time);
            assert(line == "hide"@ + seq![' '] + commit_id.hex_spec() + seq![' '] + hex16(
                time as u64,
            ));
        },
        EventView::UnhideEvent { commit_id, time } => {
            lemma_kind_id_time_is_one_line("unhide"@, commit_id, time);
            assert(line == "unhide"@ + seq![' '] + commit_id.hex_spec() + seq![' '] + hex16(
                time as u64,
            ));
        },
        EventView::RewriteEvent { old_commit_id, new_commit_id, time } => {
            lemma_hex_round_trip(old_commit_id);
            lemma_digits_are_plain(old_commit_id.hex_spec());
            lemma_side_round_trip(new_commit_id);
            lemma_hex16_round_trip(time as u64);
            lemma_digits_are_plain(hex16(time as u64));
            let a = "rewrite"@ + seq![' '] + old_commit_id.hex_spec();
            lemma_one_line("rewrite"@, old_commit_id.hex_spec());
            let b = a + seq![' '] + side_text(new_commit_id);
            lemma_one_line(a, side_text(new_commit_id));
            lemma_one_line(b, hex16(time as u64));
            assert(line == b + seq![' '] + hex16(time as u64));
        },
        EventView::RefUpdateEvent { ref_name, old_commit_id, new_commit_id, time } => {
            lemma_side_round_trip(old_commit_id);
            lemma_side_round_trip(new_commit_id);
            lemma_hex16_round_trip(time as u64);
            lemma_digits_are_plain(hex16(time as u64));
            let a = "ref"@ + seq![' '] + side_text(old_commit_id);
            lemma_one_line("ref"@, side_text(old_commit_id));
            let b = a + seq![' '] + side_text(new_commit_id);
            lemma_one_line(a, side_text(new_commit_id));
            let c = b + seq![' '] + hex16(time as u64);
            lemma_one_line(b, hex16(time as u64));
            lemma_one_line(c, ref_name);
            assert(line == c + seq![' '] + ref_name);
        },
    }
}

/// A line of a keyword, a commit and a time holds no line feed.
proof fn lemma_kind_id_time_is_one_line(kind: Seq<char>, commit_id: CommitId, time: i64)
    requires
        !kind.contains('\n'),
    ensures
        !(kind + seq![' '] + commit_id.hex_spec() + seq![' '] + hex16(time as u64)).contains('\n'),
{
    lemma_hex_round_trip(commit_id);
    lemma_digits_are_plain(commit_id.hex_spec());
    lemma_hex16_round_trip(time as u64);
    lemma_digits_are_plain(hex16(time as u64));
    lemma_one_line(kind, commit_id.hex_spec());
    lemma_one_line(kind + seq![' '] + commit_id.hex_spec(), hex16(time as u64));
}

/// The header line of a transaction with the id `id`.
spec fn header_line(id: u64) -> Seq<char> {
    "transaction"@ + seq![' '] + hex16(id)
}

/// The lines of the first `k` of `events`.
spec fn lines_of(events: Seq<EventView>, k: int) -> Seq<Seq<char>> {
    Seq::new(k as nat, |i: int| event_line(events[i]))
}

/// A transaction id is read back from its header line, which holds no
/// line feed.
proof fn lemma_header_round_trip(id: u64)
    ensures
        parse_header(header_line(id)) == Some(id),
        !header_line(id).contains('\n'),
{
    lemma_keywords();
    lemma_hex16_round_trip(id);
    lemma_digits_are_plain(hex16(id));
    lemma_split_on_first("transaction"@, ' ', hex16(id));
    lemma_split_on_whole(hex16(id), ' ');
    assert(seq!["transaction"@] + seq![hex16(id)] == seq!["transaction"@, hex16(id)]);
    lemma_one_line("transaction"@, hex16(id));
}

/// The text of a transaction, cut behind its first `k` events, is split
/// at the line feeds into the header line, the lines of those events, and
/// an empty piece.
proof fn lemma_transaction_lines(transaction: TransactionView, k: int)
    requires
        0 <= k <= transaction.events.len(),
        forall|i: int|
            0 <= i < transaction.events.len() ==> fits_on_a_line(#[trigger] transaction.events[i]),
    ensures
        split_on(
            header_line(transaction.id) + seq!['\n'] + event_lines(transaction.events, k),
            '\n',
        ) == (seq![header_line(transaction.id)] + lines_of(transaction.events, k)).push(
            Seq::empty(),
        ),
    decreases k,
{
    let header = header_line(transaction.id);
    let events = transaction.events;
    lemma_header_round_trip(transaction.id);
    if k == 0 {
        lemma_split_on_first(header, '\n', Seq::empty());
        assert(split_on(Seq::<char>::empty(), '\n') == seq![Seq::<char>::empty()]);
        assert(header + seq!['\n'] + event_lines(events, 0) == header + seq!['\n'] + Seq::<
            char,
        >::empty());
        assert(seq![header] + seq![Seq::<char>::empty()] == (seq![header] + lines_of(
            events,
            0,
        )).push(Seq::empty()));
    } else {
        lemma_transaction_lines(transaction, k - 1);
        let line = event_line(events[k - 1]);
        lemma_event_line_is_one_line(events[k - 1]);
        let before = header + seq!['\n'] + event_lines(events, k - 1);
        let pieces = seq![header] + lines_of(events, k - 1);
        lemma_split_on_append(before, pieces, line, '\n');
        assert(header + seq!['\n'] + event_lines(events, k) == before + line + seq!['\n']);
        assert(pieces.push(line) == seq![header] + lines_of(events, k));
    }
}

/// The lines of a transaction are read back as its events.
proof fn lemma_lines_round_trip(events: Seq<EventView>, lines: Seq<Seq<char>>, k: int)
    requires
        1 <= k <= events.len() + 1,
        lines.len() == events.len() + 2,
        forall|i: int| 0 <= i < events.len() ==> lines[i + 1] == event_line(#[trigger] events[i]),
    ensures
        parse_event_lines(lines, k) == Some(events.take(k - 1)),
    decreases k,
{
    if k == 1 {
        assert(events.take(0) == Seq::<EventView>::empty());
    } else {
        lemma_lines_round_trip(events, lines, k - 1);
        lemma_event_round_trip(events[k - 2]);
        assert(lines[k - 1] == event_line(events[k - 2]));
        assert(events.take(k - 2).push(events[k - 2]) == events.take(k - 1));
    }
}

/// What is written is what is read: a transaction whose events fit on a
/// line each is read back from the bytes that it is stored as.
pub proof fn lemma_transaction_round_trip(transaction: TransactionView)
    requires
        forall|i: int|
            0 <= i < transaction.events.len() ==> fits_on_a_line(#[trigger] transaction.events[i]),
    ensures
        parse_transaction(encode_utf8(transaction_text(transaction))) == Some(transaction),
{
    let text = transaction_text(transaction);
    let events = transaction.events;
    let n = events.len() as int;
    encode_utf8_valid_utf8(text);
    encode_utf8_decode_utf8(text);
    lemma_keywords();
    lemma_header_round_trip(transaction.id);
    lemma_transaction_lines(transaction, n);
    let header = header_line(transaction.id);
    assert(text == header + seq!['\n'] + event_lines(events, n));
    let lines = split_on(text, '\n');
    assert(lines == (seq![header] + lines_of(events, n)).push(Seq::empty()));
    assert(lines.len() == n + 2);
    assert(lines[0] == header);
    assert(lines.last() == Seq::<char>::empty());
    assert forall|i: int| 0 <= i < n implies lines[i + 1] == event_line(#[trigger] events[i]) by {
        assert(lines[i + 1] == lines_of(events, n)[i]);
    }
    lemma_lines_round_trip(events, lines, n + 1);
    assert(events.take(n) == events);
}

} // verus!
