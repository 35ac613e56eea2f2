//! The snapshot text: each attempt as three lines (name, wave, time), in
//! the order of the leaderboard, with nothing before, between or after
//! them.

use vstd::prelude::*;
use vstd::utf8::*;
use vstd::slice::{slice_subrange, slice_to_vec};
use crate::bytes::push_all;
use crate::database::{Attempt, Record, attempts_of};
use crate::number::{
    decimal, is_digit, lemma_decimal_reads_back, lemma_parse_decimal, parse_number, parse_u32,
    push_decimal,
};
use crate::text::{
    lemma_encoding_holds_byte, lemma_encoding_lacks_byte, lemma_encoding_last_byte, text_from_utf8,
};

verus! {

/// The byte that ends a line.
pub const LINE_FEED: u8 = 10;

/// The byte that is dropped where it stands right before a line feed.
pub const CARRIAGE_RETURN: u8 = 13;

/// Why a snapshot text is not a list of attempts.
#[derive(Clone, Copy, Debug, PartialEq, Eq)]
pub enum SnapshotError {
    /// A name line is not well-formed UTF-8.
    InvalidName,
    /// A wave line is not an unsigned 32-bit decimal number.
    InvalidWave,
    /// A time line is not an unsigned 32-bit decimal number.
    InvalidTime,
    /// The text ends inside a group of three lines.
    Incomplete,
}

/// The first position from `from` on that holds a line feed, or the length
/// of `s` if there is none.
pub open spec fn line_end(s: Seq<u8>, from: int) -> int
    decreases s.len() - from,
{
    if from < 0 || from >= s.len() || s[from] == LINE_FEED {
        from
    } else {
        line_end(s, from + 1)
    }
}

/// The first line of a non-empty text: what stands before the first line
/// feed, less a carriage return right before it; or all of the text if it
/// holds no line feed.
pub open spec fn first_line(s: Seq<u8>) -> Seq<u8> {
    let end = line_end(s, 0);
    if 0 < end < s.len() && s[end - 1] == CARRIAGE_RETURN {
        s.subrange(0, end - 1)
    } else {
        s.subrange(0, end)
    }
}

/// What follows the first line and its line feed.
pub open spec fn after_first_line(s: Seq<u8>) -> Seq<u8> {
    let end = line_end(s, 0);
    if end < s.len() {
        s.subrange(end + 1, s.len() as int)
    } else {
        Seq::empty()
    }
}

/// The lines of a text. A text that ends in a line feed has no empty line
/// after it.
pub open spec fn lines(s: Seq<u8>) -> Seq<Seq<u8>>
    decreases s.len(),
    via lines_decreases
{
    if s.len() == 0 {
        Seq::empty()
    } else {
        seq![first_line(s)] + lines(after_first_line(s))
    }
}

/// What follows the first line of a non-empty text is shorter than the
/// text.
#[via_fn]
proof fn lines_decreases(s: Seq<u8>) {
    if s.len() != 0 {
        lemma_line_end_bounds(s, 0);
    }
}

/// `line_end` stays within the text and stops on a line feed, having
/// passed none.
pub proof fn lemma_line_end_bounds(s: Seq<u8>, from: int)
    requires
        0 <= from <= s.len(),
    ensures
        from <= line_end(s, from) <= s.len(),
        line_end(s, from) < s.len() ==> s[line_end(s, from)] == 10,
        forall|k: int| from <= k < line_end(s, from) ==> s[k] != 10,
    decreases s.len() - from,
{
    if from < s.len() && s[from] != 10 {
        lemma_line_end_bounds(s, from + 1);
    }
}

/// The position that stops on a line feed, or at the end, with no line
/// feed before it, is the one `line_end` finds.
pub proof fn lemma_line_end_is(s: Seq<u8>, from: int, end: int)
    requires
        0 <= from <= end <= s.len(),
        forall|k: int| from <= k < end ==> s[k] != 10,
        end < s.len() ==> s[end] == 10,
    ensures
        line_end(s, from) == end,
    decreases end - from,
{
    if from < end {
        lemma_line_end_is(s, from + 1, end);
    }
}

/// The attempts `done`, followed by what `rest` holds if it holds any.
pub open spec fn with_prefix(done: Seq<Attempt>, rest: Result<Seq<Attempt>, SnapshotError>) -> Result<
    Seq<Attempt>,
    SnapshotError,
> {
    match rest {
        Ok(more) => Ok(done + more),
        Err(e) => Err(e),
    }
}

/// The attempts that a list of lines holds, three lines to an attempt, or
/// the first fault met on the way.
pub open spec fn attempts_in(lines: Seq<Seq<u8>>) -> Result<Seq<Attempt>, SnapshotError>
    decreases lines.len(),
{
    if lines.len() == 0 {
        Ok(Seq::empty())
    } else if !valid_utf8(lines[0]) {
        Err(SnapshotError::InvalidName)
    } else if lines.len() < 2 {
        Err(SnapshotError::Incomplete)
    } else if parse_number(lines[1]) is None {
        Err(SnapshotError::InvalidWave)
    } else if lines.len() < 3 {
        Err(SnapshotError::Incomplete)
    } else if parse_number(lines[2]) is None {
        Err(SnapshotError::InvalidTime)
    } else {
        with_prefix(
            seq![
                Attempt {
                    name: decode_utf8(lines[0]),
                    wave: parse_number(lines[1])->0,
                    time: parse_number(lines[2])->0,
                },
            ],
            attempts_in(lines.skip(3)),
        )
    }
}

/// The attempts that a snapshot text holds, or why it holds none.
pub open spec fn read_snapshot(text: Seq<u8>) -> Result<Seq<Attempt>, SnapshotError> {
    attempts_in(lines(text))
}

/// The three lines that one attempt is written as.
pub open spec fn record_text(a: Attempt) -> Seq<u8> {
    encode_utf8(a.name) + seq![LINE_FEED] + decimal(a.wave as nat) + seq![LINE_FEED] + decimal(
        a.time as nat,
    ) + seq![LINE_FEED]
}

/// The snapshot text of a list of attempts: each attempt's three lines, in
/// the order of the list.
pub open spec fn snapshot_text(s: Seq<Attempt>) -> Seq<u8>
    decreases s.len(),
{
    if s.len() == 0 {
        Seq::empty()
    } else {
        record_text(s[0]) + snapshot_text(s.drop_first())
    }
}

/// The name can stand on a line of its own and be read back: it holds no
/// line feed, and does not end in a carriage return.
pub open spec fn fits_one_line(name: Seq<char>) -> bool {
    &&& forall|i: int| 0 <= i < name.len() ==> #[trigger] name[i] != '\n'
    &&& name.len() > 0 ==> name.last() != '\r'
}

/// A line that holds no line feed and does not end in a carriage return,
/// followed by a line feed, is the first line of any text that starts so.
pub proof fn lemma_lines_after_line(line: Seq<u8>, rest: Seq<u8>)
    requires
        forall|k: int| 0 <= k < line.len() ==> #[trigger] line[k] != 10,
        line.len() > 0 ==> line.last() != 13,
    ensures
        lines(line + seq![10u8] + rest) == seq![line] + lines(rest),
{
    let s = line + seq![10u8] + rest;
    lemma_line_end_is(s, 0, line.len() as int);
    assert(first_line(s) =~= line);
    assert(after_first_line(s) =~= rest);
}

/// The encoding of a name that fits one line holds no line feed and does
/// not end in a carriage return.
pub proof fn lemma_name_line(name: Seq<char>)
    requires
        fits_one_line(name),
    ensures
        forall|k: int| 0 <= k < encode_utf8(name).len() ==> #[trigger] encode_utf8(name)[k] != 10,
        encode_utf8(name).len() > 0 ==> encode_utf8(name).last() != 13,
{
    assert forall|i: int| 0 <= i < name.len() implies (#[trigger] name[i]) as u32 != 10u8 by {
        if name[i] as u32 == 10 {
            char_u32_cast(name[i], 10u32);
        }
    }
    lemma_encoding_lacks_byte(name, 10u8);
    if name.len() > 0 {
        if name.last() as u32 == 13 {
            char_u32_cast(name.last(), 13u32);
        }
        lemma_encoding_last_byte(name, 13u8);
    } else {
        assert(encode_utf8(name).len() == 0);
    }
}

/// A decimal number holds no line feed and no carriage return.
pub proof fn lemma_decimal_line(n: nat)
    ensures
        forall|k: int| 0 <= k < decimal(n).len() ==> #[trigger] decimal(n)[k] != 10,
        decimal(n).len() > 0 ==> decimal(n).last() != 13,
{
    lemma_decimal_reads_back(n);
    assert forall|k: int| 0 <= k < decimal(n).len() implies #[trigger] decimal(n)[k] != 10 by {
        assert(is_digit(decimal(n)[k]));
    }
    assert(is_digit(decimal(n)[decimal(n).len() - 1]));
}

/// The three lines of an attempt, as they are written.
pub open spec fn record_lines(a: Attempt) -> Seq<Seq<u8>> {
    seq![encode_utf8(a.name), decimal(a.wave as nat), decimal(a.time as nat)]
}

/// A text that starts with the three lines of an attempt has these as its
/// first three lines.
pub proof fn lemma_lines_of_record(a: Attempt, rest: Seq<u8>)
    requires
        fits_one_line(a.name),
    ensures
        lines(record_text(a) + rest) == record_lines(a) + lines(rest),
{
    let name = encode_utf8(a.name);
    let wave = decimal(a.wave as nat);
    let time = decimal(a.time as nat);
    let after_wave = time + seq![10u8] + rest;
    let after_name = wave + seq![10u8] + after_wave;
    lemma_name_line(a.name);
    lemma_decimal_line(a.wave as nat);
    lemma_decimal_line(a.time as nat);
    assert(record_text(a) + rest =~= name + seq![10u8] + after_name);
    lemma_lines_after_line(name, after_name);
    lemma_lines_after_line(wave, after_wave);
    lemma_lines_after_line(time, rest);
    assert(seq![name] + (seq![wave] + (seq![time] + lines(rest))) =~= record_lines(a) + lines(rest));
}

/// The three lines of an attempt are read as that attempt.
pub proof fn lemma_attempt_of_lines(a: Attempt, more: Seq<Seq<u8>>)
    ensures
        attempts_in(record_lines(a) + more) == with_prefix(seq![a], attempts_in(more)),
{
    let all = record_lines(a) + more;
    assert(all[0] == encode_utf8(a.name));
    assert(all[1] == decimal(a.wave as nat));
    assert(all[2] == decimal(a.time as nat));
    assert(all.skip(3) =~= more);
    encode_utf8_valid_utf8(a.name);
    encode_utf8_decode_utf8(a.name);
    lemma_parse_decimal(a.wave);
    lemma_parse_decimal(a.time);
}

/// Reading a written snapshot gives back the attempts that were written,
/// in the same order and with the same values, provided that every name
/// fits one line.
pub proof fn lemma_snapshot_round_trip(s: Seq<Attempt>)
    requires
        forall|i: int| 0 <= i < s.len() ==> fits_one_line(#[trigger] s[i].name),
    ensures
        read_snapshot(snapshot_text(s)) == Ok::<Seq<Attempt>, SnapshotError>(s),
    decreases s.len(),
{
    if s.len() == 0 {
        assert(lines(snapshot_text(s)) =~= Seq::<Seq<u8>>::empty());
        assert(s =~= Seq::<Attempt>::empty());
    } else {
        let tail = s.drop_first();
        assert forall|i: int| 0 <= i < tail.len() implies fits_one_line(#[trigger] tail[i].name) by {
            assert(tail[i] == s[i + 1]);
        }
        lemma_snapshot_round_trip(tail);
        lemma_lines_of_record(s[0], snapshot_text(tail));
        lemma_attempt_of_lines(s[0], lines(snapshot_text(tail)));
        assert(seq![s[0]] + tail =~= s);
    }
}

/// The first line of a text that starts with a name that does not fit one
/// line, followed by a line feed, is not that name's encoding.
proof fn lemma_line_of_unfit_name(name: Seq<char>, rest: Seq<u8>)
    requires
        !fits_one_line(name),
    ensures
        first_line(encode_utf8(name) + seq![LINE_FEED] + rest) != encode_utf8(name),
{
    let enc = encode_utf8(name);
    let text = enc + seq![LINE_FEED] + rest;
    let end = line_end(text, 0);
    lemma_line_end_bounds(text, 0);
    assert(text[enc.len() as int] == LINE_FEED);
    if exists|i: int| 0 <= i < name.len() && name[i] == '\n' {
        let i = choose|i: int| 0 <= i < name.len() && name[i] == '\n';
        lemma_encoding_holds_byte(name, i);
        let k = choose|k: int| 0 <= k < enc.len() && #[trigger] enc[k] == name[i] as u32;
        assert(text[k] == LINE_FEED);
        assert(end <= k);
        assert(first_line(text).len() < enc.len());
    } else {
        assert forall|i: int| 0 <= i < name.len() implies (#[trigger] name[i]) as u32 != 10u8 by {
            if name[i] as u32 == 10 {
                char_u32_cast(name[i], 10u32);
            }
        }
        lemma_encoding_lacks_byte(name, 10u8);
        lemma_encoding_last_byte(name, 13u8);
        assert forall|k: int| 0 <= k < enc.len() implies text[k] != LINE_FEED by {
            assert(text[k] == enc[k]);
        }
        lemma_line_end_is(text, 0, enc.len() as int);
        assert(text[enc.len() - 1] == enc.last());
        assert(first_line(text).len() == enc.len() - 1);
    }
}

/// A written snapshot is read back as it was written only if every name
/// fits one line.
pub proof fn lemma_snapshot_round_trip_needs_lines(s: Seq<Attempt>)
    requires
        read_snapshot(snapshot_text(s)) == Ok::<Seq<Attempt>, SnapshotError>(s),
    ensures
        forall|i: int| 0 <= i < s.len() ==> fits_one_line(#[trigger] s[i].name),
    decreases s.len(),
{
    if s.len() > 0 {
        let a = s[0];
        let tail = s.drop_first();
        let rest = snapshot_text(tail);
        let text = snapshot_text(s);
        let all = lines(text);
        if fits_one_line(a.name) {
            lemma_lines_of_record(a, rest);
            lemma_attempt_of_lines(a, lines(rest));
            let read = attempts_in(lines(rest));
            assert(read is Ok);
            assert(read->Ok_0 =~= tail) by {
                assert((seq![a] + read->Ok_0).drop_first() =~= read->Ok_0);
            }
            lemma_snapshot_round_trip_needs_lines(tail);
            assert forall|i: int| 0 <= i < s.len() implies fits_one_line(#[trigger] s[i].name) by {
                if i > 0 {
                    assert(s[i] == tail[i - 1]);
                }
            }
        } else {
            let after = decimal(a.wave as nat) + seq![LINE_FEED] + decimal(a.time as nat) + seq![
                LINE_FEED,
            ] + rest;
            assert(text =~= encode_utf8(a.name) + seq![LINE_FEED] + after);
            lemma_line_of_unfit_name(a.name, after);
            let line = first_line(text);
            assert(all[0] == line);
            assert(valid_utf8(line));
            let read = attempts_in(all.skip(3));
            assert(read is Ok);
            let first = Attempt {
                name: decode_utf8(line),
                wave: parse_number(all[1])->0,
                time: parse_number(all[2])->0,
            };
            assert((seq![first] + read->Ok_0)[0] == first);
            assert(decode_utf8(line) == a.name);
            decode_utf8_encode_utf8(line);
            assert(false);
        }
    }
}

/// A written snapshot is read back as it was written exactly where every
/// name fits one line.
pub proof fn lemma_snapshot_round_trip_iff(s: Seq<Attempt>)
    ensures
        read_snapshot(snapshot_text(s)) == Ok::<Seq<Attempt>, SnapshotError>(s) <==> forall|i: int|
            0 <= i < s.len() ==> fits_one_line(#[trigger] s[i].name),
{
    if read_snapshot(snapshot_text(s)) == Ok::<Seq<Attempt>, SnapshotError>(s) {
        lemma_snapshot_round_trip_needs_lines(s);
    }
    if forall|i: int| 0 <= i < s.len() ==> fits_one_line(#[trigger] s[i].name) {
        lemma_snapshot_round_trip(s);
    }
}

/// Finds the first line of what `text` holds from `pos` on. Returns where
/// that line's text ends and where the text after the line starts.
fn scan_line(text: &[u8], pos: usize) -> (r: (usize, usize))
    requires
        pos < text@.len(),
    ensures
        pos <= r.0 <= r.1 <= text@.len(),
        pos < r.1,
        text@.subrange(pos as int, r.0 as int) == first_line(
            text@.subrange(pos as int, text@.len() as int),
        ),
        text@.subrange(r.1 as int, text@.len() as int) == after_first_line(
            text@.subrange(pos as int, text@.len() as int),
        ),
{
    let n: usize = text.len();
    let ghost rest = text@.subrange(pos as int, n as int);
    let mut end: usize = pos;
    while end < n && text[end] != LINE_FEED
        invariant
            pos <= end <= n,
            n == text@.len(),
            forall|k: int| pos <= k < end ==> text@[k] != 10,
        decreases n - end,
    {
        end = end + 1;
    }
    proof {
        lemma_line_end_is(rest, 0, end - pos);
    }
    if end < n {
        let stop: usize = if end > pos && text[end - 1] == CARRIAGE_RETURN {
            end - 1
        } else {
            end
        };
        assert(text@.subrange(pos as int, stop as int) =~= first_line(rest));
        assert(text@.subrange(end + 1, n as int) =~= after_first_line(rest));
        (stop, end + 1)
    } else {
        assert(text@.subrange(pos as int, n as int) =~= first_line(rest));
        assert(text@.subrange(n as int, n as int) =~= after_first_line(rest));
        (n, n)
    }
}

/// Reads a snapshot text into records, in the order in which it holds them.
pub fn parse_snapshot(text: &[u8]) -> (r: Result<Vec<Record>, SnapshotError>)
    ensures
        match r {
            Ok(records) => read_snapshot(text@) == Ok::<Seq<Attempt>, SnapshotError>(
                attempts_of(records@),
            ),
            Err(e) => read_snapshot(text@) == Err::<Seq<Attempt>, SnapshotError>(e),
        },
{
    let n: usize = text.len();
    let mut records: Vec<Record> = Vec::new();
    let mut pos: usize = 0;
    assert(text@.subrange(0, n as int) =~= text@);
    assert(attempts_of(records@) + Seq::<Attempt>::empty() =~= Seq::<Attempt>::empty());
    while pos < n
        invariant
            pos <= n,
            n == text@.len(),
            read_snapshot(text@) == with_prefix(
                attempts_of(records@),
                attempts_in(lines(text@.subrange(pos as int, n as int))),
            ),
        decreases n - pos,
    {
        let ghost all = lines(text@.subrange(pos as int, n as int));
        let (name_end, wave_at) = scan_line(text, pos);
        let name_line = slice_subrange(text, pos, name_end);
        let ghost after_name = lines(text@.subrange(wave_at as int, n as int));
        assert(all == seq![name_line@] + after_name);
        assert(all[0] == name_line@);
        let name = match text_from_utf8(slice_to_vec(name_line)) {
            Some(name) => name,
            None => {
                return Err(SnapshotError::InvalidName);
            },
        };
        if wave_at >= n {
            assert(after_name.len() == 0);
            return Err(SnapshotError::Incomplete);
        }
        let (wave_end, time_at) = scan_line(text, wave_at);
        let wave_line = slice_subrange(text, wave_at, wave_end);
        let ghost after_wave = lines(text@.subrange(time_at as int, n as int));
        assert(after_name == seq![wave_line@] + after_wave);
        assert(all[1] == wave_line@);
        let wave = match parse_u32(wave_line) {
            Some(wave) => wave,
            None => {
                return Err(SnapshotError::InvalidWave);
            },
        };
        if time_at >= n {
            assert(after_wave.len() == 0);
            return Err(SnapshotError::Incomplete);
        }
        let (time_end, next) = scan_line(text, time_at);
        let time_line = slice_subrange(text, time_at, time_end);
        let ghost rest = lines(text@.subrange(next as int, n as int));
        assert(after_wave == seq![time_line@] + rest);
        assert(all[2] == time_line@);
        let time = match parse_u32(time_line) {
            Some(time) => time,
            None => {
                return Err(SnapshotError::InvalidTime);
            },
        };
        let ghost done = attempts_of(records@);
        let record = Record { name, wave, time };
        assert(all.skip(3) =~= rest);
        assert(attempts_in(all) == with_prefix(seq![record@], attempts_in(rest)));
        records.push(record);
        assert(attempts_of(records@) =~= done + seq![record@]);
        assert(with_prefix(done, with_prefix(seq![record@], attempts_in(rest))) == with_prefix(
            done + seq![record@],
            attempts_in(rest),
        )) by {
            if let Ok(more) = attempts_in(rest) {
                assert(done + (seq![record@] + more) =~= (done + seq![record@]) + more);
            }
        }
        pos = next;
    }
    assert(lines(text@.subrange(n as int, n as int)).len() == 0);
    assert(attempts_of(records@) + Seq::<Attempt>::empty() =~= attempts_of(records@));
    Ok(records)
}

/// Writes the snapshot text of the given records.
pub fn write_snapshot(records: &Vec<Record>) -> (out: Vec<u8>)
    ensures
        out@ == snapshot_text(attempts_of(records@)),
{
    let ghost all = attempts_of(records@);
    let mut out: Vec<u8> = Vec::new();
    let n: usize = records.len();
    let mut i: usize = 0;
    assert(all.skip(0) =~= all);
    assert(out@ + snapshot_text(all) =~= snapshot_text(all));
    while i < n
        invariant
            i <= n,
            n == records@.len(),
            all == attempts_of(records@),
            out@ + snapshot_text(all.skip(i as int)) == snapshot_text(all),
        decreases n - i,
    {
        let ghost before = out@;
        let ghost a = all[i as int];
        let ghost rest = all.skip(i as int);
        assert(rest[0] == a);
        assert(rest.drop_first() =~= all.skip(i + 1));
        let record = &records[i];
        assert(record@ == a);
        push_all(&mut out, record.name.as_str().as_bytes());
        out.push(LINE_FEED);
        push_decimal(&mut out, record.wave);
        out.push(LINE_FEED);
        push_decimal(&mut out, record.time);
        out.push(LINE_FEED);
        assert(out@ =~= before + record_text(a));
        assert(before + record_text(a) + snapshot_text(all.skip(i + 1)) =~= before + (record_text(a)
            + snapshot_text(all.skip(i + 1))));
        i = i + 1;
    }
    assert(snapshot_text(all.skip(n as int)) =~= Seq::<u8>::empty());
    assert(out@ + Seq::<u8>::empty() =~= out@);
    out
}

} // verus!
