//! One vocabulary record: its stored line form, and the timeout update that
//! defers a word after it has been reviewed.

use crate::codec::{
    clone_bytes, contains_byte, dec_digits, delim, has_match, is_num,
    lemma_dec_digits_roundtrip, lemma_digits_value_nonneg, lemma_split_delim_concat,
    lemma_split_on_no_byte, lemma_split_on_no_match, lemma_split_on_whole, num_value, parse_u64,
    push_all, push_dec, push_delim, split_fields, split_on, views_of,
};
use vstd::prelude::*;

verus! {

/// One day, in seconds.
pub const DAY: u64 = 86400;

/// How many waiting times the delay table holds.
pub const NUM_DELAYS: usize = 5;

/// The waiting time, in days, at each maturity step of the delay table,
/// from a word just learnt to one long mastered. Steps outside the table
/// are read as its nearest end.
pub open spec fn spec_delay(i: int) -> int {
    if i <= 0 {
        0
    } else if i == 1 {
        1
    } else if i == 2 {
        7
    } else if i == 3 {
        14
    } else {
        30
    }
}

/// The waiting time, in days, for a maturity step inside the table.
pub fn delay_days(i: usize) -> (d: u64)
    requires
        i < NUM_DELAYS,
    ensures
        d == spec_delay(i as int),
        d <= 30,
{
    if i == 0 {
        0
    } else if i == 1 {
        1
    } else if i == 2 {
        7
    } else if i == 3 {
        14
    } else {
        30
    }
}

/// The mathematical shape of one record.
pub struct EntryModel {
    /// The bytes of the word being learnt.
    pub word: Seq<u8>,
    /// The bytes of its translation.
    pub tr_word: Seq<u8>,
    /// The maturity step: an index into the delay table.
    pub cur_iter: int,
    /// The record rests until this time, in seconds since the epoch.
    pub timeout: int,
    /// Whether the record was resting when its flag was last computed.
    pub timed_out: bool,
}

impl EntryModel {
    /// What every record holds: a maturity step inside the delay table, a
    /// timeout the stored format can carry, and delimiter-free text.
    pub open spec fn wf(self) -> bool {
        &&& 0 <= self.cur_iter < NUM_DELAYS
        &&& 0 <= self.timeout <= u64::MAX
        &&& !has_match(self.word, delim())
        &&& !has_match(self.tr_word, delim())
    }

    /// Whether the record's text can stand on a single stored line.
    pub open spec fn line_safe(self) -> bool {
        !contains_byte(self.word, 10) && !contains_byte(self.tr_word, 10)
    }
}

/// One vocabulary record, with its scheduling state.
#[derive(Clone, Debug)]
pub struct Entry {
    /// The word being learnt, as UTF-8 bytes.
    pub word: Vec<u8>,
    /// Its translation, as UTF-8 bytes.
    pub tr_word: Vec<u8>,
    /// The maturity step: an index into the delay table.
    pub cur_iter: usize,
    /// The record rests until this time, in seconds since the epoch.
    pub timeout: u64,
    /// Whether the record was resting when it was loaded or last updated.
    pub timed_out: bool,
}

impl View for Entry {
    type V = EntryModel;

    open spec fn view(&self) -> EntryModel {
        EntryModel {
            word: self.word@,
            tr_word: self.tr_word@,
            cur_iter: self.cur_iter as int,
            timeout: self.timeout as int,
            timed_out: self.timed_out,
        }
    }
}

/// The record a stored line denotes, if any. A line of two fields is a
/// fresh record; one of four fields carries its maturity step, clamped into
/// the delay table, and its timeout, compared against the clock to decide
/// whether the record is resting. Any other shape, or an unreadable
/// number, denotes no record at all: such a line is silently dropped.
pub open spec fn spec_parse(line: Seq<u8>, now: u64) -> Option<EntryModel> {
    let fields = split_on(line, delim());
    if fields.len() == 2 {
        Some(
            EntryModel {
                word: fields[0],
                tr_word: fields[1],
                cur_iter: 0,
                timeout: 0,
                timed_out: false,
            },
        )
    } else if fields.len() == 4 {
        if is_num(fields[2]) && is_num(fields[3]) {
            Some(
                EntryModel {
                    word: fields[0],
                    tr_word: fields[1],
                    cur_iter: if num_value(fields[2]) < NUM_DELAYS {
                        num_value(fields[2])
                    } else {
                        NUM_DELAYS - 1
                    },
                    timeout: num_value(fields[3]),
                    timed_out: num_value(fields[3]) > now,
                },
            )
        } else {
            None
        }
    } else {
        None
    }
}

/// The stored line of a record: its four fields joined by the delimiter.
pub open spec fn spec_encode(e: EntryModel) -> Seq<u8>
    recommends
        e.wf(),
{
    e.word + delim() + e.tr_word + delim() + dec_digits(e.cur_iter as nat) + delim() + dec_digits(
        e.timeout as nat,
    )
}

/// What an update does to a record. A resting record is left untouched;
/// otherwise the maturity step moves one up or one down, stopping at the
/// table's ends, the timeout becomes the clock plus the step's waiting
/// time, and the record is marked resting.
pub open spec fn spec_advance(e: EntryModel, next: bool, now: u64) -> EntryModel {
    if e.timed_out {
        e
    } else {
        let ci: int = if next {
            if e.cur_iter >= NUM_DELAYS - 1 {
                NUM_DELAYS - 1
            } else {
                e.cur_iter + 1
            }
        } else {
            if e.cur_iter <= 0 {
                0
            } else {
                e.cur_iter - 1
            }
        };
        EntryModel {
            cur_iter: ci,
            timeout: now + spec_delay(ci) * DAY,
            timed_out: true,
            ..e
        }
    }
}

impl Entry {
    /// The record invariant, on the in-memory value.
    pub open spec fn wf(self) -> bool {
        self@.wf()
    }

    /// Parses a stored line into a record, against the clock `now`.
    /// Returns nothing exactly when the line denotes no record.
    pub fn parse_from_line(line: &[u8], now: u64) -> (r: Option<Entry>)
        ensures
            match r {
                Some(e) => {
                    &&& spec_parse(line@, now) == Some(e@)
                    &&& e.wf()
                    &&& !contains_byte(line@, 10) ==> e@.line_safe()
                },
                None => spec_parse(line@, now) is None,
            },
    {
        let ghost s = line@;
        let mut fields = split_fields(line);
        proof {
            lemma_split_on_no_match(s, delim());
            if !contains_byte(s, 10) {
                lemma_split_on_no_byte(s, delim(), 10);
            }
            assert(forall|k: int|
                0 <= k < fields@.len() ==> #[trigger] views_of(fields@)[k] == fields@[k]@);
        }
        if fields.len() == 2 {
            let word = fields.remove(0);
            let tr_word = fields.remove(0);
            Some(
                Entry {
                    word,
                    tr_word,
                    cur_iter: 0,
                    timeout: 0,
                    timed_out: false,
                },
            )
        } else if fields.len() == 4 {
            let it = match parse_u64(fields[2].as_slice()) {
                Some(v) => v,
                None => {
                    return None;
                },
            };
            let to = match parse_u64(fields[3].as_slice()) {
                Some(v) => v,
                None => {
                    return None;
                },
            };
            let cur_iter: usize = if it >= NUM_DELAYS as u64 {
                NUM_DELAYS - 1
            } else {
                it as usize
            };
            let word = fields.remove(0);
            let tr_word = fields.remove(0);
            Some(
                Entry {
                    word,
                    tr_word,
                    cur_iter,
                    timeout: to,
                    timed_out: to > now,
                },
            )
        } else {
            None
        }
    }

    /// Renders the record as its stored line, without the line end.
    pub fn db_repr(&self) -> (r: Vec<u8>)
        ensures
            r@ == spec_encode(self@),
    {
        let mut out: Vec<u8> = Vec::new();
        push_all(&mut out, self.word.as_slice());
        push_delim(&mut out);
        push_all(&mut out, self.tr_word.as_slice());
        push_delim(&mut out);
        push_dec(self.cur_iter as u64, &mut out);
        push_delim(&mut out);
        push_dec(self.timeout, &mut out);
        out
    }

    /// Applies one review outcome: `next` moves the maturity step up, its
    /// opposite moves it down, both stopping at the table's ends; the
    /// record then rests until the clock plus the step's waiting time. A
    /// record already resting is left exactly as it is.
    pub fn update_timeout(&mut self, next: bool, now: u64)
        requires
            old(self).wf(),
            now + 30 * DAY <= u64::MAX,
        ensures
            final(self)@ == spec_advance(old(self)@, next, now),
            final(self).wf(),
            final(self)@.line_safe() == old(self)@.line_safe(),
            !old(self).timed_out && old(self).timeout <= now ==> final(self).timeout
                >= old(self).timeout,
    {
        if self.timed_out {
            return;
        }
        if next {
            if self.cur_iter != NUM_DELAYS - 1 {
                self.cur_iter = self.cur_iter + 1;
            }
        } else if self.cur_iter != 0 {
            self.cur_iter = self.cur_iter - 1;
        }
        let days = delay_days(self.cur_iter);
        self.timeout = now + days * DAY;
        self.timed_out = true;
    }

    /// A copy of the record.
    pub fn duplicate(&self) -> (r: Entry)
        ensures
            r@ == self@,
    {
        Entry {
            word: clone_bytes(&self.word),
            tr_word: clone_bytes(&self.tr_word),
            cur_iter: self.cur_iter,
            timeout: self.timeout,
            timed_out: self.timed_out,
        }
    }
}

/// Whatever record a line denotes is well formed, its resting flag agrees
/// with its timeout and the clock, and a line without a line feed yields
/// text that fits on one stored line again.
pub proof fn lemma_parse_wf(line: Seq<u8>, now: u64, e: EntryModel)
    requires
        spec_parse(line, now) == Some(e),
    ensures
        e.wf(),
        e.timed_out == (e.timeout > now),
        !contains_byte(line, 10) ==> e.line_safe(),
{
    let fields = split_on(line, delim());
    lemma_split_on_no_match(line, delim());
    if !contains_byte(line, 10) {
        lemma_split_on_no_byte(line, delim(), 10);
    }
    if fields.len() == 4 {
        let body2 = crate::codec::num_body(fields[2]);
        let body3 = crate::codec::num_body(fields[3]);
        lemma_digits_value_nonneg(body2);
        lemma_digits_value_nonneg(body3);
    }
}

/// The stored line of a record parses back to exactly that record, at any
/// clock that agrees with its resting flag.
pub proof fn lemma_encode_parse(e: EntryModel, now: u64)
    requires
        e.wf(),
        e.timed_out == (e.timeout > now),
    ensures
        spec_parse(spec_encode(e), now) == Some(e),
{
    let d = delim();
    let idig = dec_digits(e.cur_iter as nat);
    let tdig = dec_digits(e.timeout as nat);
    lemma_dec_digits_roundtrip(e.cur_iter as u64);
    lemma_dec_digits_roundtrip(e.timeout as u64);
    assert(dec_digits((e.cur_iter as u64) as nat) == idig);
    assert(dec_digits((e.timeout as u64) as nat) == tdig);
    let s = spec_encode(e);
    let rest2 = idig + d + tdig;
    let rest1 = e.tr_word + d + rest2;
    assert(s =~= e.word + d + rest1);
    lemma_split_delim_concat(e.word, rest1);
    lemma_split_delim_concat(e.tr_word, rest2);
    lemma_split_delim_concat(idig, tdig);
    lemma_split_on_whole(tdig, d);
    let fields = split_on(s, d);
    assert(fields =~~= seq![e.word, e.tr_word, idig, tdig]);
    assert(num_value(fields[2]) == e.cur_iter);
    assert(num_value(fields[3]) == e.timeout);
    assert(spec_parse(s, now) == Some(e));
}

/// Round trip: a record read from a line is rendered and read back as the
/// very same record, field for field.
pub proof fn lemma_round_trip(line: Seq<u8>, now: u64, e: EntryModel)
    requires
        spec_parse(line, now) == Some(e),
    ensures
        spec_parse(spec_encode(e), now) == Some(e),
{
    lemma_parse_wf(line, now, e);
    lemma_encode_parse(e, now);
}

/// However often a record is advanced, in either direction, its maturity
/// step never leaves the delay table.
pub proof fn lemma_advance_clamped(e: EntryModel, next: bool, now: u64)
    requires
        0 <= e.cur_iter < NUM_DELAYS,
    ensures
        0 <= spec_advance(e, next, now).cur_iter < NUM_DELAYS,
{
}

/// A second update without a fresh pick in between changes nothing: the
/// first one marked the record resting, and a resting record is never
/// touched again.
pub proof fn lemma_advance_idempotent(e: EntryModel, next1: bool, now1: u64, next2: bool, now2: u64)
    ensures
        spec_advance(spec_advance(e, next1, now1), next2, now2) == spec_advance(e, next1, now1),
{
}

} // verus!
