//! The cut-off time: the publication time of the newest item announced so
//! far, kept between runs as decimal text.
use vstd::prelude::*;
use crate::number::{decimal, i64_to_string, parse_i64, parse_i64_chars};
use crate::text::{to_chars, trim, trim_bounds};

verus! {

/// The newest announced publication time, and whether it changed since it
/// was last saved.
pub struct Timestamp {
    time: i64,
    updated: bool,
}

/// A cut-off as plain data.
pub struct TimestampView {
    pub time: i64,
    pub updated: bool,
}

impl View for Timestamp {
    type V = TimestampView;

    closed spec fn view(&self) -> TimestampView {
        TimestampView { time: self.time, updated: self.updated }
    }
}

/// The cut-off after `update(ts)`: moved to `ts` when `ts` is newer.
pub open spec fn after_update(c: TimestampView, ts: i64) -> TimestampView {
    TimestampView {
        time: if ts > c.time { ts } else { c.time },
        updated: c.updated || ts > c.time,
    }
}

/// The time that saved text stands for: the trimmed text read as an `i64`,
/// or 0 when it is not one.
pub open spec fn loaded_time(text: Seq<char>) -> i64 {
    match parse_i64(trim(text)) {
        Some(t) => t,
        None => 0,
    }
}

impl Timestamp {
    /// The cut-off saved as `contents`.
    pub fn load(contents: &str) -> (t: Timestamp)
        ensures
            t@.time == loaded_time(contents@),
            !t@.updated,
    {
        let cs = to_chars(contents);
        let (a, b) = trim_bounds(&cs, 0, cs.len());
        assert(cs@.subrange(0, cs@.len() as int) =~= contents@);
        let time = match parse_i64_chars(&cs, a, b) {
            Some(t) => t,
            None => 0,
        };
        Timestamp { time, updated: false }
    }

    /// The cut-off time.
    pub fn timestamp(&self) -> (t: i64)
        ensures
            t == self@.time,
    {
        self.time
    }

    /// Moves the cut-off forward to `ts` when `ts` is newer.
    pub fn update(&mut self, ts: i64)
        ensures
            final(self)@ == after_update(old(self)@, ts),
    {
        if ts > self.time {
            self.time = ts;
            self.updated = true;
        }
    }

    /// The text to save, when the cut-off changed since it was last saved;
    /// the cut-off is left as it is.
    pub fn to_write(&self) -> (r: Option<String>)
        ensures
            match r {
                Some(s) => self@.updated && s@ == decimal(self@.time as int),
                None => !self@.updated,
            },
    {
        if self.updated {
            Some(i64_to_string(self.time))
        } else {
            None
        }
    }

    /// Takes the text to save when the cut-off changed since it was last
    /// saved, and records it as saved.
    pub fn write(&mut self) -> (r: Option<String>)
        ensures
            final(self)@.time == old(self)@.time,
            !final(self)@.updated,
            match r {
                Some(s) => old(self)@.updated && s@ == decimal(old(self)@.time as int),
                None => !old(self)@.updated,
            },
    {
        let r = self.to_write();
        self.updated = false;
        r
    }
}

/// The cut-off never moves back, and after an update it is at least the
/// time given.
pub proof fn lemma_update_monotone(c: TimestampView, ts: i64)
    ensures
        after_update(c, ts).time >= c.time,
        after_update(c, ts).time >= ts,
{
}

/// Updates in either order leave the same cut-off: the newest of the times.
pub proof fn lemma_updates_commute(c: TimestampView, a: i64, b: i64)
    ensures
        after_update(after_update(c, a), b) == after_update(after_update(c, b), a),
{
}

/// Loading the saved text of a cut-off gives back its time.
pub proof fn lemma_save_load(t: i64)
    ensures
        loaded_time(decimal(t as int)) == t,
{
    let d = decimal(t as int);
    crate::number::lemma_parse_decimal(t as int);
    crate::text::lemma_trim_no_ws(d);
}

} // verus!
