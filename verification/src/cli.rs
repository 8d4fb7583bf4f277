//! The command line of the calculation: its options, and the decisions between the
//! batches of bytes that the program calculates and writes.

pub mod config;

use crate::cli::config::Config;
use crate::model::bit_length;
use crate::numbers::BigNat;
use crate::numbers::{all_digits, digits_value};
use crate::text::{append_decimal, append_digit, decimal, digit_text, lemma_digit_text};
use core::time::Duration;
use vstd::prelude::*;

verus! {

/// Calculate the binary expansion of tau (or pi i guess) to arbitrary precision.
pub struct CliOptions {
    /// write the bytes to a binary file
    pub output: Option<String>,
    /// write a <byte number>, <byte>, <byte time>, <total time>, log to a file
    pub log: Option<String>,
    /// start the calculation at a certain byte number
    pub start: Option<isize>,
    /// end the calculation at a certain byte number
    pub end: isize,
    /// run using the specified number of threads
    pub threads: isize,
    /// calculate pi instead of tau (only losers pick this)
    pub pi: bool,
    /// print the latest byte while running
    pub live: bool,
    /// don't write bytes at their corresponding position. useful if the starting byte is large
    pub no_jump: bool,
}

// ---------------------------------------------------------------------------
// Durations as text
// ---------------------------------------------------------------------------

/// `x` in decimal, padded with zeros to three digits.
pub open spec fn decimal3(x: nat) -> Seq<char> {
    digit_text((x / 100) % 10) + digit_text((x / 10) % 10) + digit_text(x % 10)
}

/// Milliseconds are written with exactly three digits, which read back as them.
pub proof fn lemma_decimal3_reads_back(x: nat)
    requires
        x < 1000,
    ensures
        decimal3(x).len() == 3,
        all_digits(decimal3(x)),
        digits_value(decimal3(x)) == x,
{
    let (a, b, c) = ((x / 100) % 10, (x / 10) % 10, x % 10);
    lemma_digit_text(a);
    lemma_digit_text(b);
    lemma_digit_text(c);
    let s = decimal3(x);
    let s2 = s.drop_last();
    let s1 = s2.drop_last();
    assert(s1 =~= digit_text(a));
    assert(s2 =~= digit_text(a) + digit_text(b));
    assert(s1.drop_last() =~= Seq::<char>::empty());
    assert(digits_value(Seq::<char>::empty()) == 0);
    assert(digits_value(s1) == a);
    assert(digits_value(s2) == 10 * a + b);
    assert(digits_value(s) == 10 * (10 * a + b) + c);
    assert(x == 100 * a + 10 * b + c);
    assert forall|i: int| 0 <= i < s.len() implies '0' <= #[trigger] s[i] <= '9' by {
        if i == 0 {
            assert(s[i] == digit_text(a)[0]);
        } else if i == 1 {
            assert(s[i] == digit_text(b)[0]);
        } else {
            assert(s[i] == digit_text(c)[0]);
        }
    }
}

/// A count of a unit of time: nothing for zero, else the count, the unit in the
/// singular or the plural, and a separating comma.
pub open spec fn unit_text(count: nat, one: Seq<char>, many: Seq<char>) -> Seq<char> {
    if count == 0 {
        Seq::empty()
    } else if count == 1 {
        one
    } else {
        decimal(count) + many
    }
}

/// A duration of `seconds` seconds and `millis` milliseconds as text, such as
/// "1 day, 2 hours, 3 minutes, 4 seconds" or "5.006 seconds": the milliseconds are
/// only shown below a minute.
pub open spec fn time_text(seconds: nat, millis: nat) -> Seq<char> {
    let s = seconds % 60;
    unit_text(seconds / 86400, "1 day, "@, " days, "@) + unit_text(
        (seconds / 3600) % 24,
        "1 hour, "@,
        " hours, "@,
    ) + unit_text((seconds / 60) % 60, "1 minute, "@, " minutes, "@) + if seconds >= 60 {
        if s == 1 {
            "1 second"@
        } else {
            decimal(s) + " seconds"@
        }
    } else {
        decimal(s) + "."@ + decimal3(millis) + " seconds"@
    }
}

/// The text of a duration that shows `d` days, `h` hours, `m` minutes and `s`
/// seconds, each unit left out where its count is zero.
pub open spec fn shows_units(seconds: nat, millis: nat, d: nat, h: nat, m: nat, s: nat) -> bool {
    time_text(seconds, millis) == unit_text(d, "1 day, "@, " days, "@) + unit_text(
        h,
        "1 hour, "@,
        " hours, "@,
    ) + unit_text(m, "1 minute, "@, " minutes, "@) + if seconds >= 60 {
        if s == 1 {
            "1 second"@
        } else {
            decimal(s) + " seconds"@
        }
    } else {
        decimal(s) + "."@ + decimal3(millis) + " seconds"@
    }
}

/// The units that a duration's text shows add back up to its whole seconds: days of
/// 86400 seconds, then fewer than 24 hours, fewer than 60 minutes and fewer than 60
/// seconds.
pub proof fn lemma_time_text_units(seconds: nat, millis: nat)
    ensures
        exists|d: nat, h: nat, m: nat, s: nat|
            #[trigger] shows_units(seconds, millis, d, h, m, s) && d * 86400 + h * 3600 + m * 60
                + s == seconds && h < 24 && m < 60 && s < 60,
{
    let d = seconds / 86400;
    let h = (seconds / 3600) % 24;
    let m = (seconds / 60) % 60;
    let s = seconds % 60;
    assert(d * 86400 + h * 3600 + m * 60 + s == seconds) by (nonlinear_arith)
        requires
            d == seconds / 86400,
            h == (seconds / 3600) % 24,
            m == (seconds / 60) % 60,
            s == seconds % 60,
    {
        assert(seconds / 3600 == (seconds / 3600 / 24) * 24 + (seconds / 3600) % 24);
        assert(seconds / 3600 / 24 == seconds / 86400);
        assert(seconds / 60 == (seconds / 60 / 60) * 60 + (seconds / 60) % 60);
        assert(seconds / 60 / 60 == seconds / 3600);
        assert(seconds == (seconds / 60) * 60 + seconds % 60);
    }
    assert(shows_units(seconds, millis, d, h, m, s));
}

fn append_unit(out: &mut String, count: u64, one: &str, many: &str)
    ensures
        final(out)@ == old(out)@ + unit_text(count as nat, one@, many@),
{
    if count == 1 {
        out.append(one);
    } else if count > 1 {
        append_decimal(out, count);
        out.append(many);
    }
    assert(old(out)@ + Seq::<char>::empty() == old(out)@);
}

/// A duration of `seconds` seconds and `millis` milliseconds as text.
#[verifier::rlimit(80)]
pub fn fmt_seconds(seconds: u64, millis: u32) -> (r: String)
    requires
        millis < 1000,
    ensures
        r@ == time_text(seconds as nat, millis as nat),
{
    let mut out = String::new();
    append_unit(&mut out, seconds / 86400, "1 day, ", " days, ");
    append_unit(&mut out, (seconds / 3600) % 24, "1 hour, ", " hours, ");
    append_unit(&mut out, (seconds / 60) % 60, "1 minute, ", " minutes, ");
    let s = seconds % 60;
    if seconds >= 60 {
        if s == 1 {
            out.append("1 second");
        } else {
            append_decimal(&mut out, s);
            out.append(" seconds");
        }
    } else {
        append_decimal(&mut out, s);
        out.append(".");
        let ms = millis as u64;
        append_digit(&mut out, (ms / 100) % 10);
        append_digit(&mut out, (ms / 10) % 10);
        append_digit(&mut out, ms % 10);
        out.append(" seconds");
    }
    out
}

/// The whole seconds of a duration, as `Duration::as_secs` gives them.
pub uninterp spec fn duration_secs(d: Duration) -> u64;

/// The milliseconds of a duration past its whole seconds, as
/// `Duration::subsec_millis` gives them.
pub uninterp spec fn duration_subsec_millis(d: Duration) -> u32;

/// `Duration::as_secs`: the whole seconds, which depend on the duration alone.
pub assume_specification[ Duration::as_secs ](d: &Duration) -> (r: u64)
    ensures
        r == duration_secs(*d),
;

/// `Duration::subsec_millis`: the milliseconds past the whole seconds, below a
/// thousand.
pub assume_specification[ Duration::subsec_millis ](d: &Duration) -> (r: u32)
    ensures
        r == duration_subsec_millis(*d),
        r < 1000,
;

/// A duration as text, with the milliseconds only below a minute: such as
/// "1 hour, 1 second" or "0.250 seconds".
pub fn fmt_time(duration: Duration) -> (r: String)
    ensures
        r@ == time_text(
            duration_secs(duration) as nat,
            duration_subsec_millis(duration) as nat,
        ),
{
    let seconds = duration.as_secs();
    let millis = duration.subsec_millis();
    fmt_seconds(seconds, millis)
}

// ---------------------------------------------------------------------------
// The batches of a run
// ---------------------------------------------------------------------------

/// The precision to start at, where none is given, from the index of the first byte
/// and the minimum batch size: two bits for each hexadecimal digit of the index,
/// rounded to whole bytes, plus a byte for each byte of the minimum batch (at most
/// `u64::MAX`).
pub open spec fn default_precision(first: nat, min_batch_size: nat) -> nat {
    let bytes = bit_length(first) / 4 + min_batch_size;
    if bytes * 8 > u64::MAX {
        u64::MAX as nat
    } else {
        bytes * 8
    }
}

/// The largest batch worth asking for: at most the configured maximum, and at most
/// the bytes left before the end.
pub open spec fn batch_limit(configured: Option<usize>, bytes_left: Option<usize>) -> Option<usize> {
    match (configured, bytes_left) {
        (None, None) => None,
        (Some(size), None) => Some(size),
        (None, Some(size)) => Some(size),
        (Some(config_max), Some(left)) => Some(if config_max <= left { config_max } else { left }),
    }
}

/// The batch limit is the smaller of the configured maximum and the bytes left: it
/// exceeds neither, is one of them, and is absent only where both are.
pub proof fn lemma_batch_limit_is_least(configured: Option<usize>, bytes_left: Option<usize>)
    ensures
        batch_limit(configured, bytes_left) is None <==> (configured is None && bytes_left is None),
        batch_limit(configured, bytes_left) matches Some(k) ==> {
            &&& configured matches Some(c) ==> k <= c
            &&& bytes_left matches Some(l) ==> k <= l
            &&& configured == Some(k) || bytes_left == Some(k)
        },
{
}

/// The plan of the batches of a run: the index of the next byte, the index where
/// the run ends, and the precision to calculate at.
pub struct BatchPlan {
    current: BigNat,
    last: Option<BigNat>,
    precision: u64,
    min_batch_size: usize,
    max_batch_size: Option<usize>,
}

impl BatchPlan {
    /// The index of the next byte to calculate.
    pub closed spec fn current(&self) -> nat {
        self.current@
    }

    /// The index at which the run ends, if it ends.
    pub closed spec fn last(&self) -> Option<nat> {
        match self.last {
            Some(l) => Some(l@),
            None => None,
        }
    }

    pub closed spec fn precision_bits(&self) -> u64 {
        self.precision
    }

    pub closed spec fn min_batch(&self) -> usize {
        self.min_batch_size
    }

    pub closed spec fn max_batch(&self) -> Option<usize> {
        self.max_batch_size
    }

    /// The plan of a run: from the configured start, else from the end of an output
    /// file of `file_len` bytes; for the configured number of bytes, else forever.
    pub fn new(config: &Config, file_len: u64) -> (r: BatchPlan)
        requires
            config.wf(),
        ensures
            r.current() == (match config.start_index {
                Some(s) => s@,
                None => file_len as nat,
            }),
            r.last() == (match config.num_bytes {
                Some(n) => Some(r.current() + n@),
                None => None,
            }),
            r.precision_bits() == (match config.initial_precision {
                Some(p) => p as nat,
                None => default_precision(r.current(), config.min_batch_size as nat),
            }),
            r.min_batch() == config.min_batch_size,
            r.max_batch() == config.max_batch_size,
    {
        let first = match &config.start_index {
            Some(s) => s.copy(),
            None => BigNat::from_u64(file_len),
        };
        let last = match &config.num_bytes {
            Some(n) => Some(first.add(n)),
            None => None,
        };
        let precision = match config.initial_precision {
            Some(p) => p,
            None => {
                let bytes = (first.significant_bits() / 4).checked_add(config.min_batch_size as u64);
                match bytes {
                    Some(b) => if b > u64::MAX / 8 {
                        u64::MAX
                    } else {
                        b * 8
                    },
                    None => u64::MAX,
                }
            },
        };
        BatchPlan {
            current: first,
            last,
            precision,
            min_batch_size: config.min_batch_size,
            max_batch_size: config.max_batch_size,
        }
    }

    /// The index of the next byte.
    pub fn current_index(&self) -> (r: &BigNat)
        ensures
            r@ == self.current(),
    {
        &self.current
    }

    pub fn precision(&self) -> (r: u64)
        ensures
            r == self.precision_bits(),
    {
        self.precision
    }

    pub fn min_batch_size(&self) -> (r: usize)
        ensures
            r == self.min_batch(),
    {
        self.min_batch_size
    }

    /// The position in an output file of the next byte, where it fits a `u64`.
    pub fn output_position(&self) -> (r: Option<u64>)
        ensures
            r matches Some(p) ==> p == self.current(),
            r is None ==> self.current() > u64::MAX,
    {
        self.current.to_u64()
    }

    /// More bytes are wanted: the run has no end, or has not reached it.
    pub fn has_next(&self) -> (r: bool)
        ensures
            r == (match self.last() {
                Some(l) => self.current() < l,
                None => true,
            }),
    {
        match &self.last {
            Some(l) => self.current.lt(l),
            None => true,
        }
    }

    /// The largest batch worth asking for next: the batch limit of the configured
    /// maximum and the bytes left before the end, where they fit a `usize`.
    pub open spec fn next_batch_limit(&self) -> Option<usize> {
        batch_limit(
            self.max_batch(),
            match self.last() {
                Some(l) => if l - self.current() <= usize::MAX {
                    Some((l - self.current()) as usize)
                } else {
                    None
                },
                None => None,
            },
        )
    }

    /// The next batch never reaches past the end of the run, nor past the configured
    /// maximum, and is one of the two; where the bytes left fit a `usize` a limit is
    /// set.
    pub proof fn lemma_next_batch_within_end(&self)
        requires
            self.last() matches Some(l) ==> self.current() < l,
        ensures
            self.next_batch_limit() matches Some(k) ==> (self.last() matches Some(l) ==> k <= l
                - self.current()) && (self.max_batch() matches Some(c) ==> k <= c),
            self.last() matches Some(l) && l - self.current() <= usize::MAX
                ==> self.next_batch_limit() is Some,
            self.last() is None ==> self.next_batch_limit() == self.max_batch(),
            self.next_batch_limit() matches Some(k) ==> self.max_batch() == Some(k) || (
            self.last() matches Some(l) && k == l - self.current()),
    {
    }

    /// The largest batch to ask for next.
    pub fn next_max_batch_size(&self) -> (r: Option<usize>)
        requires
            self.last() matches Some(l) ==> self.current() < l,
        ensures
            r == self.next_batch_limit(),
    {
        // last - current
        let bytes_left = match &self.last {
            Some(l) => l.sub(&self.current).to_usize(),
            None => None,
        };
        match (self.max_batch_size, bytes_left) {
            (None, None) => None,
            (Some(size), None) => Some(size),
            (None, Some(size)) => Some(size),
            (Some(config_max), Some(left)) => Some(if config_max <= left { config_max } else { left }),
        }
    }

    /// A batch found only `found` bytes, fewer than the minimum: the precision grows
    /// by a byte for each byte missing.
    pub fn insufficient_precision(&mut self, found: usize)
        requires
            found < old(self).min_batch(),
            old(self).precision_bits() + (old(self).min_batch() - found) * 8 <= u64::MAX,
        ensures
            final(self).precision_bits() == old(self).precision_bits() + (old(self).min_batch()
                - found) * 8,
            final(self).current() == old(self).current(),
            final(self).last() == old(self).last(),
            final(self).min_batch() == old(self).min_batch(),
            final(self).max_batch() == old(self).max_batch(),
    {
        let bytes_left = (self.min_batch_size - found) as u64;
        self.precision = self.precision + bytes_left * 8;
    }

    /// A batch of `found` bytes was written: the next byte follows them.
    pub fn finished(&mut self, found: usize)
        ensures
            final(self).current() == old(self).current() + found,
            final(self).precision_bits() == old(self).precision_bits(),
            final(self).last() == old(self).last(),
            final(self).min_batch() == old(self).min_batch(),
            final(self).max_batch() == old(self).max_batch(),
    {
        self.current = self.current.add(&BigNat::from_u64(found as u64));
    }
}

} // verus!
