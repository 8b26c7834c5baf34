//! The manifest's readiness probe.
//!
//! A server can listen before it serves: connections in that window are
//! accepted and turned away at the protocol level, which binding alone
//! cannot see. The probe writes the manifest's bytes to the endpoint and
//! reads until the response matches the manifest's pattern, so ready means
//! the server answered as a serving guest does.

use crate::manifest;
use crate::manifest::ReadyProbe;
use crate::pattern;
use crate::text;
use vstd::prelude::*;

verus! {

/// How long one connection attempt may take to open, in milliseconds.
pub const CONNECT_TIMEOUT_MS: u64 = 1000;

/// How long one read may block before the attempt re-checks its deadline.
pub const READ_TIMEOUT_MS: u64 = 500;

/// How long one connection gets for the response to match.
pub const ATTEMPT_DEADLINE_MS: u64 = 2000;

/// The first pause between attempts.
pub const INITIAL_INTERVAL_MS: u64 = 2;

/// The longest pause between attempts.
pub const MAX_INTERVAL_MS: u64 = 100;

/// How long the guest gets to answer the probe before ready fails.
pub const DEADLINE_MS: u64 = 30000;

/// The most response bytes one attempt accumulates for matching.
pub const RESPONSE_CAP: usize = 4096;

/// How many bytes of a response a preview shows.
pub const PREVIEW_LEN: usize = 24;

/// Whether a response is what a serving guest answers.
pub open spec fn answers(probe: ReadyProbe, response: Seq<u8>) -> bool {
    pattern::pattern_error(probe.matches@) is None && pattern::pattern_matches(
        probe.matches@,
        response,
    )
}

/// Whether a byte shows as the character it is.
pub open spec fn shows(byte: u8) -> bool {
    32 <= byte <= 126 && byte != 92
}

/// A byte in the notation of byte strings.
pub open spec fn shown_byte(byte: u8) -> Seq<char> {
    if shows(byte) {
        seq![(byte as int) as char]
    } else {
        seq!['\\', 'x', text::hex_digit(byte as int / 16), text::hex_digit(byte as int % 16)]
    }
}

/// Bytes in the notation of byte strings.
pub open spec fn shown(bytes: Seq<u8>) -> Seq<char>
    decreases bytes.len(),
{
    if bytes.len() == 0 {
        Seq::empty()
    } else {
        shown(bytes.drop_last()) + shown_byte(bytes.last())
    }
}

/// The first bytes of a response, and dots where there are more.
pub open spec fn previewed(bytes: Seq<u8>) -> Seq<char> {
    if bytes.len() > PREVIEW_LEN {
        shown(bytes.take(PREVIEW_LEN as int)) + "..."@
    } else {
        shown(bytes)
    }
}

/// Appends a byte in the notation of byte strings.
fn push_shown(out: &mut String, byte: u8)
    ensures
        final(out)@ == old(out)@ + shown_byte(byte),
{
    if 32 <= byte && byte <= 126 && byte != 92 {
        out.push(byte as char);
        proof {
            assert(out@ =~= old(out)@ + shown_byte(byte));
        }
    } else {
        out.push('\\');
        out.push('x');
        let one = [byte];
        let digits = text::hex_text(&one);
        out.append(digits.as_str());
        proof {
            assert(digits@ =~= seq![
                text::hex_digit(byte as int / 16),
                text::hex_digit(byte as int % 16),
            ]);
            assert(out@ =~= old(out)@ + shown_byte(byte));
        }
    }
}

/// The first bytes of a response in the manifest's own byte-string notation,
/// so a failed probe can be compared with the pattern directly.
pub fn preview(bytes: &[u8]) -> (r: String)
    ensures
        r@ == previewed(bytes@),
{
    let mut out = String::new();
    let len: usize = if bytes.len() > PREVIEW_LEN {
        PREVIEW_LEN
    } else {
        bytes.len()
    };
    let mut i: usize = 0;
    proof {
        assert(shown(bytes@.take(0)) =~= Seq::<char>::empty());
    }
    while i < len
        invariant
            i <= len <= bytes@.len(),
            out@ == shown(bytes@.take(i as int)),
        decreases len - i,
    {
        proof {
            assert(bytes@.take(i + 1).drop_last() =~= bytes@.take(i as int));
        }
        push_shown(&mut out, bytes[i]);
        i = i + 1;
    }
    if bytes.len() > PREVIEW_LEN {
        out.append("...");
    } else {
        proof {
            assert(bytes@.take(len as int) =~= bytes@);
        }
    }
    out
}

/// One connection to the guest: what it has answered so far.
#[derive(Debug)]
pub struct Attempt {
    pub response: Vec<u8>,
}

/// What a read of the connection gave.
#[derive(Debug)]
pub enum ReadOutcome {
    /// The peer closed the connection.
    Closed,
    Bytes(Vec<u8>),
    /// Nothing arrived in time.
    Nothing,
    Failed,
}

/// How an attempt ended without a match.
#[derive(Clone, Copy, Debug, PartialEq, Eq, Structural)]
pub enum Ended {
    Deadline,
    Closed,
    ReadFailed,
}

/// What an attempt does after a read.
#[derive(Clone, Copy, Debug, PartialEq, Eq, Structural)]
pub enum AttemptStep {
    Matched,
    ReadOn,
    End(Ended),
}

/// How an attempt ended, in words.
pub open spec fn ended_text(ended: Ended) -> Seq<char> {
    match ended {
        Ended::Deadline => "the attempt deadline passed"@,
        Ended::Closed => "the connection closed"@,
        Ended::ReadFailed => "the read failed"@,
    }
}

/// How an attempt fell short, in one line.
pub open spec fn summary(ended: Ended, response: Seq<u8>) -> Seq<char> {
    if response.len() == 0 {
        ended_text(ended) + " without a response"@
    } else {
        ended_text(ended) + " after "@ + text::decimal(response.len())
            + " unmatched bytes, starting "@ + previewed(response)
    }
}

impl Attempt {
    /// A connection that has answered nothing.
    pub fn new() -> (r: Self)
        ensures
            r.response@ == Seq::<u8>::empty(),
    {
        Attempt { response: Vec::new() }
    }

    /// Whether to read on: before the deadline and below the cap.
    pub fn reads_on(&self, expired: bool) -> (r: bool)
        ensures
            r == (!expired && self.response@.len() < RESPONSE_CAP),
    {
        !expired && self.response.len() < RESPONSE_CAP
    }

    /// Takes what a read gave.
    pub fn read(&mut self, probe: &ReadyProbe, outcome: &ReadOutcome) -> (r: AttemptStep)
        ensures
            final(self).response@ == match *outcome {
                ReadOutcome::Bytes(bytes) => old(self).response@ + bytes@,
                _ => old(self).response@,
            },
            r == match *outcome {
                ReadOutcome::Closed => AttemptStep::End(Ended::Closed),
                ReadOutcome::Bytes(_) => if answers(*probe, final(self).response@) {
                    AttemptStep::Matched
                } else {
                    AttemptStep::ReadOn
                },
                ReadOutcome::Nothing => AttemptStep::ReadOn,
                ReadOutcome::Failed => AttemptStep::End(Ended::ReadFailed),
            },
    {
        match outcome {
            ReadOutcome::Closed => AttemptStep::End(Ended::Closed),
            ReadOutcome::Bytes(bytes) => {
                let ghost before = self.response@;
                self.response.extend_from_slice(bytes);
                proof {
                    assert(self.response@ =~= before + bytes@);
                }
                if pattern::is_found(probe.matches.as_str(), &self.response) {
                    AttemptStep::Matched
                } else {
                    AttemptStep::ReadOn
                }
            },
            ReadOutcome::Nothing => AttemptStep::ReadOn,
            ReadOutcome::Failed => AttemptStep::End(Ended::ReadFailed),
        }
    }

    /// The attempt has ended: whether the response matches after all, or a
    /// one-line summary of how it fell short.
    pub fn finish(&self, probe: &ReadyProbe, ended: Ended) -> (r: Result<(), String>)
        ensures
            r is Ok <==> answers(*probe, self.response@),
            r is Err ==> (r->Err_0)@ == summary(ended, self.response@),
    {
        if pattern::is_found(probe.matches.as_str(), &self.response) {
            return Ok(());
        }
        let mut out = match ended {
            Ended::Deadline => "the attempt deadline passed".to_owned(),
            Ended::Closed => "the connection closed".to_owned(),
            Ended::ReadFailed => "the read failed".to_owned(),
        };
        if self.response.len() == 0 {
            out.append(" without a response");
        } else {
            out.append(" after ");
            text::push_decimal(&mut out, self.response.len() as u64);
            out.append(" unmatched bytes, starting ");
            out.append(preview(&self.response).as_str());
        }
        Err(out)
    }
}

/// The pause after a pause: twice as long, up to the longest.
pub open spec fn next_interval(interval: int) -> int {
    if 2 * interval < MAX_INTERVAL_MS {
        2 * interval
    } else {
        MAX_INTERVAL_MS as int
    }
}

/// The attempts at a guest, one after the other.
#[derive(Debug)]
pub struct Probing {
    /// The next pause, in milliseconds.
    pub interval: u64,
    pub attempts: u32,
}

/// What comes after an attempt.
#[derive(Debug)]
pub enum ProbeStep {
    /// The probe is over; where it failed, with the last attempt's summary.
    Done(Result<(), String>),
    /// The next attempt comes after a pause.
    Pause(u64),
}

impl Probing {
    /// No attempt has been made.
    pub fn new() -> (r: Self)
        ensures
            r.interval == INITIAL_INTERVAL_MS,
            r.attempts == 0,
    {
        Probing { interval: INITIAL_INTERVAL_MS, attempts: 0 }
    }

    /// Takes an attempt's outcome, and whether the deadline has passed since.
    pub fn attempted(&mut self, outcome: Result<(), String>, expired: bool) -> (r: ProbeStep)
        requires
            old(self).interval <= MAX_INTERVAL_MS,
            old(self).attempts < u32::MAX,
        ensures
            final(self).attempts == old(self).attempts + 1,
            final(self).interval <= MAX_INTERVAL_MS,
            if outcome is Ok || expired {
                r == ProbeStep::Done(outcome) && final(self).interval == old(self).interval
            } else {
                r == ProbeStep::Pause(old(self).interval) && final(self).interval == next_interval(
                    old(self).interval as int,
                )
            },
    {
        self.attempts = self.attempts + 1;
        if outcome.is_ok() || expired {
            return ProbeStep::Done(outcome);
        }
        let pause: u64 = self.interval;
        self.interval = if 2 * pause < MAX_INTERVAL_MS {
            2 * pause
        } else {
            MAX_INTERVAL_MS
        };
        ProbeStep::Pause(pause)
    }
}

proof fn lemma_digit_value_of_hex(d: int)
    requires
        0 <= d < 16,
    ensures
        text::digit_value(text::hex_digit(d), 16) == Some(d),
{
}

proof fn lemma_shown_first(bytes: Seq<u8>)
    requires
        bytes.len() > 0,
    ensures
        shown(bytes) == shown_byte(bytes[0]) + shown(bytes.drop_first()),
    decreases bytes.len(),
{
    if bytes.len() == 1 {
        assert(shown(bytes.drop_last()) =~= Seq::<char>::empty());
        assert(shown(bytes.drop_first()) =~= Seq::<char>::empty());
        assert(shown(bytes) =~= shown_byte(bytes[0]) + shown(bytes.drop_first()));
    } else {
        lemma_shown_first(bytes.drop_last());
        let rest = bytes.drop_first();
        assert(bytes.drop_last().drop_first() =~= rest.drop_last());
        assert(shown(bytes) =~= shown_byte(bytes[0]) + shown(rest));
    }
}

proof fn lemma_decode_shown(bytes: Seq<u8>)
    ensures
        manifest::decoded(shown(bytes)) == Ok::<Seq<u8>, manifest::ByteStringError>(bytes),
    decreases bytes.len(),
{
    if bytes.len() > 0 {
        let rest = bytes.drop_first();
        let byte = bytes[0];
        lemma_shown_first(bytes);
        lemma_decode_shown(rest);
        let s = shown(bytes);
        if shows(byte) {
            assert(s[0] == (byte as int) as char);
            assert(s.skip(1) =~= shown(rest));
        } else {
            lemma_digit_value_of_hex(byte as int / 16);
            lemma_digit_value_of_hex(byte as int % 16);
            assert(s[0] == '\\');
            assert(s[1] == 'x');
            assert(s[2] == text::hex_digit(byte as int / 16));
            assert(s[3] == text::hex_digit(byte as int % 16));
            assert(s.skip(4) =~= shown(rest));
        }
        assert(seq![byte] + rest =~= bytes);
    } else {
        assert(bytes =~= Seq::<u8>::empty());
    }
}

/// What a preview shows of a short response is its byte-string notation: it
/// decodes to the response.
pub proof fn law_preview_decodes(bytes: Seq<u8>)
    requires
        bytes.len() <= PREVIEW_LEN,
    ensures
        manifest::decoded(previewed(bytes)) == Ok::<Seq<u8>, manifest::ByteStringError>(bytes),
{
    lemma_decode_shown(bytes);
}

/// A probe is answered exactly where its pattern compiles and is found in what
/// came back.
pub proof fn law_a_probe_is_answered_by_its_pattern(probe: ReadyProbe, response: Seq<u8>)
    ensures
        pattern::pattern_error(probe.matches@) is None ==> answers(probe, response)
            == pattern::pattern_matches(probe.matches@, response),
        pattern::pattern_error(probe.matches@) is Some ==> !answers(probe, response),
{
}

/// The pauses between attempts double and are a tenth of a second at the most.
pub proof fn law_pauses_double_up_to_a_tenth_of_a_second(interval: int)
    requires
        0 < interval <= 100,
    ensures
        interval <= 50 ==> next_interval(interval) == interval + interval,
        interval >= 50 ==> next_interval(interval) == 100,
        INITIAL_INTERVAL_MS == 2,
        DEADLINE_MS == 30000,
        ATTEMPT_DEADLINE_MS == 2000,
        CONNECT_TIMEOUT_MS == 1000,
        READ_TIMEOUT_MS == 500,
        RESPONSE_CAP == 4096,
{
}

/// What came back is shown from its start: a printable byte as itself, any
/// other as its hexadecimal digits, and three dots where there is more than
/// fits.
pub proof fn law_a_preview_shows_the_start(bytes: Seq<u8>, byte: u8)
    ensures
        bytes.len() > 24 ==> previewed(bytes) == previewed(bytes.take(24)) + "..."@,
        bytes.len() < 24 && 32 <= byte <= 126 && byte != 92 ==> previewed(bytes.push(byte))
            == previewed(bytes).push(byte as char),
        bytes.len() < 24 && !(32 <= byte <= 126 && byte != 92) ==> previewed(bytes.push(byte))
            == previewed(bytes) + seq!['\\', 'x'] + text::hex(seq![byte]),
        previewed(Seq::empty()) == Seq::<char>::empty(),
{
    if bytes.len() > 24 {
        assert(bytes.take(24).take(24) =~= bytes.take(24));
    } else if bytes.len() < 24 {
        assert(bytes.push(byte).drop_last() =~= bytes);
        let digits = text::hex(seq![byte]);
        assert(digits.len() == 2);
        assert(digits[0] == text::hex_digit(byte as int / 16));
        assert(digits[1] == text::hex_digit(byte as int % 16));
        if !(32 <= byte <= 126 && byte != 92) {
            assert(previewed(bytes.push(byte)) =~= previewed(bytes) + seq!['\\', 'x'] + digits);
        } else {
            assert(previewed(bytes.push(byte)) =~= previewed(bytes).push(byte as char));
        }
    }
}

/// How an attempt ended is told with how much came back, and with its start.
pub proof fn law_an_attempt_is_summed_up(ended: Ended, response: Seq<u8>)
    ensures
        ({
            let said = summary(ended, response);
            &&& ended_text(ended).is_prefix_of(said)
            &&& response.len() == 0 ==> said == ended_text(ended) + " without a response"@
            &&& response.len() > 0 ==> (ended_text(ended) + " after "@ + text::decimal(
                response.len(),
            )).is_prefix_of(said) && said.skip(said.len() - previewed(response).len())
                == previewed(response)
        }),
        forall|a: Ended, b: Ended| #[trigger] ended_text(a) == #[trigger] ended_text(b) ==> a == b,
{
    reveal_strlit("the attempt deadline passed");
    reveal_strlit("the connection closed");
    reveal_strlit("the read failed");
    assert("the attempt deadline passed"@.len() == 27);
    assert("the connection closed"@.len() == 21);
    assert("the read failed"@.len() == 15);
    let said = summary(ended, response);
    assert(ended_text(ended) =~= said.subrange(0, ended_text(ended).len() as int));
    if response.len() > 0 {
        let start = ended_text(ended) + " after "@ + text::decimal(response.len());
        assert(start =~= said.subrange(0, start.len() as int));
        assert(said.skip(said.len() - previewed(response).len()) =~= previewed(response));
    }
}

} // verus!
