//! The preloaded hardening shim: how long to wait for it, and what its signals
//! mean.
use crate::text;
use vstd::prelude::*;

verus! {

/// How many seconds the shim has to report in, if nothing else is asked for.
pub const DEFAULT_TIMEOUT: u64 = 5;

/// The byte that the shim sends once it has done its work: `R`.
pub const READY: u8 = 82;

/// Whether a character is a decimal digit.
pub open spec fn is_digit(c: char) -> bool {
    '0' <= c && c <= '9'
}

pub open spec fn all_digits(s: Seq<char>) -> bool {
    forall|i: int| 0 <= i < s.len() ==> is_digit(#[trigger] s[i])
}

/// The number that decimal digits write.
pub open spec fn digits_value(s: Seq<char>) -> nat
    decreases s.len(),
{
    if s.len() == 0 {
        0
    } else {
        10 * digits_value(s.drop_last()) + (s.last() as nat - '0' as nat) as nat
    }
}

/// Reading a number's digits gives the number.
pub proof fn lemma_decimal_value(n: nat)
    ensures
        digits_value(text::decimal(n)) == n,
    decreases n,
{
    let d = text::decimal(n);
    if n < 10 {
        assert(d.drop_last() =~= Seq::<char>::empty());
        assert(digits_value(d.drop_last()) == 0);
        assert(d.last() == text::digit(n));
    } else {
        lemma_decimal_value(n / 10);
        assert(d.drop_last() =~= text::decimal(n / 10));
        assert(d.last() == text::digit(n % 10));
    }
}

/// The number that a text writes: digits, and one `+` in front of them at most;
/// none if it does not fit into 64 bits.
pub open spec fn number(s: Seq<char>) -> Option<u64> {
    let digits = if s.len() > 0 && s[0] == '+' {
        s.skip(1)
    } else {
        s
    };
    if digits.len() > 0 && all_digits(digits) && digits_value(digits) <= u64::MAX {
        Some(digits_value(digits) as u64)
    } else {
        None
    }
}

/// Reads a number.
fn parse_number(s: &[char]) -> (r: Option<u64>)
    ensures
        r == number(s@),
{
    let digits = if s.len() > 0 && s[0] == '+' {
        &s[1..s.len()]
    } else {
        s
    };
    let ghost d = if s@.len() > 0 && s@[0] == '+' {
        s@.skip(1)
    } else {
        s@
    };
    assert(digits@ =~= d);
    if digits.len() == 0 {
        return None;
    }
    let mut n: u64 = 0;
    let mut i: usize = 0;
    assert(d.take(0) =~= Seq::<char>::empty());
    while i < digits.len()
        invariant
            digits@ == d,
            i <= d.len(),
            n == digits_value(d.take(i as int)),
            forall|j: int| 0 <= j < i ==> is_digit(#[trigger] d[j]),
            d.len() > 0,
            d == (if s@.len() > 0 && s@[0] == '+' {
                s@.skip(1)
            } else {
                s@
            }),
        decreases digits.len() - i,
    {
        let c = digits[i];
        if !('0' <= c && c <= '9') {
            assert(!is_digit(d[i as int]));
            assert(!all_digits(d));
            return None;
        }
        let v: u64 = (c as u32 - '0' as u32) as u64;
        proof {
            assert(d.take(i + 1).drop_last() =~= d.take(i as int));
            assert(d.take(i + 1).last() == c);
            lemma_value_grows(d, i + 1);
        }
        if n > (u64::MAX - v) / 10 {
            assert(10 * n + v > u64::MAX);
            return None;
        }
        n = 10 * n + v;
        i += 1;
    }
    assert(d.take(d.len() as int) =~= d);
    Some(n)
}

proof fn lemma_value_grows(s: Seq<char>, n: int)
    requires
        0 <= n <= s.len(),
    ensures
        digits_value(s.take(n)) <= digits_value(s),
    decreases s.len() - n,
{
    if n == s.len() {
        assert(s.take(n) =~= s);
    } else {
        assert(s.take(n + 1).drop_last() =~= s.take(n));
        lemma_value_grows(s, n + 1);
    }
}

/// How many seconds to wait for the shim: what the setting says, if it is a
/// number above zero.
pub fn ready_timeout(setting: Option<&str>) -> (r: u64)
    ensures
        r == (match setting {
            Some(s) => match number(s@) {
                Some(n) => if n > 0 {
                    n
                } else {
                    DEFAULT_TIMEOUT
                },
                None => DEFAULT_TIMEOUT,
            },
            None => DEFAULT_TIMEOUT,
        }),
        r > 0,
{
    if let Some(s) = setting {
        let chars = text::chars_of(s);
        if let Some(n) = parse_number(chars.as_slice()) {
            if n > 0 {
                return n;
            }
        }
    }
    DEFAULT_TIMEOUT
}

/// A timeout in milliseconds. One that a poll cannot take is cut to the longest
/// that it can.
pub fn timeout_millis(seconds: u64) -> (r: i32)
    ensures
        r == (if seconds * 1000 <= i32::MAX {
            seconds * 1000
        } else {
            i32::MAX as int
        }),
{
    if seconds <= 2147483 {
        seconds as i32 * 1000
    } else {
        i32::MAX
    }
}

/// What polling the ready pipe came to.
#[derive(Clone, Copy, Debug, PartialEq, Eq, Structural)]
pub enum PollEvent {
    /// A signal came in between.
    Interrupted,
    /// Polling failed.
    Failed,
    /// Nothing came in time.
    TimedOut,
    /// A read gave this byte, or none at the end of the pipe.
    Read(Option<u8>),
}

/// Whether the shim is known to be ready, or known not to be. `None` asks to
/// poll again.
pub fn ready_verdict(event: PollEvent) -> (r: Option<bool>)
    ensures
        r is None <==> event == PollEvent::Interrupted,
        r == Some(true) <==> event == PollEvent::Read(Some(READY)),
        r == Some(true) <==> event == PollEvent::Read(Some(0x52u8)),
{
    match event {
        PollEvent::Interrupted => None,
        PollEvent::Failed | PollEvent::TimedOut => Some(false),
        PollEvent::Read(byte) => match byte {
            Some(b) => Some(b == READY),
            None => Some(false),
        },
    }
}

/// What one write came to.
#[derive(Clone, Copy, Debug, PartialEq, Eq, Structural)]
pub enum WriteEvent {
    Interrupted,
    Failed,
    Wrote(usize),
}

/// How far a buffer is written.
#[derive(Clone, Copy, Debug, PartialEq, Eq, Structural)]
pub enum WriteProgress {
    /// Write from this offset on.
    From(usize),
    Done,
    Failed,
}

/// Where to go on with a buffer after a write from `offset`.
pub fn write_progress(len: usize, offset: usize, event: WriteEvent) -> (r: WriteProgress)
    requires
        offset <= len,
        event matches WriteEvent::Wrote(n) ==> n <= len - offset,
    ensures
        r == progress_from(len, offset, event),
{
    let next = match event {
        WriteEvent::Failed => {
            return WriteProgress::Failed;
        },
        WriteEvent::Interrupted => offset,
        WriteEvent::Wrote(n) => offset + n,
    };
    if next < len {
        WriteProgress::From(next)
    } else {
        WriteProgress::Done
    }
}

/// How far a buffer is written whose first `offset` bytes are.
pub open spec fn written_up_to(len: usize, offset: int) -> WriteProgress {
    if offset < len {
        WriteProgress::From(offset as usize)
    } else {
        WriteProgress::Done
    }
}

/// How far a buffer is written after a write from `offset`.
pub open spec fn progress_from(len: usize, offset: usize, event: WriteEvent) -> WriteProgress {
    match event {
        WriteEvent::Failed => WriteProgress::Failed,
        WriteEvent::Interrupted => written_up_to(len, offset as int),
        WriteEvent::Wrote(n) => written_up_to(len, offset + n),
    }
}

/// How far a buffer is written after some writes, each from where the one before
/// it ended.
pub open spec fn written(len: usize, events: Seq<WriteEvent>) -> WriteProgress
    decreases events.len(),
{
    if events.len() == 0 {
        written_up_to(len, 0)
    } else {
        match written(len, events.drop_last()) {
            WriteProgress::From(offset) => progress_from(len, offset, events.last()),
            ended => ended,
        }
    }
}

/// How many bytes some writes took.
pub open spec fn bytes_taken(events: Seq<WriteEvent>) -> nat
    decreases events.len(),
{
    if events.len() == 0 {
        0
    } else {
        bytes_taken(events.drop_last()) + match events.last() {
            WriteEvent::Wrote(n) => n as nat,
            _ => 0,
        }
    }
}

/// Partial and interrupted writes lose and repeat nothing: as long as no write
/// fails, a buffer is done exactly when as many bytes were taken as it has, and
/// until then goes on behind those that were taken.
pub proof fn law_writes_add_up(len: usize, events: Seq<WriteEvent>)
    requires
        forall|i: int| 0 <= i < events.len() ==> #[trigger] events[i] != WriteEvent::Failed,
        bytes_taken(events) <= len,
    ensures
        written(len, events) == (if bytes_taken(events) == len {
            WriteProgress::Done
        } else {
            WriteProgress::From(bytes_taken(events) as usize)
        }),
    decreases events.len(),
{
    if events.len() > 0 {
        let init = events.drop_last();
        assert forall|i: int| 0 <= i < init.len() implies #[trigger] init[i]
            != WriteEvent::Failed by {
            assert(init[i] == events[i]);
        }
        assert(events[events.len() - 1] != WriteEvent::Failed);
        law_writes_add_up(len, init);
    }
}

/// Whether the bytes of a shim are those of an ELF object.
pub fn is_elf(image: &[u8]) -> (r: bool)
    ensures
        r == (image@.len() >= 4 && image@.take(4) == seq![0x7fu8, 0x45u8, 0x4cu8, 0x46u8]),
{
    let r = image.len() >= 4 && image[0] == 0x7f && image[1] == 0x45 && image[2] == 0x4c && image[3]
        == 0x46;
    proof {
        if image@.len() >= 4 {
            let head = image@.take(4);
            assert(head[0] == image@[0] && head[1] == image@[1] && head[2] == image@[2] && head[3]
                == image@[3]);
            if r {
                assert(head =~= seq![0x7fu8, 0x45u8, 0x4cu8, 0x46u8]);
            }
        }
    }
    r
}

/// The path under which a process finds its own open file.
pub fn fd_path(fd: u32) -> (r: String)
    ensures
        r@ == "/proc/self/fd/"@ + text::decimal(fd as nat),
{
    let mut r = String::new();
    r.append("/proc/self/fd/");
    text::push_decimal(&mut r, fd as u64);
    assert(r@ =~= "/proc/self/fd/"@ + text::decimal(fd as nat));
    r
}

/// Zeros in a row.
pub open spec fn zeros(n: nat) -> Seq<char> {
    Seq::new(n, |i: int| '0')
}

/// A text that may write a number: a `+` or not, zeros, and the number's digits.
pub open spec fn writes(s: Seq<char>, plus: bool, pad: nat, n: u64) -> bool {
    s == (if plus {
        seq!['+']
    } else {
        Seq::empty()
    }) + zeros(pad) + text::decimal(n as nat)
}

/// A number is written in decimal digits.
pub proof fn lemma_decimal_is_digits(n: nat)
    ensures
        all_digits(text::decimal(n)),
        text::decimal(n).len() > 0,
    decreases n,
{
    let d = text::decimal(n);
    if n >= 10 {
        lemma_decimal_is_digits(n / 10);
        assert forall|i: int| 0 <= i < d.len() implies is_digit(#[trigger] d[i]) by {
            if i < d.len() - 1 {
                assert(d[i] == text::decimal(n / 10)[i]);
            }
        }
    }
}

proof fn lemma_padded_value(pad: nat, s: Seq<char>)
    ensures
        digits_value(zeros(pad) + s) == digits_value(s),
    decreases s.len(), pad,
{
    let all = zeros(pad) + s;
    if s.len() > 0 {
        lemma_padded_value(pad, s.drop_last());
        assert(all.drop_last() =~= zeros(pad) + s.drop_last());
        assert(all.last() == s.last());
    } else if pad > 0 {
        lemma_padded_value((pad - 1) as nat, s);
        assert(all.drop_last() =~= zeros((pad - 1) as nat) + s);
        assert(all.last() == '0');
    } else {
        assert(all =~= s);
    }
}

proof fn lemma_digits_are_padded(d: Seq<char>) -> (pad: nat)
    requires
        d.len() > 0,
        all_digits(d),
    ensures
        d == zeros(pad) + text::decimal(digits_value(d)),
    decreases d.len(),
{
    let init = d.drop_last();
    let c = d.last();
    let v = (c as nat - '0' as nat) as nat;
    assert(is_digit(d[d.len() - 1]));
    assert(text::digit(v) == c);
    if init.len() == 0 {
        assert(digits_value(init) == 0);
        assert(text::decimal(v) =~= seq![c]);
        assert(d =~= zeros(0) + text::decimal(v));
        0
    } else {
        assert forall|i: int| 0 <= i < init.len() implies is_digit(#[trigger] init[i]) by {
            assert(init[i] == d[i]);
        }
        let pad = lemma_digits_are_padded(init);
        let m = digits_value(init);
        if m == 0 {
            assert(text::decimal(0) =~= seq!['0']);
            assert(text::decimal(v) =~= seq![c]);
            assert(d =~= init.push(c));
            assert(init =~= zeros(pad + 1));
            assert(zeros(pad + 1) + seq![c] =~= zeros(pad + 1).push(c));
            pad + 1
        } else {
            text::law_decimal_digits(m, v);
            let t = text::decimal(m);
            assert(text::decimal(10 * m + v) =~= t.push(c));
            assert(d =~= init.push(c));
            assert((zeros(pad) + t).push(c) =~= zeros(pad) + t.push(c));
            pad
        }
    }
}

/// A text is read as a number exactly if it writes that number: its digits, with any
/// zeros and one `+` before them. Anything else, and a number beyond 64 bits, is none.
pub proof fn law_numbers_are_read(s: Seq<char>, n: u64)
    ensures
        number(s) == Some(n) <==> exists|plus: bool, pad: nat| writes(s, plus, pad, n),
{
    let plus = s.len() > 0 && s[0] == '+';
    let d = if plus {
        s.skip(1)
    } else {
        s
    };
    if number(s) == Some(n) {
        let pad = lemma_digits_are_padded(d);
        let t = text::decimal(n as nat);
        assert(d == zeros(pad) + t);
        if plus {
            assert(s =~= seq!['+'] + d);
            assert(seq!['+'] + zeros(pad) + t =~= seq!['+'] + (zeros(pad) + t));
        } else {
            assert(Seq::<char>::empty() + zeros(pad) + t =~= zeros(pad) + t);
        }
        assert(writes(s, plus, pad, n));
    }
    if exists|p: bool, pad: nat| writes(s, p, pad, n) {
        let (p, pad) = choose|p: bool, pad: nat| writes(s, p, pad, n);
        let t = zeros(pad) + text::decimal(n as nat);
        lemma_decimal_is_digits(n as nat);
        lemma_decimal_value(n as nat);
        lemma_padded_value(pad, text::decimal(n as nat));
        assert forall|i: int| 0 <= i < t.len() implies is_digit(#[trigger] t[i]) by {
            if i >= pad {
                assert(t[i] == text::decimal(n as nat)[i - pad]);
            }
        }
        assert(is_digit(t[0]));
        if p {
            assert(s =~= seq!['+'] + t);
            assert(s.skip(1) =~= t);
        } else {
            assert(s =~= t);
        }
    }
}

/// A write that fails ends the writing for good, and so does the last byte.
pub proof fn law_failed_write_ends_it(len: usize, offset: usize, events: Seq<WriteEvent>)
    ensures
        progress_from(len, offset, WriteEvent::Failed) == WriteProgress::Failed,
        written(len, events) is From ==> written(len, events.push(WriteEvent::Failed))
            == WriteProgress::Failed,
        forall|e: WriteEvent|
            !(written(len, events) is From) ==> #[trigger] written(len, events.push(e)) == written(
                len,
                events,
            ),
        written(len, Seq::empty()) == (if len > 0 {
            WriteProgress::From(0)
        } else {
            WriteProgress::Done
        }),
{
    assert forall|e: WriteEvent|
        !(written(len, events) is From) implies #[trigger] written(len, events.push(e)) == written(
        len,
        events,
    ) by {
        assert(events.push(e).drop_last() =~= events);
    }
    assert(events.push(WriteEvent::Failed).drop_last() =~= events);
}

/// An interrupted write is tried again from where it began, and a partial one goes on
/// behind what it took, until everything is written.
pub proof fn law_write_goes_on_behind(len: usize, offset: usize, n: usize)
    requires
        offset + n <= len,
    ensures
        offset < len ==> progress_from(len, offset, WriteEvent::Interrupted) == WriteProgress::From(
            offset,
        ),
        offset + n < len ==> progress_from(len, offset, WriteEvent::Wrote(n))
            == WriteProgress::From((offset + n) as usize),
        offset + n == len ==> progress_from(len, offset, WriteEvent::Wrote(n))
            == WriteProgress::Done,
{
}

} // verus!
