//! Decisions around audio capture: mixing 16-bit frames down to mono, when
//! start-up has succeeded or failed, and whether a finished recording is
//! usable. Capturing and writing the file are the application's part.

use vstd::prelude::*;

verus! {

/// Sum of a run of samples.
pub open spec fn sum_samples(s: Seq<i16>) -> int
    decreases s.len(),
{
    if s.len() == 0 {
        0
    } else {
        sum_samples(s.drop_last()) + s.last() as int
    }
}

/// Integer division rounding toward zero, as Rust's `/` does.
pub open spec fn trunc_div(a: int, b: int) -> int {
    if a >= 0 {
        a / b
    } else {
        -((-a) / b)
    }
}

/// Interleaved samples with `ch` channels mixed to mono: each frame of `ch`
/// samples (the last may be shorter) becomes its sum divided by `ch`.
pub open spec fn downmix(s: Seq<i16>, ch: nat) -> Seq<i16>
    decreases s.len(),
{
    if ch == 0 || s.len() == 0 {
        seq![]
    } else {
        let n = if s.len() < ch {
            s.len()
        } else {
            ch
        };
        seq![trunc_div(sum_samples(s.take(n as int)), ch as int) as i16] + downmix(
            s.skip(n as int),
            ch,
        )
    }
}

/// Mixing down yields one sample per frame: `ceil(len / ch)` samples.
pub proof fn law_one_sample_per_frame(s: Seq<i16>, ch: nat)
    requires
        ch > 0,
    ensures
        downmix(s, ch).len() == (s.len() + ch - 1) / (ch as int),
    decreases s.len(),
{
    if s.len() == 0 {
        assert((ch - 1) / (ch as int) == 0) by (nonlinear_arith)
            requires
                ch > 0,
        ;
    } else if s.len() < ch {
        assert(s.skip(s.len() as int) =~= Seq::<i16>::empty());
        let l = s.len() as int;
        assert(downmix(s, ch).len() == 1 + downmix(s.skip(l), ch).len());
        assert((l + ch - 1) / (ch as int) == 1) by (nonlinear_arith)
            requires
                0 < l < ch,
        ;
    } else {
        law_one_sample_per_frame(s.skip(ch as int), ch);
        let l = s.len() as int;
        assert(s.skip(ch as int).len() == l - ch);
        assert(downmix(s, ch).len() == 1 + downmix(s.skip(ch as int), ch).len());
        assert((l + ch - 1) / (ch as int) == 1 + (l - ch + ch - 1) / (ch as int)) by (
        nonlinear_arith)
            requires
                l >= ch,
                ch > 0,
        ;
    }
}

/// The start of frame `k` in samples of `ch` channels.
pub open spec fn frame_start(k: int, ch: int) -> int {
    k * ch
}

/// The end of frame `k` (exclusive) in `len` samples of `ch` channels.
pub open spec fn frame_end(k: int, ch: int, len: int) -> int {
    if (k + 1) * ch < len {
        (k + 1) * ch
    } else {
        len
    }
}

/// Each mono sample is the sum of its frame, samples `k * ch` up to
/// `(k + 1) * ch` (or the end), divided by the channel count and rounded
/// toward zero; there is one per frame.
pub proof fn law_downmix_averages_frames(s: Seq<i16>, ch: nat)
    requires
        ch > 0,
    ensures
        downmix(s, ch).len() == (s.len() + ch - 1) / (ch as int),
        forall|k: int|
            #![trigger downmix(s, ch)[k]]
            #![trigger frame_start(k, ch as int)]
            0 <= k < downmix(s, ch).len() ==> frame_start(k, ch as int) < s.len() && downmix(s, ch)[k] as int
                == trunc_div(
                sum_samples(s.subrange(frame_start(k, ch as int), frame_end(k, ch as int, s.len() as int))),
                ch as int,
            ),
{
    law_one_sample_per_frame(s, ch);
    assert forall|k: int|
        #![trigger downmix(s, ch)[k]]
        #![trigger frame_start(k, ch as int)]
        0 <= k < downmix(s, ch).len() implies frame_start(k, ch as int) < s.len() && downmix(s, ch)[k] as int
            == trunc_div(
        sum_samples(s.subrange(frame_start(k, ch as int), frame_end(k, ch as int, s.len() as int))),
        ch as int,
    ) by {
        lemma_frame_mix(s, ch, k);
    }
}

proof fn lemma_frame_mix(s: Seq<i16>, ch: nat, k: int)
    requires
        ch > 0,
        0 <= k < downmix(s, ch).len(),
    ensures
        k * ch < s.len(),
        downmix(s, ch)[k] as int == trunc_div(
            sum_samples(s.subrange(k * ch, frame_end(k, ch as int, s.len() as int))),
            ch as int,
        ),
    decreases s.len(),
{
    let d = ch as int;
    let l = s.len() as int;
    if l == 0 {
        assert(downmix(s, ch) =~= Seq::<i16>::empty());
    }
    let n: int = if l < d { l } else { d };
    let rest = s.skip(n);
    lemma_frame_value_in_range(s.take(n), ch);
    let v = trunc_div(sum_samples(s.take(n)), d);
    assert(downmix(s, ch) == seq![v as i16] + downmix(rest, ch));
    assert((v as i16) as int == v);
    if k == 0 {
        assert((0 + 1) * d == d);
        assert(0 * d == 0);
        assert(s.subrange(0, frame_end(0, d, l)) =~= s.take(n));
    } else {
        let k1 = k - 1;
        assert(downmix(s, ch)[k] == downmix(rest, ch)[k1]);
        lemma_frame_mix(rest, ch, k1);
        assert(k * d == d + k1 * d) by (nonlinear_arith)
            requires
                k1 == k - 1,
        ;
        assert((k + 1) * d == d + (k1 + 1) * d) by (nonlinear_arith)
            requires
                k1 == k - 1,
        ;
        assert(n == d) by {
            if l < d {
                assert(rest.len() == 0);
                assert(downmix(rest, ch) =~= Seq::<i16>::empty());
            }
        }
        assert(rest.len() == l - d);
        assert(frame_end(k, d, l) == d + frame_end(k1, d, l - d));
        assert(rest.subrange(k1 * d, frame_end(k1, d, rest.len() as int))
            =~= s.subrange(k * d, frame_end(k, d, l)));
    }
}

/// The mix of one frame fits in 16 bits.
proof fn lemma_frame_value_in_range(f: Seq<i16>, ch: nat)
    requires
        ch > 0,
        f.len() <= ch,
    ensures
        -32768 <= trunc_div(sum_samples(f), ch as int) <= 32767,
{
    lemma_sum_bounds(f);
    let t = sum_samples(f);
    let m = f.len() as int;
    let d = ch as int;
    if t >= 0 {
        assert(t / d <= 32767) by (nonlinear_arith)
            requires
                0 <= t <= 32767 * m,
                m <= d,
                d >= 1,
        ;
        assert(t / d >= 0) by (nonlinear_arith)
            requires
                0 <= t,
                d >= 1,
        ;
    } else {
        assert((-t) / d <= 32768) by (nonlinear_arith)
            requires
                0 < -t <= 32768 * m,
                m <= d,
                d >= 1,
        ;
        assert((-t) / d >= 0) by (nonlinear_arith)
            requires
                0 < -t,
                d >= 1,
        ;
    }
}

proof fn lemma_sum_bounds(f: Seq<i16>)
    ensures
        -32768 * f.len() <= sum_samples(f) <= 32767 * f.len(),
    decreases f.len(),
{
    if f.len() > 0 {
        lemma_sum_bounds(f.drop_last());
    }
}

/// Mixes interleaved 16-bit samples with `channels` channels down to mono.
pub fn downmix_i16(data: &[i16], channels: u16) -> (r: Vec<i16>)
    requires
        channels > 0,
    ensures
        r@ == downmix(data@, channels as nat),
{
    let ch: usize = channels as usize;
    let mut out: Vec<i16> = Vec::new();
    let mut i: usize = 0;
    assert(data@.skip(0) =~= data@);
    while i < data.len()
        invariant
            i <= data.len(),
            1 <= ch <= 65535,
            ch == channels as usize,
            out@ + downmix(data@.skip(i as int), ch as nat) == downmix(data@, ch as nat),
        decreases data.len() - i,
    {
        let end: usize = if data.len() - i < ch {
            data.len()
        } else {
            i + ch
        };
        let mut sum: i32 = 0;
        let mut k: usize = i;
        assert(data@.subrange(i as int, i as int) =~= Seq::<i16>::empty());
        while k < end
            invariant
                i <= k <= end <= data.len(),
                end - i <= ch <= 65535,
                sum == sum_samples(data@.subrange(i as int, k as int)),
                -32768 * (k - i) <= sum <= 32767 * (k - i),
            decreases end - k,
        {
            assert(data@.subrange(i as int, k + 1).drop_last() =~= data@.subrange(
                i as int,
                k as int,
            ));
            sum = sum + data[k] as i32;
            k = k + 1;
        }
        let m: usize = end - i;
        let d: i32 = ch as i32;
        assert(-32768 * (m as int) <= sum <= 32767 * (m as int));
        proof {
            if sum >= 0 {
                assert((sum as int) / (d as int) <= 32767) by (nonlinear_arith)
                    requires
                        0 <= sum <= 32767 * (m as int),
                        m <= d,
                        d >= 1,
                ;
            } else {
                assert((-(sum as int)) / (d as int) <= 32768) by (nonlinear_arith)
                    requires
                        0 < -(sum as int) <= 32768 * (m as int),
                        m <= d,
                        d >= 1,
                ;
            }
        }
        let mono: i32 = sum / d;
        out.push(mono as i16);
        let ghost rest = data@.skip(i as int);
        assert(rest.take(m as int) =~= data@.subrange(i as int, end as int));
        assert(rest.skip(m as int) =~= data@.skip(end as int));
        i = end;
    }
    out
}

/// Outcome of one check while waiting for capture to start.
#[derive(Debug, Clone)]
pub enum StartupPoll {
    /// Capture is running.
    Started,
    /// The capture thread ended without starting, with this message.
    Failed(String),
    /// Start-up took too long.
    TimedOut,
    /// Keep waiting.
    Wait,
}

/// Seconds allowed for capture to start.
pub open spec fn startup_timeout_secs() -> nat {
    2
}

/// Seconds allowed for capture to stop.
pub open spec fn stop_timeout_secs() -> nat {
    3
}

/// Smallest usable recording file, in bytes.
pub open spec fn min_recording_bytes() -> nat {
    1000
}

/// One check while waiting for capture to start: started wins, then a
/// finished capture thread (its error, or a generic message), then the
/// time limit.
pub fn startup_poll(started: bool, done: bool, error: Option<String>, elapsed_secs: u64) -> (r:
    StartupPoll)
    ensures
        started ==> r is Started,
        !started && done ==> (r matches StartupPoll::Failed(m) && m@ == (match error {
            Some(e) => e@,
            None => "Recording failed to start"@,
        })),
        !started && !done && elapsed_secs > startup_timeout_secs() ==> r is TimedOut,
        !started && !done && elapsed_secs <= startup_timeout_secs() ==> r is Wait,
{
    if started {
        return StartupPoll::Started;
    }
    if done {
        let message = match error {
            Some(e) => e,
            None => "Recording failed to start".to_owned(),
        };
        return StartupPoll::Failed(message);
    }
    if elapsed_secs > 2 {
        return StartupPoll::TimedOut;
    }
    StartupPoll::Wait
}

/// Outcome of one check while waiting for capture to stop.
#[derive(Debug, Clone, Copy, PartialEq, Eq, Structural)]
pub enum StopPoll {
    Stopped,
    TimedOut,
    Wait,
}

/// One check while waiting for capture to stop.
pub fn stop_poll(done: bool, elapsed_secs: u64) -> (r: StopPoll)
    ensures
        done ==> r == StopPoll::Stopped,
        !done && elapsed_secs > stop_timeout_secs() ==> r == StopPoll::TimedOut,
        !done && elapsed_secs <= stop_timeout_secs() ==> r == StopPoll::Wait,
{
    if done {
        StopPoll::Stopped
    } else if elapsed_secs > 3 {
        StopPoll::TimedOut
    } else {
        StopPoll::Wait
    }
}

/// Whether a stopped recording is usable: no capture error, the file
/// exists, its size can be read and is at least 1000 bytes.
pub fn recording_outcome(error: Option<String>, file_exists: bool, file_size: Result<u64, String>) -> (r:
    Result<(), String>)
    ensures
        match error {
            Some(e) => r == Err::<(), String>(e),
            None => if !file_exists {
                (r matches Err(m) && m@ == "Recording file was not created"@)
            } else {
                match file_size {
                    Err(m) => r == Err::<(), String>(m),
                    Ok(n) => if n < min_recording_bytes() {
                        (r matches Err(m) && m@ == "Recording too short or empty"@)
                    } else {
                        r is Ok
                    },
                }
            },
        },
{
    if let Some(e) = error {
        return Err(e);
    }
    if !file_exists {
        return Err("Recording file was not created".to_owned());
    }
    match file_size {
        Err(m) => Err(m),
        Ok(n) => {
            if n < 1000 {
                Err("Recording too short or empty".to_owned())
            } else {
                Ok(())
            }
        },
    }
}

} // verus!
