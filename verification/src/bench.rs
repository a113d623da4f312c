//! Command-line switches of the deterministic benchmark run.

use vstd::prelude::*;

verus! {

/// Recorded-frame count when `--bench-frames` is omitted.
pub const DEFAULT_FRAMES: usize = 600;

/// How a benchmark run was requested.
#[derive(Clone, Copy, Debug, PartialEq, Eq, Structural)]
pub struct BenchConfig {
    /// Number of frames to record after warmup.
    pub frames: usize,
    /// Size the window to the primary display's native resolution instead
    /// of the fixed 1280×720 (`--native-bench`, which needs `--bench`).
    pub native_res: bool,
}

/// `c` is an ASCII decimal digit.
pub open spec fn is_digit(c: char) -> bool {
    48 <= c as u32 <= 57
}

/// Value of a string of decimal digits.
pub open spec fn decimal(d: Seq<char>) -> nat
    decreases d.len(),
{
    if d.len() == 0 {
        0
    } else {
        decimal(d.drop_last()) * 10 + (d.last() as u32 - 48) as nat
    }
}

/// The digits of a number text: everything after an optional leading `+`.
pub open spec fn number_body(s: Seq<char>) -> Seq<char> {
    if s.len() > 0 && s[0] == '+' {
        s.subrange(1, s.len() as int)
    } else {
        s
    }
}

/// Every character is a decimal digit.
pub open spec fn all_digits(d: Seq<char>) -> bool {
    forall|i: int| 0 <= i < d.len() ==> is_digit(#[trigger] d[i])
}

/// What the standard library's `usize` parsing accepts: an optional `+`,
/// then one or more decimal digits whose value fits in a `usize`.
pub open spec fn usize_text(s: Seq<char>) -> Option<usize> {
    let body = number_body(s);
    if body.len() > 0 && all_digits(body) && decimal(body) <= usize::MAX {
        Some(decimal(body) as usize)
    } else {
        None
    }
}

proof fn lemma_decimal_grows(d: Seq<char>, c: char)
    requires
        is_digit(c),
    ensures
        decimal(d.push(c)) == decimal(d) * 10 + (c as u32 - 48),
        decimal(d.push(c)) >= decimal(d),
{
    assert(d.push(c).drop_last() =~= d);
}

/// Parses a `usize` as the standard library does.
pub fn parse_usize(s: &String) -> (r: Option<usize>)
    ensures
        r == usize_text(s@),
{
    let mut chars: Vec<char> = Vec::new();
    for c in it: s.as_str().chars()
        invariant
            chars@.len() == it.index(),
            forall|i: int| 0 <= i < it.index() ==> #[trigger] chars@[i] == it.seq()[i],
    {
        chars.push(c);
    }
    proof {
        assert(chars@ =~= s@);
    }
    let n = chars.len();
    let start: usize = if n > 0 && chars[0] == '+' {
        1
    } else {
        0
    };
    let ghost body = number_body(s@);
    assert(body =~= chars@.subrange(start as int, n as int));
    if start == n {
        return None;
    }
    let mut acc: Option<usize> = Some(0);
    let mut i: usize = start;
    while i < n
        invariant
            start <= i <= n,
            n == chars@.len(),
            body == chars@.subrange(start as int, n as int),
            body == number_body(s@),
            forall|k: int| start <= k < i ==> is_digit(#[trigger] chars@[k]),
            acc == if decimal(chars@.subrange(start as int, i as int)) <= usize::MAX {
                Some(decimal(chars@.subrange(start as int, i as int)) as usize)
            } else {
                None::<usize>
            },
        decreases n - i,
    {
        let c = chars[i];
        let code = c as u32;
        if code < 48 || code > 57 {
            proof {
                assert(body[i - start] == c);
                assert(!is_digit(body[i - start]));
            }
            return None;
        }
        let d = (code - 48) as usize;
        proof {
            assert(chars@.subrange(start as int, i + 1) =~= chars@.subrange(start as int, i as int).push(c));
            lemma_decimal_grows(chars@.subrange(start as int, i as int), c);
        }
        acc = match acc {
            Some(a) => match a.checked_mul(10) {
                Some(b) => b.checked_add(d),
                None => None,
            },
            None => None,
        };
        i = i + 1;
    }
    proof {
        assert(chars@.subrange(start as int, n as int) == body);
        assert forall|k: int| 0 <= k < body.len() implies is_digit(#[trigger] body[k]) by {
            assert(body[k] == chars@[start + k]);
        }
    }
    acc
}

/// Frame count chosen by the arguments before index `k`: the value after
/// the last `--bench-frames` that is followed by a positive count, else the
/// default.
pub open spec fn frames_upto(args: Seq<Seq<char>>, k: int) -> usize
    decreases k,
{
    if k <= 0 {
        DEFAULT_FRAMES
    } else {
        let i = k - 1;
        if i + 1 < args.len() && args[i] == "--bench-frames"@ && usize_text(args[i + 1]) is Some && usize_text(
            args[i + 1],
        )->Some_0 > 0 {
            usize_text(args[i + 1])->Some_0
        } else {
            frames_upto(args, k - 1)
        }
    }
}

/// Reads the process arguments. Returns `Some` exactly when `--bench` is
/// among them; `--bench-frames N` sets the frame count (a missing, zero or
/// unparseable `N` keeps the default; the last valid one wins);
/// `--native-bench` asks for the native resolution.
pub fn parse_bench_args(args: Vec<String>) -> (r: Option<BenchConfig>)
    ensures
        r is Some <==> exists|i: int| 0 <= i < args@.len() && (#[trigger] args@[i])@ == "--bench"@,
        r matches Some(cfg) ==> {
            &&& cfg.frames == frames_upto(args@.map_values(|a: String| a@), args@.len() as int)
            &&& cfg.native_res == exists|i: int| 0 <= i < args@.len() && (#[trigger] args@[i])@ == "--native-bench"@
        },
{
    let ghost views = args@.map_values(|a: String| a@);
    let bench = "--bench".to_owned();
    let bench_frames = "--bench-frames".to_owned();
    let native = "--native-bench".to_owned();
    let mut found = false;
    let mut frames = DEFAULT_FRAMES;
    let mut native_res = false;
    let mut i: usize = 0;
    while i < args.len()
        invariant
            i <= args@.len(),
            views == args@.map_values(|a: String| a@),
            bench@ == "--bench"@,
            bench_frames@ == "--bench-frames"@,
            native@ == "--native-bench"@,
            found == exists|j: int| 0 <= j < i && (#[trigger] args@[j])@ == "--bench"@,
            native_res == exists|j: int| 0 <= j < i && (#[trigger] args@[j])@ == "--native-bench"@,
            frames == frames_upto(views, i as int),
        decreases args@.len() - i,
    {
        if args[i] == bench {
            found = true;
        }
        if args[i] == native {
            native_res = true;
        }
        if args[i] == bench_frames && i + 1 < args.len() {
            match parse_usize(&args[i + 1]) {
                Some(n) => {
                    if n > 0 {
                        frames = n;
                    }
                },
                None => {},
            }
        }
        proof {
            assert(views[i as int] == args@[i as int]@);
            if i + 1 < args@.len() {
                assert(views[i + 1] == args@[i + 1]@);
            }
        }
        i = i + 1;
    }
    if found {
        Some(BenchConfig { frames, native_res })
    } else {
        None
    }
}

/// Consecutive idle (streaming-quiet) frames required before recording starts.
pub const STEADY_FRAMES: u32 = 30;

/// Hard cap on warmup frames, so a world that never goes idle cannot hang
/// the run: when it fires, recording starts even while streaming is busy.
pub const WARMUP_CAP: u32 = 6000;

/// Stage of a benchmark run.
#[derive(Clone, Copy, Debug, PartialEq, Eq, Structural)]
pub enum Phase {
    Warmup,
    Recording,
    Done,
}

/// The warmup → record → done state machine of a benchmark run. The frame
/// times themselves are kept by the caller, which records a sample exactly
/// when [`BenchRun::push`] says so.
pub struct BenchRun {
    config: BenchConfig,
    phase: Phase,
    warmup_frames: u32,
    idle_streak: u32,
    recorded: usize,
}

/// Phase after warmup ends for a run of `frames` frames.
pub open spec fn after_warmup(frames: usize) -> Phase {
    if frames == 0 {
        Phase::Done
    } else {
        Phase::Recording
    }
}

impl BenchRun {
    pub closed spec fn config(&self) -> BenchConfig {
        self.config
    }

    pub closed spec fn phase(&self) -> Phase {
        self.phase
    }

    pub closed spec fn warmup_frames(&self) -> nat {
        self.warmup_frames as nat
    }

    pub closed spec fn idle_streak(&self) -> nat {
        self.idle_streak as nat
    }

    pub closed spec fn recorded_count(&self) -> nat {
        self.recorded as nat
    }

    /// While warming up, both counters are below their thresholds; while
    /// recording, fewer frames than asked for are recorded; a finished run
    /// recorded all of them.
    pub closed spec fn wf(&self) -> bool {
        &&& self.idle_streak <= self.warmup_frames
        &&& (self.phase == Phase::Warmup ==> self.idle_streak < STEADY_FRAMES && self.warmup_frames
            < WARMUP_CAP && self.recorded == 0)
        &&& (self.phase == Phase::Recording ==> self.recorded < self.config.frames)
        &&& (self.phase == Phase::Done ==> self.recorded == self.config.frames)
    }

    pub fn new(config: BenchConfig) -> (r: Self)
        ensures
            r.wf(),
            r.config() == config,
            r.phase() == Phase::Warmup,
            r.warmup_frames() == 0,
            r.idle_streak() == 0,
            r.recorded_count() == 0,
    {
        BenchRun { config, phase: Phase::Warmup, warmup_frames: 0, idle_streak: 0, recorded: 0 }
    }

    pub fn frames(&self) -> (r: usize)
        ensures
            r == self.config().frames,
    {
        self.config.frames
    }

    pub fn is_warming(&self) -> (r: bool)
        ensures
            r == (self.phase() == Phase::Warmup),
    {
        match self.phase {
            Phase::Warmup => true,
            _ => false,
        }
    }

    pub fn is_done(&self) -> (r: bool)
        ensures
            r == (self.phase() == Phase::Done),
    {
        match self.phase {
            Phase::Done => true,
            _ => false,
        }
    }

    /// Frames recorded so far.
    pub fn recorded(&self) -> (r: usize)
        ensures
            r == self.recorded_count(),
    {
        self.recorded
    }

    /// One warmup frame; `idle` says streaming was quiet this frame. Returns
    /// whether warmup is over: after `STEADY_FRAMES` idle frames in a row, or
    /// after `WARMUP_CAP` frames in all. A run of zero frames is then done.
    pub fn warmup_step(&mut self, idle: bool) -> (ready: bool)
        requires
            old(self).wf(),
            old(self).phase() == Phase::Warmup,
        ensures
            final(self).wf(),
            final(self).config() == old(self).config(),
            final(self).recorded_count() == 0,
            final(self).warmup_frames() == old(self).warmup_frames() + 1,
            final(self).idle_streak() == if idle {
                old(self).idle_streak() + 1
            } else {
                0
            },
            ready == (final(self).idle_streak() >= STEADY_FRAMES || final(self).warmup_frames() >= WARMUP_CAP),
            final(self).phase() == if ready {
                after_warmup(old(self).config().frames)
            } else {
                Phase::Warmup
            },
    {
        self.warmup_frames = self.warmup_frames + 1;
        if idle {
            self.idle_streak = self.idle_streak + 1;
        } else {
            self.idle_streak = 0;
        }
        let ready = self.idle_streak >= STEADY_FRAMES || self.warmup_frames >= WARMUP_CAP;
        if ready {
            self.phase = if self.config.frames == 0 {
                Phase::Done
            } else {
                Phase::Recording
            };
        }
        ready
    }

    /// One measured frame. Returns whether the frame is recorded (only while
    /// recording); the run is done once `frames` frames are recorded.
    pub fn push(&mut self) -> (taken: bool)
        requires
            old(self).wf(),
        ensures
            final(self).wf(),
            final(self).config() == old(self).config(),
            final(self).warmup_frames() == old(self).warmup_frames(),
            final(self).idle_streak() == old(self).idle_streak(),
            taken == (old(self).phase() == Phase::Recording),
            final(self).recorded_count() == old(self).recorded_count() + if taken {
                1nat
            } else {
                0nat
            },
            final(self).phase() == if taken && final(self).recorded_count() >= old(self).config().frames {
                Phase::Done
            } else {
                old(self).phase()
            },
    {
        match self.phase {
            Phase::Recording => {},
            _ => {
                return false;
            },
        }
        self.recorded = self.recorded + 1;
        if self.recorded >= self.config.frames {
            self.phase = Phase::Done;
        }
        true
    }
}

/// A run still warming up has taken fewer than `WARMUP_CAP` warmup frames
/// and recorded nothing, so warmup ends within `WARMUP_CAP` calls of
/// `warmup_step`; and no run ever records more frames than it asked for.
pub proof fn lemma_run_is_bounded(run: BenchRun)
    requires
        run.wf(),
    ensures
        run.recorded_count() <= run.config().frames,
        run.phase() == Phase::Warmup ==> run.warmup_frames() < WARMUP_CAP && run.idle_streak() < STEADY_FRAMES
            && run.recorded_count() == 0,
{
}

} // verus!
