//! Shader hot reloading: WGSL validation before a swap, and the decisions of
//! a file watcher that polls a shader's modification time.

use vstd::prelude::*;

verus! {

/// What naga's WGSL front end and validator (all validation flags, baseline
/// capabilities) make of a source text: accepted, or the error message.
pub uninterp spec fn wgsl_verdict(source: Seq<char>) -> Result<(), Seq<char>>;

/// naga's `front::wgsl::parse_str` followed by
/// `valid::Validator::new(ValidationFlags::all(), Capabilities::default())
/// .validate`. Trusted: the outcome is the one [`wgsl_verdict`] names for
/// the source text (both naga steps are deterministic functions of the
/// text), with either step's error rendered by its `Display`.
#[verifier::external_body]
fn naga_check(source: &str) -> (r: Result<(), String>)
    ensures
        match r {
            Ok(()) => wgsl_verdict(source@) == Ok::<(), Seq<char>>(()),
            Err(e) => wgsl_verdict(source@) == Err::<(), Seq<char>>(e@),
        },
{
    let module = match naga::front::wgsl::parse_str(source) {
        Ok(m) => m,
        Err(e) => return Err(e.to_string()),
    };
    let caps = naga::valid::Capabilities::default();
    match naga::valid::Validator::new(naga::valid::ValidationFlags::all(), caps).validate(&module) {
        Ok(_) => Ok(()),
        Err(e) => Err(e.to_string()),
    }
}

/// Checks a WGSL source the way the GPU layer will: parse, then validate
/// with every validation flag and only the baseline capabilities (a shader
/// needing optional capabilities would pass a laxer check here yet fail at
/// pipeline creation, defeating this pre-swap gate).
pub fn validate_wgsl(source: &str) -> (r: Result<(), String>)
    ensures
        r is Ok <==> wgsl_verdict(source@) is Ok,
        r matches Err(e) ==> wgsl_verdict(source@) == Err::<(), Seq<char>>(e@),
{
    naga_check(source)
}

/// Minimum time between two checks of the same file, in milliseconds.
pub const POLL_INTERVAL_MS: u64 = 500;

/// The decisions of a watcher of one shader file. The caller owns the file
/// system and the clock: it asks [`ShaderWatcher::due`] each frame, reads
/// the file's modification time when due, asks [`ShaderWatcher::changed`],
/// reads the source when changed, and hands it to [`ShaderWatcher::accept`].
pub struct ShaderWatcher {
    pub path: String,
    /// Modification time (nanoseconds since the epoch) of the last source
    /// read, or the time seen at creation.
    pub last_mtime: Option<u128>,
    /// Clock reading (milliseconds) of the last check.
    pub last_check_ms: u64,
}

impl ShaderWatcher {
    pub fn new(path: String, mtime: Option<u128>, now_ms: u64) -> (r: Self)
        ensures
            r.path == path,
            r.last_mtime == mtime,
            r.last_check_ms == now_ms,
    {
        ShaderWatcher { path, last_mtime: mtime, last_check_ms: now_ms }
    }

    /// Whether the throttle lets a check run at `now_ms`; a check that runs
    /// restarts the interval.
    pub fn due(&mut self, now_ms: u64) -> (r: bool)
        ensures
            r == (now_ms >= old(self).last_check_ms && now_ms - old(self).last_check_ms >= POLL_INTERVAL_MS),
            final(self).last_check_ms == if r {
                now_ms
            } else {
                old(self).last_check_ms
            },
            final(self).last_mtime == old(self).last_mtime,
            final(self).path == old(self).path,
    {
        if now_ms < self.last_check_ms || now_ms - self.last_check_ms < POLL_INTERVAL_MS {
            return false;
        }
        self.last_check_ms = now_ms;
        true
    }

    /// Whether the file's modification time differs from the last one seen.
    pub fn changed(&self, mtime: u128) -> (r: bool)
        ensures
            r == (self.last_mtime != Some(mtime)),
    {
        match self.last_mtime {
            Some(m) => m != mtime,
            None => true,
        }
    }

    /// Takes a freshly read source with its modification time: remembers
    /// the time (a failed read keeps the old one, so the next poll retries)
    /// and returns the source when it validates, or the validation error.
    pub fn accept(&mut self, mtime: u128, source: String) -> (r: Result<String, String>)
        ensures
            final(self).last_mtime == Some(mtime),
            final(self).last_check_ms == old(self).last_check_ms,
            final(self).path == old(self).path,
            r is Ok <==> wgsl_verdict(source@) is Ok,
            r matches Ok(s) ==> s@ == source@,
            r matches Err(e) ==> wgsl_verdict(source@) == Err::<(), Seq<char>>(e@),
    {
        self.last_mtime = Some(mtime);
        match validate_wgsl(source.as_str()) {
            Ok(()) => Ok(source),
            Err(e) => Err(e),
        }
    }
}

/// Several named shader files, each with its own watcher and throttle. The
/// caller polls them in order: for each index it asks [`ShaderSet::due`],
/// reads the file's modification time, asks [`ShaderSet::changed`], reads
/// the source, and hands it to [`ShaderSet::accept`]; every `Ok` is a
/// `(name, source)` to swap in.
pub struct ShaderSet {
    watchers: Vec<(&'static str, ShaderWatcher)>,
}

impl ShaderSet {
    /// The watched files, in the order they were added.
    pub closed spec fn entries(&self) -> Seq<(&'static str, ShaderWatcher)> {
        self.watchers@
    }

    pub fn new() -> (r: Self)
        ensures
            r.entries() == Seq::<(&'static str, ShaderWatcher)>::empty(),
    {
        ShaderSet { watchers: Vec::new() }
    }

    /// Starts watching `path` under `name`; `mtime` is the file's
    /// modification time now (`None` when it cannot be read).
    pub fn watch(&mut self, name: &'static str, path: String, mtime: Option<u128>, now_ms: u64)
        ensures
            final(self).entries() == old(self).entries().push(
                (name, ShaderWatcher { path, last_mtime: mtime, last_check_ms: now_ms }),
            ),
    {
        self.watchers.push((name, ShaderWatcher::new(path, mtime, now_ms)));
    }

    pub fn len(&self) -> (r: usize)
        ensures
            r == self.entries().len(),
    {
        self.watchers.len()
    }

    pub fn name(&self, i: usize) -> (r: &'static str)
        requires
            i < self.entries().len(),
        ensures
            r == self.entries()[i as int].0,
    {
        self.watchers[i].0
    }

    pub fn path(&self, i: usize) -> (r: &String)
        requires
            i < self.entries().len(),
        ensures
            *r == self.entries()[i as int].1.path,
    {
        &self.watchers[i].1.path
    }

    /// [`ShaderWatcher::due`] of the `i`-th watcher; the others are unchanged.
    pub fn due(&mut self, i: usize, now_ms: u64) -> (r: bool)
        requires
            i < old(self).entries().len(),
        ensures
            final(self).entries().len() == old(self).entries().len(),
            forall|j: int|
                0 <= j < old(self).entries().len() && j != i ==> #[trigger] final(self).entries()[j]
                    == old(self).entries()[j],
            final(self).entries()[i as int].0 == old(self).entries()[i as int].0,
            ({
                let (w0, w1) = (old(self).entries()[i as int].1, final(self).entries()[i as int].1);
                &&& r == (now_ms >= w0.last_check_ms && now_ms - w0.last_check_ms >= POLL_INTERVAL_MS)
                &&& w1.last_check_ms == if r {
                    now_ms
                } else {
                    w0.last_check_ms
                }
                &&& w1.last_mtime == w0.last_mtime
                &&& w1.path == w0.path
            }),
    {
        let entry = &mut self.watchers[i];
        entry.1.due(now_ms)
    }

    /// [`ShaderWatcher::changed`] of the `i`-th watcher.
    pub fn changed(&self, i: usize, mtime: u128) -> (r: bool)
        requires
            i < self.entries().len(),
        ensures
            r == (self.entries()[i as int].1.last_mtime != Some(mtime)),
    {
        self.watchers[i].1.changed(mtime)
    }

    /// [`ShaderWatcher::accept`] of the `i`-th watcher, with the watcher's
    /// name beside an accepted source.
    pub fn accept(&mut self, i: usize, mtime: u128, source: String) -> (r: Result<(&'static str, String), String>)
        requires
            i < old(self).entries().len(),
        ensures
            final(self).entries().len() == old(self).entries().len(),
            forall|j: int|
                0 <= j < old(self).entries().len() && j != i ==> #[trigger] final(self).entries()[j]
                    == old(self).entries()[j],
            final(self).entries()[i as int] == (
                old(self).entries()[i as int].0,
                ShaderWatcher { last_mtime: Some(mtime), ..old(self).entries()[i as int].1 },
            ),
            r is Ok <==> wgsl_verdict(source@) is Ok,
            r matches Ok(p) ==> p.0 == old(self).entries()[i as int].0 && p.1@ == source@,
            r matches Err(e) ==> wgsl_verdict(source@) == Err::<(), Seq<char>>(e@),
    {
        let name = self.watchers[i].0;
        let entry = &mut self.watchers[i];
        match entry.1.accept(mtime, source) {
            Ok(s) => Ok((name, s)),
            Err(e) => Err(e),
        }
    }
}

impl Default for ShaderSet {
    fn default() -> (r: Self)
        ensures
            r.entries() == Seq::<(&'static str, ShaderWatcher)>::empty(),
    {
        ShaderSet::new()
    }
}

} // verus!
