//! Work-unit counters for one run: Git subprocesses, Rust files parsed or
//! skipped, cache hits and baseline scopes. A disabled recorder ignores
//! every event.
use vstd::prelude::*;

verus! {

#[verifier::external_type_specification]
#[verifier::external_body]
pub struct ExInstant(std::time::Instant);

/// The current instant (`std::time::Instant::now`).
#[verifier::external_body]
fn now() -> (r: std::time::Instant) {
    std::time::Instant::now()
}

/// Microseconds since `started` (`Instant::elapsed` then
/// `Duration::as_micros`); the clock decides the value.
#[verifier::external_body]
fn elapsed_micros(started: &std::time::Instant) -> (r: u128) {
    started.elapsed().as_micros()
}

/// Microseconds since `started`, saturating at `u64::MAX`.
fn elapsed_us(started: &std::time::Instant) -> (r: u64) {
    let micros = elapsed_micros(started);
    if micros > u64::MAX as u128 {
        u64::MAX
    } else {
        micros as u64
    }
}

#[derive(Debug, Clone, Copy, Default, Eq, PartialEq, Structural)]
pub struct PerfCounters {
    pub wall_time_us: u64,
    pub git_subprocesses: usize,
    pub rust_files_parsed: usize,
    pub rust_files_prefiltered: usize,
    pub rust_cache_hits: usize,
    pub baseline_scope_hits: usize,
    pub baseline_scope_computed: usize,
}

pub open spec fn zero_counters() -> PerfCounters {
    PerfCounters {
        wall_time_us: 0,
        git_subprocesses: 0,
        rust_files_parsed: 0,
        rust_files_prefiltered: 0,
        rust_cache_hits: 0,
        baseline_scope_hits: 0,
        baseline_scope_computed: 0,
    }
}

#[derive(Debug)]
struct PerfState {
    started: std::time::Instant,
    counters: PerfCounters,
}

/// Counters of one run; `None` while measurement is off.
#[derive(Debug)]
pub struct PerfRecorder {
    state: Option<PerfState>,
}

impl PerfRecorder {
    /// The counters gathered so far, or `None` when measurement is off.
    pub closed spec fn counters(&self) -> Option<PerfCounters> {
        match self.state {
            Some(s) => Some(s.counters),
            None => None,
        }
    }

    /// The counters gathered so far, or `None` when measurement is off.
    pub fn current(&self) -> (r: Option<PerfCounters>)
        ensures
            r == self.counters(),
    {
        match &self.state {
            Some(s) => Some(s.counters),
            None => None,
        }
    }

    /// A recorder that ignores every event.
    pub fn disabled() -> (r: PerfRecorder)
        ensures
            r.counters() is None,
    {
        PerfRecorder { state: None }
    }

    /// Starts measuring from zero.
    pub fn begin() -> (r: PerfRecorder)
        ensures
            r.counters() == Some(zero_counters()),
    {
        PerfRecorder {
            state: Some(
                PerfState {
                    started: now(),
                    counters: PerfCounters {
                        wall_time_us: 0,
                        git_subprocesses: 0,
                        rust_files_parsed: 0,
                        rust_files_prefiltered: 0,
                        rust_cache_hits: 0,
                        baseline_scope_hits: 0,
                        baseline_scope_computed: 0,
                    },
                },
            ),
        }
    }

    /// Stops measuring and hands back the counters with the elapsed wall
    /// time; `None` when measurement was off.
    pub fn finish(&mut self) -> (r: Option<PerfCounters>)
        ensures
            final(self).counters() is None,
            match old(self).counters() {
                None => r is None,
                Some(c) => r matches Some(d) && d == PerfCounters { wall_time_us: d.wall_time_us, ..c },
            },
    {
        match self.state.take() {
            None => None,
            Some(s) => {
                let mut counters = s.counters;
                counters.wall_time_us = elapsed_us(&s.started);
                Some(counters)
            },
        }
    }
}

/// Counts one Git subprocess.
pub fn record_git_subprocess(recorder: &mut PerfRecorder)
    requires
        old(recorder).counters() matches Some(c) ==> c.git_subprocesses < usize::MAX,
    ensures
        final(recorder).counters() == match old(recorder).counters() {
            Some(c) => Some(PerfCounters { git_subprocesses: (c.git_subprocesses + 1) as usize, ..c }),
            None => None,
        },
{
    if let Some(s) = &mut recorder.state {
        s.counters.git_subprocesses = s.counters.git_subprocesses + 1;
    }
}

/// Counts parsed Rust files and cache hits.
pub fn record_rust_scan(recorder: &mut PerfRecorder, parsed: usize, cache_hits: usize)
    requires
        old(recorder).counters() matches Some(c) ==> c.rust_files_parsed + parsed <= usize::MAX
            && c.rust_cache_hits + cache_hits <= usize::MAX,
    ensures
        final(recorder).counters() == match old(recorder).counters() {
            Some(c) => Some(
                PerfCounters {
                    rust_files_parsed: (c.rust_files_parsed + parsed) as usize,
                    rust_cache_hits: (c.rust_cache_hits + cache_hits) as usize,
                    ..c
                },
            ),
            None => None,
        },
{
    if let Some(s) = &mut recorder.state {
        s.counters.rust_files_parsed = s.counters.rust_files_parsed + parsed;
        s.counters.rust_cache_hits = s.counters.rust_cache_hits + cache_hits;
    }
}

/// Counts Rust files skipped by the cheap prefilter.
pub fn record_rust_prefiltered(recorder: &mut PerfRecorder, prefiltered: usize)
    requires
        old(recorder).counters() matches Some(c) ==> c.rust_files_prefiltered + prefiltered
            <= usize::MAX,
    ensures
        final(recorder).counters() == match old(recorder).counters() {
            Some(c) => Some(
                PerfCounters {
                    rust_files_prefiltered: (c.rust_files_prefiltered + prefiltered) as usize,
                    ..c
                },
            ),
            None => None,
        },
{
    if let Some(s) = &mut recorder.state {
        s.counters.rust_files_prefiltered = s.counters.rust_files_prefiltered + prefiltered;
    }
}

/// Counts baseline scopes served from cache and computed afresh.
pub fn record_baseline_scopes(recorder: &mut PerfRecorder, hits: usize, computed: usize)
    requires
        old(recorder).counters() matches Some(c) ==> c.baseline_scope_hits + hits <= usize::MAX
            && c.baseline_scope_computed + computed <= usize::MAX,
    ensures
        final(recorder).counters() == match old(recorder).counters() {
            Some(c) => Some(
                PerfCounters {
                    baseline_scope_hits: (c.baseline_scope_hits + hits) as usize,
                    baseline_scope_computed: (c.baseline_scope_computed + computed) as usize,
                    ..c
                },
            ),
            None => None,
        },
{
    if let Some(s) = &mut recorder.state {
        s.counters.baseline_scope_hits = s.counters.baseline_scope_hits + hits;
        s.counters.baseline_scope_computed = s.counters.baseline_scope_computed + computed;
    }
}

/// Runs `f` with a fresh recorder and returns its result with the counters
/// it gathered.
pub fn capture<T, F: FnOnce(&mut PerfRecorder) -> T>(f: F) -> (r: (T, PerfCounters))
    requires
        forall|rec: &mut PerfRecorder|
            (*rec).counters() == Some(zero_counters()) ==> #[trigger] f.requires((rec,)),
    ensures
        exists|rec: &mut PerfRecorder|
            #![trigger f.ensures((rec,), r.0)]
            (*rec).counters() == Some(zero_counters()) && f.ensures((rec,), r.0) && r.1 == match (
            *final(rec)).counters() {
                Some(c) => PerfCounters { wall_time_us: r.1.wall_time_us, ..c },
                None => zero_counters(),
            },
{
    let mut recorder = PerfRecorder::begin();
    let rec = &mut recorder;
    let ghost before = *rec;
    assert(before.counters() == Some(zero_counters()));
    let result = f({ rec });
    proof {
        assert(exists|x: &mut PerfRecorder| f.ensures((x,), result) && *x == before && *final(x) == recorder);
        assert(before.counters() == Some(zero_counters()));
    }
    let ghost x = choose|x: &mut PerfRecorder| f.ensures((x,), result) && *x == before && *final(x) == recorder;
    let ghost gathered = recorder.counters();
    let counters = match recorder.finish() {
        Some(c) => c,
        None => PerfCounters {
            wall_time_us: 0,
            git_subprocesses: 0,
            rust_files_parsed: 0,
            rust_files_prefiltered: 0,
            rust_cache_hits: 0,
            baseline_scope_hits: 0,
            baseline_scope_computed: 0,
        },
    };
    assert(counters == match gathered {
        Some(c) => PerfCounters { wall_time_us: counters.wall_time_us, ..c },
        None => zero_counters(),
    });
    let r = (result, counters);
    assert((*x).counters() == Some(zero_counters()) && f.ensures((x,), r.0) && r.1 == match (
    *final(x)).counters() {
        Some(c) => PerfCounters { wall_time_us: r.1.wall_time_us, ..c },
        None => zero_counters(),
    });
    r
}

} // verus!
