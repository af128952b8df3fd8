use vstd::prelude::*;

verus! {

use crate::benchmarks::BenchmarkReading;

/// One finished workload run: its captured combined output and how long
/// the run took, in milliseconds.
pub struct WorkloadRun {
    pub output: Vec<u8>,
    pub elapsed_ms: u64,
}

/// One accelerator reading, scaled by a thousand: compute-unit and memory
/// utilization.
pub struct GpuReading {
    pub sm: u64,
    pub mem: u64,
}

/// Everything the outside world handed back during one measurement pass:
/// the workload run if one could be spawned, the resource readings the
/// samplers published, and the inspection results other producers need.
/// A `None` or an empty reading sequence means the source was absent, not
/// that it read zero.
pub struct Observations {
    /// The workload subprocess run; `None` when it could not be spawned.
    pub workload: Option<WorkloadRun>,
    /// Processor utilization readings, scaled by a thousand, in arrival
    /// order, warm-up readings still included.
    pub cpu_samples: Vec<u64>,
    /// Accelerator readings in arrival order, warm-up readings included.
    pub gpu_samples: Vec<GpuReading>,
    /// Captured output of an inspection tool run.
    pub tool_output: Option<Vec<u8>>,
    /// Decoded benchmark-suite timings.
    pub benchmark_readings: Option<Vec<BenchmarkReading>>,
    /// Sizes of the built artifact and of its optimized form, in bytes.
    pub wasm_sizes: Option<(u64, u64)>,
}

impl Observations {
    /// No observations at all.
    pub fn empty() -> (r: Observations)
        ensures
            r.workload is None,
            r.cpu_samples@ == Seq::<u64>::empty(),
            r.gpu_samples@ == Seq::<GpuReading>::empty(),
            r.tool_output is None,
            r.benchmark_readings is None,
            r.wasm_sizes is None,
    {
        Observations {
            workload: None,
            cpu_samples: Vec::new(),
            gpu_samples: Vec::new(),
            tool_output: None,
            benchmark_readings: None,
            wasm_sizes: None,
        }
    }
}

/// The readings left after discarding the leading warm-up readings: the
/// first readings reflect measurement startup, not steady state.
pub open spec fn warmed<T>(s: Seq<T>) -> Seq<T> {
    if s.len() <= WARMUP_READINGS as int {
        Seq::empty()
    } else {
        s.subrange(WARMUP_READINGS as int, s.len() as int)
    }
}

/// How many leading readings of every sampler stream are discarded as
/// warm-up noise.
pub const WARMUP_READINGS: usize = 2;

/// Drops the warm-up readings from a reading sequence.
pub fn warmed_samples(s: &Vec<u64>) -> (r: Vec<u64>)
    ensures
        r@ == warmed(s@),
{
    let mut r: Vec<u64> = Vec::new();
    let n = s.len();
    if n <= WARMUP_READINGS {
        proof {
            assert(r@ =~= warmed(s@));
        }
        return r;
    }
    let mut i: usize = WARMUP_READINGS;
    while i < n
        invariant
            WARMUP_READINGS <= i <= n,
            n == s@.len(),
            n > WARMUP_READINGS,
            r@ == s@.subrange(WARMUP_READINGS as int, i as int),
        decreases n - i,
    {
        r.push(s[i]);
        proof {
            assert(s@.subrange(WARMUP_READINGS as int, i + 1 as int) =~= s@.subrange(
                WARMUP_READINGS as int,
                i as int,
            ).push(s@[i as int]));
        }
        i = i + 1;
    }
    proof {
        assert(r@ =~= warmed(s@));
    }
    r
}

/// Splits the accelerator readings past warm-up into their compute-unit
/// and memory series.
pub fn warmed_gpu(s: &Vec<GpuReading>) -> (r: (Vec<u64>, Vec<u64>))
    ensures
        r.0@ == warmed(s@).map_values(|g: GpuReading| g.sm),
        r.1@ == warmed(s@).map_values(|g: GpuReading| g.mem),
{
    let mut sm: Vec<u64> = Vec::new();
    let mut mem: Vec<u64> = Vec::new();
    let n = s.len();
    if n <= WARMUP_READINGS {
        proof {
            assert(sm@ =~= warmed(s@).map_values(|g: GpuReading| g.sm));
            assert(mem@ =~= warmed(s@).map_values(|g: GpuReading| g.mem));
        }
        return (sm, mem);
    }
    let mut i: usize = WARMUP_READINGS;
    while i < n
        invariant
            WARMUP_READINGS <= i <= n,
            n == s@.len(),
            n > WARMUP_READINGS,
            sm@ == s@.subrange(WARMUP_READINGS as int, i as int).map_values(
                |g: GpuReading| g.sm,
            ),
            mem@ == s@.subrange(WARMUP_READINGS as int, i as int).map_values(
                |g: GpuReading| g.mem,
            ),
        decreases n - i,
    {
        sm.push(s[i].sm);
        mem.push(s[i].mem);
        proof {
            assert(s@.subrange(WARMUP_READINGS as int, i + 1 as int) =~= s@.subrange(
                WARMUP_READINGS as int,
                i as int,
            ).push(s@[i as int]));
            assert(s@.subrange(WARMUP_READINGS as int, i + 1 as int).map_values(
                |g: GpuReading| g.sm,
            ) =~= s@.subrange(WARMUP_READINGS as int, i as int).map_values(
                |g: GpuReading| g.sm,
            ).push(s@[i as int].sm));
            assert(s@.subrange(WARMUP_READINGS as int, i + 1 as int).map_values(
                |g: GpuReading| g.mem,
            ) =~= s@.subrange(WARMUP_READINGS as int, i as int).map_values(
                |g: GpuReading| g.mem,
            ).push(s@[i as int].mem));
        }
        i = i + 1;
    }
    proof {
        assert(sm@ =~= warmed(s@).map_values(|g: GpuReading| g.sm));
        assert(mem@ =~= warmed(s@).map_values(|g: GpuReading| g.mem));
    }
    (sm, mem)
}

} // verus!
