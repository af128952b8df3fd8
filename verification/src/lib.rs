use vstd::prelude::*;

pub mod benchmarks;
pub mod lines;
pub mod mapping;
pub mod metrics;
pub mod names;
pub mod observations;
pub mod orchestrator;
pub mod stats;
pub mod stress_tests;
pub mod units;
pub mod wasm_binary_size;

verus! {

use crate::mapping::MetricMap;
use crate::observations::Observations;

/// Why one producer's measurement pass failed. Any of these is fatal to
/// that producer's pass: a wrong number silently recorded would corrupt
/// the series, so the pass fails loudly instead.
#[derive(PartialEq, Eq, Structural, Clone, Copy, Debug)]
pub enum MetricError {
    /// A duration carried a unit tag outside the closed tag set.
    UnknownUnit,
    /// A line recognized as a performance report could not be decomposed.
    MalformedReport,
    /// A reading or conversion does not fit the value range kept.
    ValueOutOfRange,
    /// An observation this producer needs was not gathered.
    MissingObservation,
}

/// A side file one producer declares for archiving: the label names the
/// per-revision subdirectory the file is copied into, the path points at
/// the file itself.
pub struct Artifact {
    pub label: Vec<u8>,
    pub path: Vec<u8>,
}

/// One producer of named metrics for a revision. A producer is provisioned
/// once, then measured once; the decisions are here, while running builds,
/// spawning workloads and sampling counters happen outside and hand their
/// outcomes in as plain values.
pub trait Metrics {
    /// Whether the pass goes ahead after provisioning: a producer whose
    /// provisioning failed is skipped entirely, so a missing workload
    /// never pollutes the series with partial data.
    spec fn prepare_spec(&self, built: bool) -> bool;

    /// Judges the provisioning outcome handed in.
    fn prepare(&self, built: bool) -> (r: bool)
        ensures
            r == self.prepare_spec(built),
    ;

    /// The labelled side files this producer declares for archiving.
    spec fn artifacts_spec(&self) -> Seq<(Seq<u8>, Seq<u8>)>;

    /// Declares the side files to archive.
    fn artifacts(&self) -> (r: Vec<Artifact>)
        ensures
            r@.map_values(|a: Artifact| (a.label@, a.path@)) == self.artifacts_spec(),
    ;

    /// The metric mapping this producer yields from given observations, or
    /// the error that fails its pass.
    spec fn collect_spec(&self, obs: &Observations) -> Result<Map<Seq<u8>, u64>, MetricError>;

    /// Reduces the observations of one measurement pass to named metrics.
    /// The result is a function of the producer and the observations
    /// alone, so collecting twice over the same observations yields the
    /// same mapping.
    fn collect(&self, obs: &Observations) -> (r: Result<MetricMap, MetricError>)
        ensures
            match r {
                Ok(m) => m.wf() && self.collect_spec(obs) == Ok::<Map<Seq<u8>, u64>, MetricError>(
                    m@,
                ),
                Err(e) => self.collect_spec(obs) == Err::<Map<Seq<u8>, u64>, MetricError>(e),
            },
    ;
}

/// Turns a metric name into a name safe to use as a file name: path-like
/// bytes (`:` and `/`) become `_`, and a name longer than 150 bytes is cut
/// down to its first 100 bytes, a `-`, and its last 50 bytes.
pub open spec fn file_safe_spec(name: Seq<u8>) -> Seq<u8> {
    let replaced = file_safe_all_replaced(name);
    if replaced.len() > 150 {
        replaced.subrange(0, 100) + seq!['-' as u8] + replaced.subrange(
            replaced.len() - 50,
            replaced.len() as int,
        )
    } else {
        replaced
    }
}

/// Metric names may repeat `:`-separated path segments; this rewrites one to
/// a form usable as a single file name, shortening very long names.
pub fn file_safe_metric_name(metric: &Vec<u8>) -> (r: Vec<u8>)
    ensures
        r@ == file_safe_spec(metric@),
{
    let mut replaced: Vec<u8> = Vec::new();
    let mut i: usize = 0;
    while i < metric.len()
        invariant
            i <= metric.len(),
            replaced@ == file_safe_all_replaced(metric@.subrange(0, i as int)),
        decreases metric.len() - i,
    {
        let b = metric[i];
        if b == ':' as u8 || b == '/' as u8 {
            replaced.push('_' as u8);
        } else {
            replaced.push(b);
        }
        i = i + 1;
        proof {
            assert(file_safe_all_replaced(metric@.subrange(0, i as int))
                =~= file_safe_all_replaced(metric@.subrange(0, i - 1 as int)).push(
                if metric@[i - 1] == ':' as u8 || metric@[i - 1] == '/' as u8 {
                    '_' as u8
                } else {
                    metric@[i - 1]
                },
            ));
        }
    }
    proof {
        assert(metric@.subrange(0, metric@.len() as int) =~= metric@);
    }
    if replaced.len() > 150 {
        let mut shortened: Vec<u8> = Vec::new();
        let mut i: usize = 0;
        while i < 100
            invariant
                i <= 100,
                replaced@.len() > 150,
                replaced@ == file_safe_all_replaced(metric@),
                shortened@ == replaced@.subrange(0, i as int),
            decreases 100 - i,
        {
            shortened.push(replaced[i]);
            i = i + 1;
            proof {
                assert(replaced@.subrange(0, i as int) =~= replaced@.subrange(
                    0,
                    i - 1 as int,
                ).push(replaced@[i - 1]));
            }
        }
        shortened.push('-' as u8);
        let mut i: usize = replaced.len() - 50;
        while i < replaced.len()
            invariant
                replaced@.len() - 50 <= i <= replaced@.len(),
                replaced@.len() > 150,
                replaced@ == file_safe_all_replaced(metric@),
                shortened@ == replaced@.subrange(0, 100) + seq!['-' as u8] + replaced@.subrange(
                    replaced@.len() - 50,
                    i as int,
                ),
            decreases replaced.len() - i,
        {
            shortened.push(replaced[i]);
            i = i + 1;
            proof {
                assert(replaced@.subrange(0, 100) + seq!['-' as u8] + replaced@.subrange(
                    replaced@.len() - 50,
                    i as int,
                ) =~= (replaced@.subrange(0, 100) + seq!['-' as u8] + replaced@.subrange(
                    replaced@.len() - 50,
                    i - 1 as int,
                )).push(replaced@[i - 1]));
            }
        }
        proof {
            assert(shortened@ =~= file_safe_spec(metric@));
        }
        shortened
    } else {
        replaced
    }
}

/// The replacement pass of `file_safe_spec`, before any shortening.
pub open spec fn file_safe_all_replaced(name: Seq<u8>) -> Seq<u8> {
    name.map_values(|b: u8| if b == ':' as u8 || b == '/' as u8 { '_' as u8 } else { b })
}

} // verus!

