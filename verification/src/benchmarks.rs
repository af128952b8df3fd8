use vstd::prelude::*;

verus! {

use crate::mapping::MetricMap;
use crate::names::{append_bytes, copied};
use crate::observations::Observations;
use crate::units::{normalize, normalized, parse_unit, unit_of_tag};
use crate::{Artifact, MetricError, Metrics};

/// One timing estimate of the benchmark suite: its point estimate and
/// confidence bounds, each scaled by a thousand, and the duration unit
/// tag they carry.
pub struct TimingReading {
    pub estimate: u64,
    pub lower_bound: u64,
    pub upper_bound: u64,
    pub unit: Vec<u8>,
}

/// One benchmark of the suite: its identifier and the timing estimates
/// reported for it; the slope estimate is only present for some
/// benchmarks.
pub struct BenchmarkReading {
    pub id: Vec<u8>,
    pub typical: TimingReading,
    pub mean: TimingReading,
    pub median: TimingReading,
    pub median_abs_dev: TimingReading,
    pub slope: Option<TimingReading>,
}

/// The micro-benchmark suite producer.
pub struct Benchmarks;

/// `benchmarks.`
pub open spec fn bench_prefix() -> Seq<u8> {
    seq![
        'b' as u8,
        'e' as u8,
        'n' as u8,
        'c' as u8,
        'h' as u8,
        'm' as u8,
        'a' as u8,
        'r' as u8,
        'k' as u8,
        's' as u8,
        '.' as u8,
    ]
}

/// `mean`
pub open spec fn word_mean() -> Seq<u8> {
    seq!['m' as u8, 'e' as u8, 'a' as u8, 'n' as u8]
}

/// `slope`
pub open spec fn word_slope() -> Seq<u8> {
    seq!['s' as u8, 'l' as u8, 'o' as u8, 'p' as u8, 'e' as u8]
}

/// `median`
pub open spec fn word_median() -> Seq<u8> {
    seq!['m' as u8, 'e' as u8, 'd' as u8, 'i' as u8, 'a' as u8, 'n' as u8]
}

/// `typical`
pub open spec fn word_typical() -> Seq<u8> {
    seq!['t' as u8, 'y' as u8, 'p' as u8, 'i' as u8, 'c' as u8, 'a' as u8, 'l' as u8]
}

/// `median_abs_dev`
pub open spec fn word_median_abs_dev() -> Seq<u8> {
    seq![
        'm' as u8,
        'e' as u8,
        'd' as u8,
        'i' as u8,
        'a' as u8,
        'n' as u8,
        '_' as u8,
        'a' as u8,
        'b' as u8,
        's' as u8,
        '_' as u8,
        'd' as u8,
        'e' as u8,
        'v' as u8,
    ]
}

/// `_lower`
pub open spec fn lower_suffix() -> Seq<u8> {
    seq!['_' as u8, 'l' as u8, 'o' as u8, 'w' as u8, 'e' as u8, 'r' as u8]
}

/// `_upper`
pub open spec fn upper_suffix() -> Seq<u8> {
    seq!['_' as u8, 'u' as u8, 'p' as u8, 'p' as u8, 'e' as u8, 'r' as u8]
}

/// The three keys one timing adds under its base name: the estimate, and
/// its lower and upper bounds, each normalized to scaled nanoseconds. An
/// unknown unit tag or a conversion out of range fails the pass.
pub open spec fn with_timing(m: Map<Seq<u8>, u64>, base: Seq<u8>, t: TimingReading) -> Result<
    Map<Seq<u8>, u64>,
    MetricError,
> {
    match unit_of_tag(t.unit@) {
        None => Err(MetricError::UnknownUnit),
        Some(u) => {
            if normalized(t.estimate as int, u) > u64::MAX {
                Err(MetricError::ValueOutOfRange)
            } else if normalized(t.lower_bound as int, u) > u64::MAX {
                Err(MetricError::ValueOutOfRange)
            } else if normalized(t.upper_bound as int, u) > u64::MAX {
                Err(MetricError::ValueOutOfRange)
            } else {
                Ok(
                    m.insert(base, normalized(t.estimate as int, u) as u64).insert(
                        base + lower_suffix(),
                        normalized(t.lower_bound as int, u) as u64,
                    ).insert(base + upper_suffix(), normalized(t.upper_bound as int, u) as u64),
                )
            }
        },
    }
}

/// The keys one benchmark adds: for each timing it reports, under
/// `benchmarks.<id>.<timing name>`, its three keys.
pub open spec fn with_benchmark(m: Map<Seq<u8>, u64>, b: BenchmarkReading) -> Result<
    Map<Seq<u8>, u64>,
    MetricError,
> {
    let base = bench_prefix() + b.id@ + seq!['.' as u8];
    match with_timing(m, base + word_mean(), b.mean) {
        Err(e) => Err(e),
        Ok(m1) => {
            let after_slope = match b.slope {
                None => Ok(m1),
                Some(t) => with_timing(m1, base + word_slope(), t),
            };
            match after_slope {
                Err(e) => Err(e),
                Ok(m2) => match with_timing(m2, base + word_median(), b.median) {
                    Err(e) => Err(e),
                    Ok(m3) => match with_timing(m3, base + word_typical(), b.typical) {
                        Err(e) => Err(e),
                        Ok(m4) => with_timing(
                            m4,
                            base + word_median_abs_dev(),
                            b.median_abs_dev,
                        ),
                    },
                },
            }
        },
    }
}

/// The mapping a list of benchmark readings yields, benchmark by
/// benchmark; the first failing timing fails the pass.
pub open spec fn benchmarks_result(list: Seq<BenchmarkReading>) -> Result<
    Map<Seq<u8>, u64>,
    MetricError,
>
    decreases list.len(),
{
    if list.len() == 0 {
        Ok(Map::empty())
    } else {
        match benchmarks_result(list.drop_last()) {
            Err(e) => Err(e),
            Ok(m) => with_benchmark(m, list.last()),
        }
    }
}

/// Adds one timing's three keys to the mapping.
fn add_timing(m: &mut MetricMap, base: &Vec<u8>, t: &TimingReading) -> (r: Result<
    (),
    MetricError,
>)
    requires
        old(m).wf(),
    ensures
        match r {
            Ok(()) => final(m).wf() && with_timing(old(m)@, base@, *t) == Ok::<
                Map<Seq<u8>, u64>,
                MetricError,
            >(final(m)@),
            Err(e) => with_timing(old(m)@, base@, *t) == Err::<Map<Seq<u8>, u64>, MetricError>(e),
        },
{
    let unit = match parse_unit(&t.unit) {
        Ok(u) => u,
        Err(e) => {
            return Err(e);
        },
    };
    let est = match normalize(t.estimate, unit) {
        Ok(v) => v,
        Err(e) => {
            return Err(e);
        },
    };
    let lo = match normalize(t.lower_bound, unit) {
        Ok(v) => v,
        Err(e) => {
            return Err(e);
        },
    };
    let hi = match normalize(t.upper_bound, unit) {
        Ok(v) => v,
        Err(e) => {
            return Err(e);
        },
    };
    let lower_sfx: [u8; 6] = ['_' as u8, 'l' as u8, 'o' as u8, 'w' as u8, 'e' as u8, 'r' as u8];
    let upper_sfx: [u8; 6] = ['_' as u8, 'u' as u8, 'p' as u8, 'p' as u8, 'e' as u8, 'r' as u8];
    proof {
        assert(lower_sfx@ =~= lower_suffix());
        assert(upper_sfx@ =~= upper_suffix());
    }
    m.insert(copied(base), est);
    let mut key = copied(base);
    append_bytes(&mut key, lower_sfx.as_slice());
    m.insert(key, lo);
    let mut key = copied(base);
    append_bytes(&mut key, upper_sfx.as_slice());
    m.insert(key, hi);
    Ok(())
}

/// Adds one benchmark's keys to the mapping.
fn add_benchmark(m: &mut MetricMap, b: &BenchmarkReading) -> (r: Result<(), MetricError>)
    requires
        old(m).wf(),
    ensures
        match r {
            Ok(()) => final(m).wf() && with_benchmark(old(m)@, *b) == Ok::<
                Map<Seq<u8>, u64>,
                MetricError,
            >(final(m)@),
            Err(e) => with_benchmark(old(m)@, *b) == Err::<Map<Seq<u8>, u64>, MetricError>(e),
        },
{
    let head: [u8; 11] = [
        'b' as u8,
        'e' as u8,
        'n' as u8,
        'c' as u8,
        'h' as u8,
        'm' as u8,
        'a' as u8,
        'r' as u8,
        'k' as u8,
        's' as u8,
        '.' as u8,
    ];
    let mut base: Vec<u8> = Vec::new();
    append_bytes(&mut base, head.as_slice());
    append_bytes(&mut base, b.id.as_slice());
    let dot: [u8; 1] = ['.' as u8];
    append_bytes(&mut base, dot.as_slice());
    proof {
        assert(head@ =~= bench_prefix());
        assert(base@ =~= bench_prefix() + b.id@ + seq!['.' as u8]);
    }
    let mean_word: [u8; 4] = ['m' as u8, 'e' as u8, 'a' as u8, 'n' as u8];
    let slope_word: [u8; 5] = ['s' as u8, 'l' as u8, 'o' as u8, 'p' as u8, 'e' as u8];
    let median_word: [u8; 6] = ['m' as u8, 'e' as u8, 'd' as u8, 'i' as u8, 'a' as u8, 'n' as u8];
    let typical_word: [u8; 7] = [
        't' as u8,
        'y' as u8,
        'p' as u8,
        'i' as u8,
        'c' as u8,
        'a' as u8,
        'l' as u8,
    ];
    let mad_word: [u8; 14] = [
        'm' as u8,
        'e' as u8,
        'd' as u8,
        'i' as u8,
        'a' as u8,
        'n' as u8,
        '_' as u8,
        'a' as u8,
        'b' as u8,
        's' as u8,
        '_' as u8,
        'd' as u8,
        'e' as u8,
        'v' as u8,
    ];
    proof {
        assert(mean_word@ =~= word_mean());
        assert(slope_word@ =~= word_slope());
        assert(median_word@ =~= word_median());
        assert(typical_word@ =~= word_typical());
        assert(mad_word@ =~= word_median_abs_dev());
    }
    let mut key = copied(&base);
    append_bytes(&mut key, mean_word.as_slice());
    match add_timing(m, &key, &b.mean) {
        Ok(()) => {},
        Err(e) => {
            return Err(e);
        },
    }
    match &b.slope {
        None => {},
        Some(t) => {
            let mut key = copied(&base);
            append_bytes(&mut key, slope_word.as_slice());
            match add_timing(m, &key, t) {
                Ok(()) => {},
                Err(e) => {
                    return Err(e);
                },
            }
        },
    }
    let mut key = copied(&base);
    append_bytes(&mut key, median_word.as_slice());
    match add_timing(m, &key, &b.median) {
        Ok(()) => {},
        Err(e) => {
            return Err(e);
        },
    }
    let mut key = copied(&base);
    append_bytes(&mut key, typical_word.as_slice());
    match add_timing(m, &key, &b.typical) {
        Ok(()) => {},
        Err(e) => {
            return Err(e);
        },
    }
    let mut key = copied(&base);
    append_bytes(&mut key, mad_word.as_slice());
    match add_timing(m, &key, &b.median_abs_dev) {
        Ok(()) => {},
        Err(e) => {
            return Err(e);
        },
    }
    Ok(())
}

/// `benchmarks.stats`: the archive label of the suite's results file.
pub open spec fn bench_artifact_label() -> Seq<u8> {
    seq![
        'b' as u8,
        'e' as u8,
        'n' as u8,
        'c' as u8,
        'h' as u8,
        'm' as u8,
        'a' as u8,
        'r' as u8,
        'k' as u8,
        's' as u8,
        '.' as u8,
        's' as u8,
        't' as u8,
        'a' as u8,
        't' as u8,
        's' as u8,
    ]
}

/// `benchmarks.json`: where the decoded suite results are kept.
pub open spec fn bench_artifact_path() -> Seq<u8> {
    seq![
        'b' as u8,
        'e' as u8,
        'n' as u8,
        'c' as u8,
        'h' as u8,
        'm' as u8,
        'a' as u8,
        'r' as u8,
        'k' as u8,
        's' as u8,
        '.' as u8,
        'j' as u8,
        's' as u8,
        'o' as u8,
        'n' as u8,
    ]
}

impl Metrics for Benchmarks {
    /// The suite pass goes ahead only when the suite run succeeded.
    open spec fn prepare_spec(&self, built: bool) -> bool {
        built
    }

    fn prepare(&self, built: bool) -> (r: bool) {
        built
    }

    /// One artifact: the suite's results file.
    open spec fn artifacts_spec(&self) -> Seq<(Seq<u8>, Seq<u8>)> {
        seq![(bench_artifact_label(), bench_artifact_path())]
    }

    fn artifacts(&self) -> (r: Vec<Artifact>) {
        let label_bytes: [u8; 16] = [
            'b' as u8,
            'e' as u8,
            'n' as u8,
            'c' as u8,
            'h' as u8,
            'm' as u8,
            'a' as u8,
            'r' as u8,
            'k' as u8,
            's' as u8,
            '.' as u8,
            's' as u8,
            't' as u8,
            'a' as u8,
            't' as u8,
            's' as u8,
        ];
        let path_bytes: [u8; 15] = [
            'b' as u8,
            'e' as u8,
            'n' as u8,
            'c' as u8,
            'h' as u8,
            'm' as u8,
            'a' as u8,
            'r' as u8,
            'k' as u8,
            's' as u8,
            '.' as u8,
            'j' as u8,
            's' as u8,
            'o' as u8,
            'n' as u8,
        ];
        let mut label: Vec<u8> = Vec::new();
        append_bytes(&mut label, label_bytes.as_slice());
        let mut path: Vec<u8> = Vec::new();
        append_bytes(&mut path, path_bytes.as_slice());
        proof {
            assert(label@ =~= bench_artifact_label());
            assert(path@ =~= bench_artifact_path());
        }
        let mut r: Vec<Artifact> = Vec::new();
        r.push(Artifact { label, path });
        proof {
            assert(r@.map_values(|a: Artifact| (a.label@, a.path@)) =~= self.artifacts_spec());
        }
        r
    }

    /// The suite's decoded timings are required; each becomes its keys.
    open spec fn collect_spec(&self, obs: &Observations) -> Result<Map<Seq<u8>, u64>, MetricError> {
        match obs.benchmark_readings {
            None => Err(MetricError::MissingObservation),
            Some(list) => benchmarks_result(list@),
        }
    }

    fn collect(&self, obs: &Observations) -> (r: Result<MetricMap, MetricError>) {
        match &obs.benchmark_readings {
            None => Err(MetricError::MissingObservation),
            Some(list) => {
                let ghost views = list@;
                let n = list.len();
                let mut m = MetricMap::new();
                let mut i: usize = 0;
                proof {
                    assert(views.subrange(0, 0) =~= Seq::<BenchmarkReading>::empty());
                }
                while i < n
                    invariant
                        i <= n,
                        n == views.len(),
                        views == list@,
                        obs.benchmark_readings == Some(*list),
                        m.wf(),
                        benchmarks_result(views.subrange(0, i as int)) == Ok::<
                            Map<Seq<u8>, u64>,
                            MetricError,
                        >(m@),
                    decreases n - i,
                {
                    proof {
                        assert(views.subrange(0, i + 1 as int).drop_last() =~= views.subrange(
                            0,
                            i as int,
                        ));
                        assert(views.subrange(0, i + 1 as int).last() == views[i as int]);
                    }
                    let ghost pre_m = m@;
                    match add_benchmark(&mut m, &list[i]) {
                        Ok(()) => {},
                        Err(e) => {
                            proof {
                                assert(with_benchmark(pre_m, views[i as int]) == Err::<
                                    Map<Seq<u8>, u64>,
                                    MetricError,
                                >(e));
                                assert(benchmarks_result(views.subrange(0, i + 1 as int)) == Err::<
                                    Map<Seq<u8>, u64>,
                                    MetricError,
                                >(e));
                                lemma_benchmarks_error_prefix(views, i + 1 as int, e);
                                assert(obs.benchmark_readings == Some(*list));
                            }
                            return Err(e);
                        },
                    }
                    i = i + 1;
                }
                proof {
                    assert(views.subrange(0, n as int) =~= views);
                }
                Ok(m)
            },
        }
    }
}

/// A failed benchmark fails the whole pass, from wherever it stands.
proof fn lemma_benchmarks_error_prefix(list: Seq<BenchmarkReading>, j: int, e: MetricError)
    requires
        0 <= j <= list.len(),
        benchmarks_result(list.subrange(0, j)) == Err::<Map<Seq<u8>, u64>, MetricError>(e),
    ensures
        benchmarks_result(list) == Err::<Map<Seq<u8>, u64>, MetricError>(e),
    decreases list.len() - j,
{
    if j == list.len() {
        assert(list.subrange(0, j) =~= list);
    } else {
        assert(list.subrange(0, j + 1).drop_last() =~= list.subrange(0, j));
        lemma_benchmarks_error_prefix(list, j + 1, e);
    }
}

} // verus!
