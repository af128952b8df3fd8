use twitcher::benchmarks::{BenchmarkReading, Benchmarks, TimingReading};
use twitcher::file_safe_metric_name;
use twitcher::metrics::llvm_lines::LlvmLines;
use twitcher::observations::{GpuReading, Observations, WorkloadRun};
use twitcher::stress_tests::{parse_parameters, StressTest};
use twitcher::wasm_binary_size::WasmBinarySize;
use twitcher::{MetricError, Metrics};

fn b(s: &str) -> Vec<u8> {
    s.as_bytes().to_vec()
}

fn bevymark() -> StressTest {
    StressTest::on(
        b("bevymark"),
        vec![
            (b("waves"), Some(b("60"))),
            (b("benchmark"), None),
        ],
        10000,
    )
}

fn scripted_run() -> Observations {
    let mut obs = Observations::empty();
    obs.workload = Some(WorkloadRun {
        output: b("INFO diagnostic: fps : 10 (avg 10)\nINFO diagnostic: fps : 20 (avg 15)\nINFO diagnostic: fps : 30 (avg 20)\nINFO no report here\n"),
        elapsed_ms: 1234,
    });
    obs.cpu_samples = vec![99999, 88888, 50000, 60000, 70000];
    obs
}

#[test]
fn scenario_prefix_folds_the_parameters() {
    let t = bevymark();
    assert_eq!(
        t.metric_prefix(),
        b("stress-test-fps.bevymark.params-waves-60-benchmark")
    );
}

#[test]
fn workload_arguments_are_flattened() {
    let t = bevymark();
    let args = t.workload_args();
    assert_eq!(args, vec![b("--waves"), b("60"), b("--benchmark")]);
}

#[test]
fn configuration_artifact_bounds_the_run() {
    let t = StressTest::on(b("many_foxes"), vec![], 15000);
    assert_eq!(t.config_content(), b("(events: [(15000, AppExit)])"));
}

#[test]
fn scripted_workload_yields_scaled_statistics() {
    let t = bevymark();
    let obs = scripted_run();
    let m = t.collect(&obs).unwrap();
    let p = "stress-test-fps.bevymark.params-waves-60-benchmark";
    assert_eq!(m.get(&b(&format!("{p}.mean"))), Some(20000));
    assert_eq!(m.get(&b(&format!("{p}.min"))), Some(10000));
    assert_eq!(m.get(&b(&format!("{p}.max"))), Some(30000));
    assert_eq!(m.get(&b(&format!("{p}.median"))), Some(20000));
    assert_eq!(m.get(&b(&format!("{p}.duration"))), Some(1234));
    assert_eq!(m.get(&b(&format!("{p}.frames"))), Some(10000));
    // warm-up readings 99999 and 88888 are discarded
    assert_eq!(m.get(&b(&format!("{p}.cpu_usage.mean"))), Some(60000));
    assert_eq!(m.get(&b(&format!("{p}.cpu_usage.min"))), Some(50000));
    assert_eq!(m.get(&b(&format!("{p}.cpu_usage.max"))), Some(70000));
}

#[test]
fn absent_subsystem_leaves_no_keys() {
    let t = bevymark();
    let obs = scripted_run();
    let m = t.collect(&obs).unwrap();
    let p = "stress-test-fps.bevymark.params-waves-60-benchmark";
    // no accelerator readings were published: the keys are absent, not zero
    assert_eq!(m.get(&b(&format!("{p}.gpu_usage.mean"))), None);
    assert_eq!(m.get(&b(&format!("{p}.gpu_memory.mean"))), None);
    // 5 rate keys + 5 processor keys + duration + frames
    assert_eq!(m.len(), 12);
}

#[test]
fn collecting_twice_yields_identical_metrics() {
    let t = bevymark();
    let obs = scripted_run();
    let m1 = t.collect(&obs).unwrap();
    let m2 = t.collect(&obs).unwrap();
    assert_eq!(m1.len(), m2.len());
    let mut i = 0;
    while i < m1.len() {
        let (name, value) = m1.entry_at(i);
        assert_eq!(m2.get(name), Some(value));
        i += 1;
    }
}

#[test]
fn missing_workload_yields_an_empty_mapping() {
    let t = bevymark();
    let mut obs = Observations::empty();
    obs.cpu_samples = vec![1, 2, 3];
    let m = t.collect(&obs).unwrap();
    assert_eq!(m.len(), 0);
}

#[test]
fn accelerator_readings_roll_up_under_their_suffixes() {
    let t = StressTest::on(b("many_cubes"), vec![], 5000);
    let mut obs = scripted_run();
    obs.gpu_samples = vec![
        GpuReading { sm: 0, mem: 0 },
        GpuReading { sm: 1, mem: 1 },
        GpuReading { sm: 40000, mem: 70000 },
        GpuReading { sm: 60000, mem: 90000 },
    ];
    let m = t.collect(&obs).unwrap();
    let p = "stress-test-fps.many_cubes.params";
    assert_eq!(m.get(&b(&format!("{p}.gpu_usage.mean"))), Some(50000));
    assert_eq!(m.get(&b(&format!("{p}.gpu_memory.mean"))), Some(80000));
    assert_eq!(m.get(&b(&format!("{p}.gpu_usage.min"))), Some(40000));
    assert_eq!(m.get(&b(&format!("{p}.gpu_memory.max"))), Some(90000));
}

#[test]
fn malformed_report_fails_the_pass() {
    let t = bevymark();
    let mut obs = Observations::empty();
    obs.workload = Some(WorkloadRun {
        output: b("fps : broken (avg 1)\n"),
        elapsed_ms: 1,
    });
    assert!(matches!(t.collect(&obs), Err(MetricError::MalformedReport)));
}

#[test]
fn oversized_reading_fails_the_pass() {
    let t = bevymark();
    let mut obs = scripted_run();
    obs.cpu_samples = vec![0, 0, u64::MAX];
    assert!(matches!(t.collect(&obs), Err(MetricError::ValueOutOfRange)));
}

#[test]
fn parameter_strings_pair_flags_and_values() {
    let parsed = parse_parameters(&b("waves 60 benchmark "));
    assert_eq!(
        parsed,
        vec![
            (b("waves"), Some(b("60"))),
            (b("benchmark"), None),
        ]
    );
}

#[test]
fn unpaired_trailing_word_is_dropped() {
    assert_eq!(parse_parameters(&b("")), Vec::new());
    assert_eq!(parse_parameters(&b("alone")), Vec::new());
    let parsed = parse_parameters(&b("mode sprite extra"));
    assert_eq!(parsed, vec![(b("mode"), Some(b("sprite")))]);
}

#[test]
fn stress_prepare_follows_the_build() {
    let t = bevymark();
    assert!(t.prepare(true));
    assert!(!t.prepare(false));
}

#[test]
fn stress_artifact_is_labelled_with_the_prefix() {
    let t = bevymark();
    let artifacts = t.artifacts();
    assert_eq!(artifacts.len(), 1);
    assert_eq!(
        artifacts[0].label,
        b("stress-test-fps.bevymark.params-waves-60-benchmark")
    );
    assert_eq!(artifacts[0].path, b("done"));
}

#[test]
fn empty_example_name_means_the_default() {
    let w = WasmBinarySize::on(b(""));
    assert_eq!(w.example_name, b("breakout"));
    let w = WasmBinarySize::on(b("lighting"));
    assert_eq!(w.example_name, b("lighting"));
}

#[test]
fn wasm_sizes_become_two_keys() {
    let w = WasmBinarySize::on(b(""));
    let mut obs = Observations::empty();
    obs.wasm_sizes = Some((123456, 98765));
    let m = w.collect(&obs).unwrap();
    assert_eq!(m.len(), 2);
    assert_eq!(m.get(&b("wasm32-unknown-unknown.size")), Some(123456));
    assert_eq!(
        m.get(&b("wasm32-unknown-unknown.optimized.size")),
        Some(98765)
    );
}

#[test]
fn wasm_sizes_are_required() {
    let w = WasmBinarySize::on(b(""));
    let obs = Observations::empty();
    assert!(matches!(w.collect(&obs), Err(MetricError::MissingObservation)));
}

#[test]
fn llvm_probe_needs_no_provisioning() {
    let l = LlvmLines;
    assert!(l.prepare(true));
    assert!(l.prepare(false));
}

#[test]
fn counted_lines_become_line_and_copy_keys() {
    let l = LlvmLines;
    let mut obs = Observations::empty();
    obs.tool_output = Some(b("  Lines          Copies       Function name\n  -----          ------       -------------\n    67 (0.1%, 82.8%)     9 (0.3%, 55.6%)  bevy_ecs::system::commands::Commands::queue\n   120 (0.2%, 83.0%)     4 (0.1%, 55.7%)  core::ptr::drop_in_place\n"));
    let m = l.collect(&obs).unwrap();
    assert_eq!(m.len(), 4);
    assert_eq!(
        m.get(&b("llvm-lines.bevy_ecs::system::commands::Commands::queue.lines")),
        Some(67)
    );
    assert_eq!(
        m.get(&b("llvm-lines.bevy_ecs::system::commands::Commands::queue.copies")),
        Some(9)
    );
    assert_eq!(m.get(&b("llvm-lines.core::ptr::drop_in_place.lines")), Some(120));
    assert_eq!(m.get(&b("llvm-lines.core::ptr::drop_in_place.copies")), Some(4));
}

#[test]
fn llvm_output_is_required() {
    let l = LlvmLines;
    let obs = Observations::empty();
    assert!(matches!(l.collect(&obs), Err(MetricError::MissingObservation)));
}

fn millis_timing(estimate: u64, lower: u64, upper: u64) -> TimingReading {
    TimingReading {
        estimate,
        lower_bound: lower,
        upper_bound: upper,
        unit: b("ms"),
    }
}

fn one_benchmark(id: &str, slope: Option<TimingReading>) -> BenchmarkReading {
    BenchmarkReading {
        id: b(id),
        typical: millis_timing(1500, 1400, 1600),
        mean: millis_timing(1500, 1400, 1600),
        median: millis_timing(1200, 1100, 1300),
        median_abs_dev: millis_timing(50, 40, 60),
        slope,
    }
}

#[test]
fn benchmark_timings_normalize_to_scaled_nanoseconds() {
    let p = Benchmarks;
    let mut obs = Observations::empty();
    obs.benchmark_readings = Some(vec![one_benchmark("alloc_bench", None)]);
    let m = p.collect(&obs).unwrap();
    assert_eq!(m.len(), 12);
    assert_eq!(
        m.get(&b("benchmarks.alloc_bench.mean")),
        Some(1_500_000_000)
    );
    assert_eq!(
        m.get(&b("benchmarks.alloc_bench.mean_lower")),
        Some(1_400_000_000)
    );
    assert_eq!(
        m.get(&b("benchmarks.alloc_bench.mean_upper")),
        Some(1_600_000_000)
    );
    assert_eq!(
        m.get(&b("benchmarks.alloc_bench.median")),
        Some(1_200_000_000)
    );
    assert_eq!(
        m.get(&b("benchmarks.alloc_bench.median_abs_dev")),
        Some(50_000_000)
    );
    assert_eq!(m.get(&b("benchmarks.alloc_bench.slope")), None);
}

#[test]
fn slope_appears_only_when_reported() {
    let p = Benchmarks;
    let mut obs = Observations::empty();
    obs.benchmark_readings = Some(vec![one_benchmark(
        "iter_bench",
        Some(millis_timing(700, 600, 800)),
    )]);
    let m = p.collect(&obs).unwrap();
    assert_eq!(m.len(), 15);
    assert_eq!(m.get(&b("benchmarks.iter_bench.slope")), Some(700_000_000));
    assert_eq!(
        m.get(&b("benchmarks.iter_bench.slope_lower")),
        Some(600_000_000)
    );
}

#[test]
fn unknown_unit_tag_is_a_schema_error() {
    let p = Benchmarks;
    let mut obs = Observations::empty();
    let mut bad = one_benchmark("broken_bench", None);
    bad.mean.unit = b("xs");
    obs.benchmark_readings = Some(vec![bad]);
    assert!(matches!(p.collect(&obs), Err(MetricError::UnknownUnit)));
}

#[test]
fn oversized_conversion_is_rejected() {
    let p = Benchmarks;
    let mut obs = Observations::empty();
    let mut bad = one_benchmark("huge_bench", None);
    bad.mean.unit = b("s");
    bad.mean.estimate = u64::MAX;
    obs.benchmark_readings = Some(vec![bad]);
    assert!(matches!(p.collect(&obs), Err(MetricError::ValueOutOfRange)));
}

#[test]
fn file_safe_names_replace_path_bytes() {
    assert_eq!(file_safe_metric_name(&b("a:b/c")), b("a_b_c"));
    assert_eq!(file_safe_metric_name(&b("plain.name")), b("plain.name"));
}

#[test]
fn file_safe_names_shorten_long_names() {
    let long = b(&"x".repeat(200));
    let short = file_safe_metric_name(&long);
    assert_eq!(short.len(), 151);
    assert_eq!(short[100], b'-');
    assert!(short.iter().all(|&c| c == b'x' || c == b'-'));
}
