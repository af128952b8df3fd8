use vstd::prelude::*;

verus! {

use crate::mapping::MetricMap;
use crate::observations::{warmed, warmed_gpu, warmed_samples, GpuReading, Observations};
use crate::stats::{add_rollup, check_samples, samples_ok, with_rollup};
use crate::lines::{extract_rates, extracted_rates};
use crate::names::{append_bytes, copied, dec_digits, dec_u64};
use crate::{Artifact, MetricError, Metrics};

/// One rendering stress scenario: which workload to run, its ordered
/// parameter list (a parameter without a value becomes a bare flag), and
/// the frame count after which the workload ends itself, which bounds the
/// run and makes runs comparable.
pub struct StressTest {
    pub stress_test: Vec<u8>,
    pub parameters: Vec<(Vec<u8>, Option<Vec<u8>>)>,
    pub nb_frames: u32,
}

impl StressTest {
    /// A stress scenario on the named workload.
    pub fn on(
        stress_test: Vec<u8>,
        parameters: Vec<(Vec<u8>, Option<Vec<u8>>)>,
        nb_frames: u32,
    ) -> (r: StressTest)
        ensures
            r.stress_test == stress_test,
            r.parameters == parameters,
            r.nb_frames == nb_frames,
    {
        StressTest { stress_test, parameters, nb_frames }
    }
}

/// `stress-test-fps.`
pub open spec fn stress_prefix() -> Seq<u8> {
    seq![
        's' as u8,
        't' as u8,
        'r' as u8,
        'e' as u8,
        's' as u8,
        's' as u8,
        '-' as u8,
        't' as u8,
        'e' as u8,
        's' as u8,
        't' as u8,
        '-' as u8,
        'f' as u8,
        'p' as u8,
        's' as u8,
        '.' as u8,
    ]
}

/// `params`
pub open spec fn params_word() -> Seq<u8> {
    seq!['p' as u8, 'a' as u8, 'r' as u8, 'a' as u8, 'm' as u8, 's' as u8]
}

/// The parameter list folded into one label: `params`, then `-flag` or
/// `-flag-value` for each parameter in order.
pub open spec fn params_label(params: Seq<(Vec<u8>, Option<Vec<u8>>)>) -> Seq<u8>
    decreases params.len(),
{
    if params.len() == 0 {
        params_word()
    } else {
        params_label(params.drop_last()) + seq!['-' as u8] + params.last().0@ + (
        match params.last().1 {
            Some(v) => seq!['-' as u8] + v@,
            None => Seq::empty(),
        })
    }
}

/// The flat argument list the parameters become: a valued parameter
/// becomes `--flag value`, a valueless one the bare flag `--flag`.
pub open spec fn args_of(params: Seq<(Vec<u8>, Option<Vec<u8>>)>) -> Seq<Seq<u8>>
    decreases params.len(),
{
    if params.len() == 0 {
        Seq::empty()
    } else {
        args_of(params.drop_last()) + (match params.last().1 {
            Some(v) => seq![
                seq!['-' as u8, '-' as u8] + params.last().0@,
                v@,
            ],
            None => seq![seq!['-' as u8, '-' as u8] + params.last().0@],
        })
    }
}

/// The content of the workload configuration artifact written before each
/// run: it instructs the workload to end itself after the frame count.
pub open spec fn config_spec(frames: int) -> Seq<u8> {
    config_head() + dec_digits(frames) + config_tail()
}

/// `(events: [(`
pub open spec fn config_head() -> Seq<u8> {
    seq![
        '(' as u8,
        'e' as u8,
        'v' as u8,
        'e' as u8,
        'n' as u8,
        't' as u8,
        's' as u8,
        ':' as u8,
        ' ' as u8,
        '[' as u8,
        '(' as u8,
    ]
}

/// `, AppExit)])`
pub open spec fn config_tail() -> Seq<u8> {
    seq![
        ',' as u8,
        ' ' as u8,
        'A' as u8,
        'p' as u8,
        'p' as u8,
        'E' as u8,
        'x' as u8,
        'i' as u8,
        't' as u8,
        ')' as u8,
        ']' as u8,
        ')' as u8,
    ]
}

/// `.cpu_usage`
pub open spec fn cpu_usage_suffix() -> Seq<u8> {
    seq![
        '.' as u8,
        'c' as u8,
        'p' as u8,
        'u' as u8,
        '_' as u8,
        'u' as u8,
        's' as u8,
        'a' as u8,
        'g' as u8,
        'e' as u8,
    ]
}

/// `.gpu_usage`
pub open spec fn gpu_usage_suffix() -> Seq<u8> {
    seq![
        '.' as u8,
        'g' as u8,
        'p' as u8,
        'u' as u8,
        '_' as u8,
        'u' as u8,
        's' as u8,
        'a' as u8,
        'g' as u8,
        'e' as u8,
    ]
}

/// `.gpu_memory`
pub open spec fn gpu_memory_suffix() -> Seq<u8> {
    seq![
        '.' as u8,
        'g' as u8,
        'p' as u8,
        'u' as u8,
        '_' as u8,
        'm' as u8,
        'e' as u8,
        'm' as u8,
        'o' as u8,
        'r' as u8,
        'y' as u8,
    ]
}

/// `.duration`
pub open spec fn duration_suffix() -> Seq<u8> {
    seq![
        '.' as u8,
        'd' as u8,
        'u' as u8,
        'r' as u8,
        'a' as u8,
        't' as u8,
        'i' as u8,
        'o' as u8,
        'n' as u8,
    ]
}

/// `.frames`
pub open spec fn frames_suffix() -> Seq<u8> {
    seq![
        '.' as u8,
        'f' as u8,
        'r' as u8,
        'a' as u8,
        'm' as u8,
        'e' as u8,
        's' as u8,
    ]
}

impl StressTest {
    /// The metric name prefix of this scenario:
    /// `stress-test-fps.<workload>.<params label>`.
    pub open spec fn key_prefix(&self) -> Seq<u8> {
        stress_prefix() + self.stress_test@ + seq!['.' as u8] + params_label(self.parameters@)
    }

    /// Builds the metric name prefix of this scenario.
    pub fn metric_prefix(&self) -> (r: Vec<u8>)
        ensures
            r@ == self.key_prefix(),
    {
        let head: [u8; 16] = [
            's' as u8,
            't' as u8,
            'r' as u8,
            'e' as u8,
            's' as u8,
            's' as u8,
            '-' as u8,
            't' as u8,
            'e' as u8,
            's' as u8,
            't' as u8,
            '-' as u8,
            'f' as u8,
            'p' as u8,
            's' as u8,
            '.' as u8,
        ];
        let mut r: Vec<u8> = Vec::new();
        append_bytes(&mut r, head.as_slice());
        proof {
            assert(r@ =~= stress_prefix());
        }
        append_bytes(&mut r, self.stress_test.as_slice());
        let dot: [u8; 1] = ['.' as u8];
        append_bytes(&mut r, dot.as_slice());
        let label = self.params_label_bytes();
        append_bytes(&mut r, label.as_slice());
        proof {
            assert(r@ =~= self.key_prefix());
        }
        r
    }

    /// Builds the parameter label of this scenario.
    pub fn params_label_bytes(&self) -> (r: Vec<u8>)
        ensures
            r@ == params_label(self.parameters@),
    {
        let word: [u8; 6] = ['p' as u8, 'a' as u8, 'r' as u8, 'a' as u8, 'm' as u8, 's' as u8];
        let mut r: Vec<u8> = Vec::new();
        append_bytes(&mut r, word.as_slice());
        proof {
            assert(r@ =~= params_word());
            assert(self.parameters@.subrange(0, 0) =~= Seq::<(Vec<u8>, Option<Vec<u8>>)>::empty());
            assert(r@ =~= params_label(self.parameters@.subrange(0, 0)));
        }
        let n = self.parameters.len();
        let mut i: usize = 0;
        while i < n
            invariant
                i <= n,
                n == self.parameters@.len(),
                r@ == params_label(self.parameters@.subrange(0, i as int)),
            decreases n - i,
        {
            let dash: [u8; 1] = ['-' as u8];
            append_bytes(&mut r, dash.as_slice());
            append_bytes(&mut r, self.parameters[i].0.as_slice());
            match &self.parameters[i].1 {
                Some(v) => {
                    append_bytes(&mut r, dash.as_slice());
                    append_bytes(&mut r, v.as_slice());
                },
                None => {},
            }
            proof {
                let pre = self.parameters@.subrange(0, i as int);
                let cur = self.parameters@.subrange(0, i + 1 as int);
                assert(cur.drop_last() =~= pre);
                assert(cur.last() == self.parameters@[i as int]);
                assert(r@ =~= params_label(cur));
            }
            i = i + 1;
        }
        proof {
            assert(self.parameters@.subrange(0, n as int) =~= self.parameters@);
        }
        r
    }

    /// Builds the flat argument list handed to the workload.
    pub fn workload_args(&self) -> (r: Vec<Vec<u8>>)
        ensures
            r@.map_values(|a: Vec<u8>| a@) == args_of(self.parameters@),
    {
        let mut r: Vec<Vec<u8>> = Vec::new();
        proof {
            assert(self.parameters@.subrange(0, 0) =~= Seq::<(Vec<u8>, Option<Vec<u8>>)>::empty());
            assert(r@.map_values(|a: Vec<u8>| a@) =~= args_of(self.parameters@.subrange(0, 0)));
        }
        let n = self.parameters.len();
        let mut i: usize = 0;
        while i < n
            invariant
                i <= n,
                n == self.parameters@.len(),
                r@.map_values(|a: Vec<u8>| a@) == args_of(self.parameters@.subrange(0, i as int)),
            decreases n - i,
        {
            let dashes: [u8; 2] = ['-' as u8, '-' as u8];
            let mut flag: Vec<u8> = Vec::new();
            append_bytes(&mut flag, dashes.as_slice());
            append_bytes(&mut flag, self.parameters[i].0.as_slice());
            proof {
                assert(flag@ =~= seq!['-' as u8, '-' as u8] + self.parameters@[i as int].0@);
            }
            let ghost pre = r@.map_values(|a: Vec<u8>| a@);
            r.push(flag);
            match &self.parameters[i].1 {
                Some(v) => {
                    let mut value: Vec<u8> = Vec::new();
                    append_bytes(&mut value, v.as_slice());
                    proof {
                        assert(value@ =~= self.parameters@[i as int].1->Some_0@);
                    }
                    r.push(value);
                },
                None => {},
            }
            proof {
                let pre_params = self.parameters@.subrange(0, i as int);
                let cur = self.parameters@.subrange(0, i + 1 as int);
                assert(cur.drop_last() =~= pre_params);
                assert(cur.last() == self.parameters@[i as int]);
                assert(r@.map_values(|a: Vec<u8>| a@) =~= args_of(cur));
            }
            i = i + 1;
        }
        proof {
            assert(self.parameters@.subrange(0, n as int) =~= self.parameters@);
        }
        r
    }

    /// Writes the configuration artifact content bounding the run at this
    /// scenario's frame count.
    pub fn config_content(&self) -> (r: Vec<u8>)
        ensures
            r@ == config_spec(self.nb_frames as int),
    {
        let head: [u8; 11] = [
            '(' as u8,
            'e' as u8,
            'v' as u8,
            'e' as u8,
            'n' as u8,
            't' as u8,
            's' as u8,
            ':' as u8,
            ' ' as u8,
            '[' as u8,
            '(' as u8,
        ];
        let tail: [u8; 12] = [
            ',' as u8,
            ' ' as u8,
            'A' as u8,
            'p' as u8,
            'p' as u8,
            'E' as u8,
            'x' as u8,
            'i' as u8,
            't' as u8,
            ')' as u8,
            ']' as u8,
            ')' as u8,
        ];
        let mut r: Vec<u8> = Vec::new();
        append_bytes(&mut r, head.as_slice());
        let digits = dec_u64(self.nb_frames as u64);
        append_bytes(&mut r, digits.as_slice());
        append_bytes(&mut r, tail.as_slice());
        proof {
            assert(head@ =~= config_head());
            assert(tail@ =~= config_tail());
            assert(r@ =~= config_spec(self.nb_frames as int));
        }
        r
    }
}

/// The metrics one stress run yields: the five rate statistics under the
/// scenario prefix, the processor and accelerator statistics under their
/// subsystem suffixes — each only when its reading sequence is non-empty —
/// and always the run duration and the frame bound. Readings out of the
/// accepted bounds fail the pass rather than recording a wrong number.
pub open spec fn stress_metrics(
    prefix: Seq<u8>,
    frames: u32,
    out: Seq<u8>,
    elapsed_ms: u64,
    cpu: Seq<u64>,
    gpu: Seq<GpuReading>,
) -> Result<Map<Seq<u8>, u64>, MetricError> {
    match extracted_rates(out) {
        Err(e) => Err(e),
        Ok(rates) => {
            let cpuw = warmed(cpu);
            let smw = warmed(gpu).map_values(|g: GpuReading| g.sm);
            let memw = warmed(gpu).map_values(|g: GpuReading| g.mem);
            if !samples_ok(rates) || !samples_ok(cpuw) || !samples_ok(smw) || !samples_ok(memw) {
                Err(MetricError::ValueOutOfRange)
            } else {
                Ok(
                    with_rollup(
                        with_rollup(
                            with_rollup(
                                with_rollup(Map::empty(), prefix, rates),
                                prefix + cpu_usage_suffix(),
                                cpuw,
                            ),
                            prefix + gpu_usage_suffix(),
                            smw,
                        ),
                        prefix + gpu_memory_suffix(),
                        memw,
                    ).insert(prefix + duration_suffix(), elapsed_ms).insert(
                        prefix + frames_suffix(),
                        frames as u64,
                    ),
                )
            }
        },
    }
}

impl Metrics for StressTest {
    /// A stress scenario goes ahead only when its workload built.
    open spec fn prepare_spec(&self, built: bool) -> bool {
        built
    }

    fn prepare(&self, built: bool) -> (r: bool) {
        built
    }

    /// One artifact, labelled with the scenario's metric name prefix.
    open spec fn artifacts_spec(&self) -> Seq<(Seq<u8>, Seq<u8>)> {
        seq![(self.key_prefix(), done_name())]
    }

    fn artifacts(&self) -> (r: Vec<Artifact>) {
        let label = self.metric_prefix();
        let path = done_path();
        let mut r: Vec<Artifact> = Vec::new();
        r.push(Artifact { label, path });
        proof {
            assert(r@.map_values(|a: Artifact| (a.label@, a.path@)) =~= self.artifacts_spec());
        }
        r
    }

    /// A missing workload yields an empty mapping — the scenario simply
    /// disappears from this revision; a run that happened is reduced to
    /// its statistics.
    open spec fn collect_spec(&self, obs: &Observations) -> Result<Map<Seq<u8>, u64>, MetricError> {
        match obs.workload {
            None => Ok(Map::empty()),
            Some(run) => stress_metrics(
                self.key_prefix(),
                self.nb_frames,
                run.output@,
                run.elapsed_ms,
                obs.cpu_samples@,
                obs.gpu_samples@,
            ),
        }
    }

    fn collect(&self, obs: &Observations) -> (r: Result<MetricMap, MetricError>) {
        match &obs.workload {
            None => Ok(MetricMap::new()),
            Some(run) => {
                let rates = match extract_rates(&run.output) {
                    Ok(v) => v,
                    Err(e) => {
                        return Err(e);
                    },
                };
                let cpuw = warmed_samples(&obs.cpu_samples);
                let (smw, memw) = warmed_gpu(&obs.gpu_samples);
                if !check_samples(&rates) || !check_samples(&cpuw) || !check_samples(&smw)
                    || !check_samples(&memw) {
                    return Err(MetricError::ValueOutOfRange);
                }
                let prefix = self.metric_prefix();
                let mut m = MetricMap::new();
                add_rollup(&mut m, &prefix, &rates);
                let cpu_sfx: [u8; 10] = [
                    '.' as u8,
                    'c' as u8,
                    'p' as u8,
                    'u' as u8,
                    '_' as u8,
                    'u' as u8,
                    's' as u8,
                    'a' as u8,
                    'g' as u8,
                    'e' as u8,
                ];
                let gpu_sfx: [u8; 10] = [
                    '.' as u8,
                    'g' as u8,
                    'p' as u8,
                    'u' as u8,
                    '_' as u8,
                    'u' as u8,
                    's' as u8,
                    'a' as u8,
                    'g' as u8,
                    'e' as u8,
                ];
                let mem_sfx: [u8; 11] = [
                    '.' as u8,
                    'g' as u8,
                    'p' as u8,
                    'u' as u8,
                    '_' as u8,
                    'm' as u8,
                    'e' as u8,
                    'm' as u8,
                    'o' as u8,
                    'r' as u8,
                    'y' as u8,
                ];
                let dur_sfx: [u8; 9] = [
                    '.' as u8,
                    'd' as u8,
                    'u' as u8,
                    'r' as u8,
                    'a' as u8,
                    't' as u8,
                    'i' as u8,
                    'o' as u8,
                    'n' as u8,
                ];
                let frm_sfx: [u8; 7] = [
                    '.' as u8,
                    'f' as u8,
                    'r' as u8,
                    'a' as u8,
                    'm' as u8,
                    'e' as u8,
                    's' as u8,
                ];
                proof {
                    assert(cpu_sfx@ =~= cpu_usage_suffix());
                    assert(gpu_sfx@ =~= gpu_usage_suffix());
                    assert(mem_sfx@ =~= gpu_memory_suffix());
                    assert(dur_sfx@ =~= duration_suffix());
                    assert(frm_sfx@ =~= frames_suffix());
                }
                let mut key = copied(&prefix);
                append_bytes(&mut key, cpu_sfx.as_slice());
                proof {
                    assert(key@ =~= self.key_prefix() + cpu_usage_suffix());
                }
                add_rollup(&mut m, &key, &cpuw);
                let mut key = copied(&prefix);
                append_bytes(&mut key, gpu_sfx.as_slice());
                proof {
                    assert(key@ =~= self.key_prefix() + gpu_usage_suffix());
                }
                add_rollup(&mut m, &key, &smw);
                let mut key = copied(&prefix);
                append_bytes(&mut key, mem_sfx.as_slice());
                proof {
                    assert(key@ =~= self.key_prefix() + gpu_memory_suffix());
                }
                add_rollup(&mut m, &key, &memw);
                let mut key = copied(&prefix);
                append_bytes(&mut key, dur_sfx.as_slice());
                proof {
                    assert(key@ =~= self.key_prefix() + duration_suffix());
                }
                m.insert(key, run.elapsed_ms);
                let mut key = copied(&prefix);
                append_bytes(&mut key, frm_sfx.as_slice());
                proof {
                    assert(key@ =~= self.key_prefix() + frames_suffix());
                }
                m.insert(key, self.nb_frames as u64);
                Ok(m)
            },
        }
    }
}

/// The words of a parameter string, split at single spaces; consecutive
/// or trailing spaces yield empty words, and the empty string is one
/// empty word.
pub open spec fn words_from(s: Seq<u8>, start: int) -> Seq<Seq<u8>>
    recommends
        0 <= start <= s.len(),
    decreases s.len() - start,
{
    if start < 0 || start > s.len() {
        Seq::empty()
    } else {
        let j = crate::lines::find_byte_from(s, ' ' as u8, start);
        if j >= s.len() {
            seq![s.subrange(start, s.len() as int)]
        } else {
            proof {
                crate::lines::lemma_find_byte_from(s, ' ' as u8, start);
            }
            seq![s.subrange(start, j)] + words_from(s, j + 1)
        }
    }
}

/// The scenario parameters a word list carries: words are taken two at a
/// time as flag and value, an empty value word means a bare flag, and a
/// trailing unpaired word is dropped.
pub open spec fn param_pairs(words: Seq<Seq<u8>>) -> Seq<(Seq<u8>, Option<Seq<u8>>)>
    decreases words.len(),
{
    if words.len() < 2 {
        Seq::empty()
    } else {
        seq![
            (words[0], if words[1].len() == 0 {
                Option::<Seq<u8>>::None
            } else {
                Some(words[1])
            }),
        ] + param_pairs(words.skip(2))
    }
}

/// The view of an executable parameter list.
pub open spec fn params_view(params: Seq<(Vec<u8>, Option<Vec<u8>>)>) -> Seq<
    (Seq<u8>, Option<Seq<u8>>),
> {
    params.map_values(
        |p: (Vec<u8>, Option<Vec<u8>>)|
            (p.0@, match p.1 {
                Some(v) => Some(v@),
                None => Option::<Seq<u8>>::None,
            }),
    )
}

/// Splits a parameter string into words at spaces.
fn split_words(s: &Vec<u8>) -> (r: Vec<Vec<u8>>)
    ensures
        r@.map_values(|w: Vec<u8>| w@) == words_from(s@, 0),
{
    let n = s.len();
    let mut r: Vec<Vec<u8>> = Vec::new();
    let mut start: usize = 0;
    let ghost target = words_from(s@, 0);
    proof {
        assert(r@.map_values(|w: Vec<u8>| w@) + words_from(s@, 0) =~= words_from(s@, 0));
    }
    loop
        invariant
            start <= n,
            n == s@.len(),
            target == words_from(s@, 0),
            target == r@.map_values(|w: Vec<u8>| w@) + words_from(s@, start as int),
        decreases n - start,
    {
        proof {
            crate::lines::lemma_find_byte_from(s@, ' ' as u8, start as int);
        }
        let mut j = start;
        while j < n && s[j] != ' ' as u8
            invariant
                start <= j <= n,
                n == s@.len(),
                forall|k: int| start <= k < j ==> s@[k] != ' ' as u8,
            decreases n - j,
        {
            j = j + 1;
        }
        proof {
            let f = crate::lines::find_byte_from(s@, ' ' as u8, start as int);
            if f < j {
                assert(s@[f] != ' ' as u8);
            }
            if j < f {
                assert(s@[j as int] == ' ' as u8);
            }
        }
        let word = crate::lines::sub_vec(s, start, j);
        let ghost pre = r@.map_values(|w: Vec<u8>| w@);
        r.push(word);
        proof {
            assert(r@.map_values(|w: Vec<u8>| w@) =~= pre.push(word@));
            assert(pre.push(word@) =~= pre + seq![word@]);
        }
        if j == n {
            proof {
                assert(words_from(s@, start as int) =~= seq![word@]);
                assert(target =~= r@.map_values(|w: Vec<u8>| w@));
            }
            return r;
        }
        proof {
            assert(words_from(s@, start as int) =~= seq![word@] + words_from(s@, j + 1 as int));
            assert(pre + words_from(s@, start as int) =~= (pre + seq![word@]) + words_from(
                s@,
                j + 1 as int,
            ));
        }
        start = j + 1;
    }
}

/// Reads a scenario parameter string: words at spaces, taken two at a
/// time as flag and value; an empty value word means a bare flag, and a
/// trailing unpaired word is dropped.
pub fn parse_parameters(s: &Vec<u8>) -> (r: Vec<(Vec<u8>, Option<Vec<u8>>)>)
    ensures
        params_view(r@) == param_pairs(words_from(s@, 0)),
{
    let words = split_words(s);
    let ghost wviews = words@.map_values(|w: Vec<u8>| w@);
    let n = words.len();
    let mut r: Vec<(Vec<u8>, Option<Vec<u8>>)> = Vec::new();
    let mut i: usize = 0;
    proof {
        assert(wviews.skip(0) =~= wviews);
        assert(params_view(r@) =~= Seq::<(Seq<u8>, Option<Seq<u8>>)>::empty());
        assert(params_view(r@) + param_pairs(wviews.skip(0)) =~= param_pairs(wviews));
    }
    while n - i >= 2
        invariant
            i <= n,
            n == words@.len(),
            wviews == words@.map_values(|w: Vec<u8>| w@),
            wviews == words_from(s@, 0),
            param_pairs(wviews) =~= params_view(r@) + param_pairs(wviews.skip(i as int)),
        decreases n - i,
    {
        let flag = crate::names::copied(&words[i]);
        let value = &words[i + 1];
        let ghost pre = params_view(r@);
        if value.len() == 0 {
            r.push((flag, None));
        } else {
            r.push((flag, Some(crate::names::copied(value))));
        }
        proof {
            assert(wviews.skip(i as int).len() >= 2);
            assert(wviews.skip(i as int)[0] == wviews[i as int]);
            assert(wviews.skip(i as int)[1] == wviews[i + 1]);
            assert(wviews.skip(i as int).skip(2) =~= wviews.skip(i + 2));
            assert(params_view(r@) =~= pre + seq![
                (wviews[i as int], if wviews[i + 1].len() == 0 {
                    Option::<Seq<u8>>::None
                } else {
                    Some(wviews[i + 1])
                }),
            ]);
            assert(params_view(r@) + param_pairs(wviews.skip(i + 2)) =~= param_pairs(wviews));
        }
        i = i + 2;
    }
    proof {
        assert(param_pairs(wviews.skip(i as int)) =~= Seq::<(Seq<u8>, Option<Seq<u8>>)>::empty());
        assert(params_view(r@) =~= param_pairs(wviews));
    }
    r
}

/// `done`: the placeholder file a scenario declares as its archive artifact.
pub open spec fn done_name() -> Seq<u8> {
    seq!['d' as u8, 'o' as u8, 'n' as u8, 'e' as u8]
}

/// Builds the `done` artifact path.
pub fn done_path() -> (r: Vec<u8>)
    ensures
        r@ == done_name(),
{
    let name: [u8; 4] = ['d' as u8, 'o' as u8, 'n' as u8, 'e' as u8];
    let mut r: Vec<u8> = Vec::new();
    append_bytes(&mut r, name.as_slice());
    proof {
        assert(r@ =~= done_name());
    }
    r
}

} // verus!
