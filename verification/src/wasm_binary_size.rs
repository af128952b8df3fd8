use vstd::prelude::*;

verus! {

use crate::mapping::MetricMap;
use crate::names::append_bytes;
use crate::observations::Observations;
use crate::stress_tests::{done_name, done_path};
use crate::{Artifact, MetricError, Metrics};

/// Measures the size of one example built for the web target, before and
/// after size optimization.
pub struct WasmBinarySize {
    pub example_name: Vec<u8>,
}

/// `breakout`: the example measured when none is named.
pub open spec fn default_example() -> Seq<u8> {
    seq![
        'b' as u8,
        'r' as u8,
        'e' as u8,
        'a' as u8,
        'k' as u8,
        'o' as u8,
        'u' as u8,
        't' as u8,
    ]
}

impl WasmBinarySize {
    /// A size probe on the named example; an empty name means the default
    /// example.
    pub fn on(example_name: Vec<u8>) -> (r: WasmBinarySize)
        ensures
            r.example_name@ == if example_name@.len() == 0 {
                default_example()
            } else {
                example_name@
            },
    {
        if example_name.len() == 0 {
            let name_bytes: [u8; 8] = [
                'b' as u8,
                'r' as u8,
                'e' as u8,
                'a' as u8,
                'k' as u8,
                'o' as u8,
                'u' as u8,
                't' as u8,
            ];
            let mut name: Vec<u8> = Vec::new();
            append_bytes(&mut name, name_bytes.as_slice());
            proof {
                assert(name@ =~= default_example());
            }
            WasmBinarySize { example_name: name }
        } else {
            WasmBinarySize { example_name }
        }
    }
}

/// `wasm32-unknown-unknown.size`
pub open spec fn wasm_size_key() -> Seq<u8> {
    wasm_target_name() + seq!['.' as u8, 's' as u8, 'i' as u8, 'z' as u8, 'e' as u8]
}

/// `wasm32-unknown-unknown.optimized.size`
pub open spec fn wasm_optimized_size_key() -> Seq<u8> {
    wasm_target_name() + seq![
        '.' as u8,
        'o' as u8,
        'p' as u8,
        't' as u8,
        'i' as u8,
        'm' as u8,
        'i' as u8,
        'z' as u8,
        'e' as u8,
        'd' as u8,
        '.' as u8,
        's' as u8,
        'i' as u8,
        'z' as u8,
        'e' as u8,
    ]
}

/// `wasm32-unknown-unknown`
pub open spec fn wasm_target_name() -> Seq<u8> {
    seq![
        'w' as u8,
        'a' as u8,
        's' as u8,
        'm' as u8,
        '3' as u8,
        '2' as u8,
        '-' as u8,
        'u' as u8,
        'n' as u8,
        'k' as u8,
        'n' as u8,
        'o' as u8,
        'w' as u8,
        'n' as u8,
        '-' as u8,
        'u' as u8,
        'n' as u8,
        'k' as u8,
        'n' as u8,
        'o' as u8,
        'w' as u8,
        'n' as u8,
    ]
}

/// `wasm32-unknown-unknown-size.stats`: the archive label of this probe.
pub open spec fn wasm_artifact_label() -> Seq<u8> {
    wasm_target_name() + seq![
        '-' as u8,
        's' as u8,
        'i' as u8,
        'z' as u8,
        'e' as u8,
        '.' as u8,
        's' as u8,
        't' as u8,
        'a' as u8,
        't' as u8,
        's' as u8,
    ]
}

/// Builds the target name bytes.
fn wasm_target_bytes() -> (r: Vec<u8>)
    ensures
        r@ == wasm_target_name(),
{
    let bytes: [u8; 22] = [
        'w' as u8,
        'a' as u8,
        's' as u8,
        'm' as u8,
        '3' as u8,
        '2' as u8,
        '-' as u8,
        'u' as u8,
        'n' as u8,
        'k' as u8,
        'n' as u8,
        'o' as u8,
        'w' as u8,
        'n' as u8,
        '-' as u8,
        'u' as u8,
        'n' as u8,
        'k' as u8,
        'n' as u8,
        'o' as u8,
        'w' as u8,
        'n' as u8,
    ];
    let mut r: Vec<u8> = Vec::new();
    append_bytes(&mut r, bytes.as_slice());
    proof {
        assert(r@ =~= wasm_target_name());
    }
    r
}

impl Metrics for WasmBinarySize {
    /// The probe goes ahead only when the example built for the target.
    open spec fn prepare_spec(&self, built: bool) -> bool {
        built
    }

    fn prepare(&self, built: bool) -> (r: bool) {
        built
    }

    /// One artifact, labelled for this probe.
    open spec fn artifacts_spec(&self) -> Seq<(Seq<u8>, Seq<u8>)> {
        seq![(wasm_artifact_label(), done_name())]
    }

    fn artifacts(&self) -> (r: Vec<Artifact>) {
        let mut label = wasm_target_bytes();
        let tail: [u8; 11] = [
            '-' as u8,
            's' as u8,
            'i' as u8,
            'z' as u8,
            'e' as u8,
            '.' as u8,
            's' as u8,
            't' as u8,
            'a' as u8,
            't' as u8,
            's' as u8,
        ];
        append_bytes(&mut label, tail.as_slice());
        proof {
            assert(label@ =~= wasm_artifact_label());
        }
        let path = done_path();
        let mut r: Vec<Artifact> = Vec::new();
        r.push(Artifact { label, path });
        proof {
            assert(r@.map_values(|a: Artifact| (a.label@, a.path@)) =~= self.artifacts_spec());
        }
        r
    }

    /// The two sizes are required observations; each becomes one key.
    open spec fn collect_spec(&self, obs: &Observations) -> Result<Map<Seq<u8>, u64>, MetricError> {
        match obs.wasm_sizes {
            None => Err(MetricError::MissingObservation),
            Some((size, optimized_size)) => Ok(
                Map::empty().insert(wasm_size_key(), size).insert(
                    wasm_optimized_size_key(),
                    optimized_size,
                ),
            ),
        }
    }

    fn collect(&self, obs: &Observations) -> (r: Result<MetricMap, MetricError>) {
        match &obs.wasm_sizes {
            None => Err(MetricError::MissingObservation),
            Some(sizes) => {
                let size = sizes.0;
                let optimized_size = sizes.1;
                let mut key = wasm_target_bytes();
                let size_tail: [u8; 5] = ['.' as u8, 's' as u8, 'i' as u8, 'z' as u8, 'e' as u8];
                append_bytes(&mut key, size_tail.as_slice());
                proof {
                    assert(key@ =~= wasm_size_key());
                }
                let mut m = MetricMap::new();
                m.insert(key, size);
                let mut key = wasm_target_bytes();
                let opt_tail: [u8; 15] = [
                    '.' as u8,
                    'o' as u8,
                    'p' as u8,
                    't' as u8,
                    'i' as u8,
                    'm' as u8,
                    'i' as u8,
                    'z' as u8,
                    'e' as u8,
                    'd' as u8,
                    '.' as u8,
                    's' as u8,
                    'i' as u8,
                    'z' as u8,
                    'e' as u8,
                ];
                append_bytes(&mut key, opt_tail.as_slice());
                proof {
                    assert(key@ =~= wasm_optimized_size_key());
                }
                m.insert(key, optimized_size);
                Ok(m)
            },
        }
    }
}

} // verus!
