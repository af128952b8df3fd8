use vstd::prelude::*;

verus! {

use crate::mapping::MetricMap;
use crate::names::{append_bytes, copied};
use crate::observations::Observations;
use crate::{MetricError, Metrics};

/// The outcome of one producer's pass: whether its provisioning
/// succeeded, and the mapping its measurement yielded — `None` when the
/// producer was skipped or its pass failed.
pub struct ProducerRun {
    pub prepared: bool,
    pub collected: Option<MetricMap>,
}

impl ProducerRun {
    /// A held mapping is well formed.
    pub open spec fn wf(&self) -> bool {
        match self.collected {
            Some(m) => m.wf(),
            None => true,
        }
    }

    /// What this run adds to the revision's mapping: nothing unless it
    /// was prepared and its pass succeeded.
    pub open spec fn contribution(&self) -> Map<Seq<u8>, u64> {
        if self.prepared {
            match self.collected {
                Some(m) => m@,
                None => Map::empty(),
            }
        } else {
            Map::empty()
        }
    }
}

/// The union of all contributions in order: on a shared name, a later
/// producer's value overwrites an earlier one's.
pub open spec fn accumulated(runs: Seq<ProducerRun>) -> Map<Seq<u8>, u64>
    decreases runs.len(),
{
    if runs.len() == 0 {
        Map::empty()
    } else {
        accumulated(runs.drop_last()).union_prefer_right(runs.last().contribution())
    }
}

/// Folds the producer outcomes of one revision pass into one metric
/// mapping. A producer that was skipped, or whose pass failed, adds
/// nothing.
pub fn accumulate(runs: Vec<ProducerRun>) -> (r: MetricMap)
    requires
        forall|i: int| 0 <= i < runs@.len() ==> (#[trigger] runs@[i]).wf(),
    ensures
        r.wf(),
        r@ == accumulated(runs@),
{
    let ghost orig = runs@;
    let n_runs = runs.len();
    let mut rest = runs;
    let mut acc = MetricMap::new();
    let mut i: usize = 0;
    proof {
        assert(orig.subrange(0, 0) =~= Seq::<ProducerRun>::empty());
    }
    while rest.len() > 0
        invariant
            n_runs == orig.len(),
            i <= n_runs,
            i + rest@.len() == orig.len(),
            rest@ =~= orig.subrange(i as int, orig.len() as int),
            forall|k: int| 0 <= k < orig.len() ==> (#[trigger] orig[k]).wf(),
            acc.wf(),
            acc@ == accumulated(orig.subrange(0, i as int)),
        decreases rest@.len(),
    {
        let run = rest.remove(0);
        proof {
            assert(run == orig[i as int]);
            assert(rest@ =~= orig.subrange(i + 1 as int, orig.len() as int));
            assert(orig.subrange(0, i + 1 as int).drop_last() =~= orig.subrange(0, i as int));
            assert(orig.subrange(0, i + 1 as int).last() == orig[i as int]);
        }
        if run.prepared {
            match run.collected {
                Some(m) => {
                    acc.absorb(m);
                },
                None => {
                    proof {
                        assert(acc@.union_prefer_right(run.contribution()) =~= acc@);
                    }
                },
            }
        } else {
            proof {
                assert(acc@.union_prefer_right(run.contribution()) =~= acc@);
            }
        }
        i = i + 1;
    }
    proof {
        assert(orig.subrange(0, i as int) =~= orig);
    }
    acc
}

/// A producer that was not prepared, or whose pass yielded nothing,
/// contributes no name at all to the accumulated mapping: every
/// accumulated name comes from some prepared, successful run.
pub proof fn lemma_skipped_contributes_nothing(runs: Seq<ProducerRun>, name: Seq<u8>)
    requires
        accumulated(runs).contains_key(name),
    ensures
        exists|i: int|
            0 <= i < runs.len() && (#[trigger] runs[i]).prepared && runs[i].collected is Some
                && runs[i].collected->0@.contains_key(name),
    decreases runs.len(),
{
    let last = runs.last();
    if last.prepared && last.collected is Some && last.collected->0@.contains_key(name) {
        assert(runs[runs.len() - 1] == last);
    } else {
        assert(!last.contribution().contains_key(name));
        lemma_skipped_contributes_nothing(runs.drop_last(), name);
        let i = choose|i: int|
            0 <= i < runs.drop_last().len() && (#[trigger] runs.drop_last()[i]).prepared
                && runs.drop_last()[i].collected is Some
                && runs.drop_last()[i].collected->0@.contains_key(name);
        assert(runs[i] == runs.drop_last()[i]);
    }
}

/// Two passes over the same producer and the same observations yield the
/// same result: collection is a function of the producer and its
/// observations alone, so repeating a pass rewrites identical metrics.
pub proof fn lemma_collect_idempotent<M: Metrics>(
    producer: &M,
    obs: &Observations,
    m1: Map<Seq<u8>, u64>,
    m2: Map<Seq<u8>, u64>,
)
    requires
        producer.collect_spec(obs) == Ok::<Map<Seq<u8>, u64>, MetricError>(m1),
        producer.collect_spec(obs) == Ok::<Map<Seq<u8>, u64>, MetricError>(m2),
    ensures
        m1 == m2,
{
}

/// Identifiers of the two toolchains a collection ran under.
pub struct Rust {
    pub stable: Vec<u8>,
    pub nightly: Vec<u8>,
}

/// Identifiers of the machine a collection ran on.
pub struct Host {
    pub hostname: Vec<u8>,
    pub os_version: Vec<u8>,
}

/// The revision record: the per-revision bundle persisted after one
/// collection pass — its metric mapping, the revision id and timestamps
/// in milliseconds, and informational toolchain and host identifiers.
pub struct Stats {
    pub metrics: MetricMap,
    pub commit: Vec<u8>,
    pub timestamp: u128,
    pub commit_timestamp: u128,
    pub rust: Rust,
    pub host: Host,
}

impl Stats {
    /// Settles the record's final metric mapping against a prior record
    /// of the same revision: under merge, the prior mapping is kept and
    /// the new values win on shared names; otherwise the new mapping
    /// replaces the prior one entirely.
    pub fn finalized(self, prior: Option<MetricMap>, merge: bool) -> (r: Stats)
        requires
            self.metrics.wf(),
            prior matches Some(p) ==> p.wf(),
        ensures
            r.metrics.wf(),
            r.metrics@ == (match prior {
                Some(p) => if merge {
                    p@.union_prefer_right(self.metrics@)
                } else {
                    self.metrics@
                },
                None => self.metrics@,
            }),
            r.commit == self.commit,
            r.timestamp == self.timestamp,
            r.commit_timestamp == self.commit_timestamp,
            r.rust == self.rust,
            r.host == self.host,
    {
        match prior {
            Some(p) => {
                if merge {
                    let mut merged = p;
                    merged.absorb(self.metrics);
                    Stats {
                        metrics: merged,
                        commit: self.commit,
                        timestamp: self.timestamp,
                        commit_timestamp: self.commit_timestamp,
                        rust: self.rust,
                        host: self.host,
                    }
                } else {
                    Stats { ..self }
                }
            },
            None => Stats { ..self },
        }
    }
}

/// The directory one revision's results live in: the output root, two
/// shard levels from the revision id's first two bytes, then the full id.
pub open spec fn result_dir_spec(out: Seq<u8>, commit: Seq<u8>) -> Seq<u8>
    recommends
        commit.len() >= 2,
{
    out + seq!['/' as u8] + seq![commit[0]] + seq!['/' as u8] + seq![commit[1]] + seq![
        '/' as u8,
    ] + commit
}

/// Builds the directory path one revision's results live in.
pub fn result_dir(out: &Vec<u8>, commit: &Vec<u8>) -> (r: Vec<u8>)
    requires
        commit@.len() >= 2,
    ensures
        r@ == result_dir_spec(out@, commit@),
{
    let sep: [u8; 1] = ['/' as u8];
    let mut r = copied(out);
    append_bytes(&mut r, sep.as_slice());
    let shard0: [u8; 1] = [commit[0]];
    append_bytes(&mut r, shard0.as_slice());
    append_bytes(&mut r, sep.as_slice());
    let shard1: [u8; 1] = [commit[1]];
    append_bytes(&mut r, shard1.as_slice());
    append_bytes(&mut r, sep.as_slice());
    append_bytes(&mut r, commit.as_slice());
    proof {
        assert(shard0@ =~= seq![commit@[0]]);
        assert(shard1@ =~= seq![commit@[1]]);
        assert(r@ =~= result_dir_spec(out@, commit@));
    }
    r
}

/// `stats.json`: the record file name inside a revision's directory.
pub open spec fn record_file_name() -> Seq<u8> {
    seq![
        's' as u8,
        't' as u8,
        'a' as u8,
        't' as u8,
        's' as u8,
        '.' as u8,
        'j' as u8,
        's' as u8,
        'o' as u8,
        'n' as u8,
    ]
}

/// Builds the path of the record file inside a revision's directory.
pub fn record_file_path(dir: &Vec<u8>) -> (r: Vec<u8>)
    ensures
        r@ == dir@ + seq!['/' as u8] + record_file_name(),
{
    let tail: [u8; 11] = [
        '/' as u8,
        's' as u8,
        't' as u8,
        'a' as u8,
        't' as u8,
        's' as u8,
        '.' as u8,
        'j' as u8,
        's' as u8,
        'o' as u8,
        'n' as u8,
    ];
    let mut r = copied(dir);
    append_bytes(&mut r, tail.as_slice());
    proof {
        assert(r@ =~= dir@ + seq!['/' as u8] + record_file_name());
    }
    r
}

/// The directory one labelled artifact is archived into: the revision's
/// directory, then the label.
pub fn artifact_dir(dir: &Vec<u8>, label: &Vec<u8>) -> (r: Vec<u8>)
    ensures
        r@ == dir@ + seq!['/' as u8] + label@,
{
    let sep: [u8; 1] = ['/' as u8];
    let mut r = copied(dir);
    append_bytes(&mut r, sep.as_slice());
    append_bytes(&mut r, label.as_slice());
    proof {
        assert(r@ =~= dir@ + seq!['/' as u8] + label@);
    }
    r
}

} // verus!
