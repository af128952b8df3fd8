use vstd::prelude::*;

verus! {

use crate::lines::{
    digits_end,
    digits_val,
    is_digit,
    lemma_digits_end,
    scan_number,
    split_into_lines,
    split_lines,
    sub_vec,
};
use crate::mapping::MetricMap;
use crate::names::{append_bytes, copied};
use crate::observations::Observations;
use crate::stress_tests::{done_name, done_path};
use crate::{Artifact, MetricError, Metrics};

/// Reads the per-symbol intermediate-code size report of a compiled
/// example: each counted line of the tool's tabular output becomes two
/// keys, the generated line count and the instantiation count of one
/// symbol.
pub struct LlvmLines;

/// A byte the parenthesized share column may hold: digits, point,
/// percent, comma, space.
pub open spec fn is_share_byte(b: u8) -> bool {
    is_digit(b) || b == '.' as u8 || b == '%' as u8 || b == ',' as u8 || b == ' ' as u8
}

/// One past the unbroken run of share-column bytes starting at `from`.
pub open spec fn share_end(s: Seq<u8>, from: int) -> int
    recommends
        0 <= from <= s.len(),
    decreases s.len() - from,
{
    if from >= s.len() {
        s.len() as int
    } else if is_share_byte(s[from]) {
        share_end(s, from + 1)
    } else {
        from
    }
}

pub proof fn lemma_share_end(s: Seq<u8>, from: int)
    requires
        0 <= from <= s.len(),
    ensures
        from <= share_end(s, from) <= s.len(),
        share_end(s, from) < s.len() ==> !is_share_byte(s[share_end(s, from)]),
        forall|k: int| from <= k < share_end(s, from) ==> is_share_byte(s[k]),
    decreases s.len() - from,
{
    if from < s.len() && is_share_byte(s[from]) {
        lemma_share_end(s, from + 1);
    }
}

/// One past the unbroken run of spaces starting at `from`.
pub open spec fn space_end(s: Seq<u8>, from: int) -> int
    recommends
        0 <= from <= s.len(),
    decreases s.len() - from,
{
    if from >= s.len() {
        s.len() as int
    } else if s[from] == ' ' as u8 {
        space_end(s, from + 1)
    } else {
        from
    }
}

pub proof fn lemma_space_end(s: Seq<u8>, from: int)
    requires
        0 <= from <= s.len(),
    ensures
        from <= space_end(s, from) <= s.len(),
        space_end(s, from) < s.len() ==> s[space_end(s, from)] != ' ' as u8,
        forall|k: int| from <= k < space_end(s, from) ==> s[k] == ' ' as u8,
    decreases s.len() - from,
{
    if from < s.len() && s[from] == ' ' as u8 {
        lemma_space_end(s, from + 1);
    }
}

/// Reads one counted line of the tool's table: leading spaces, a count, a
/// parenthesized share column, more spaces, a second count and share
/// column, spaces, then the symbol name to the end of the line. A line of
/// any other shape is no counted line.
pub open spec fn llvm_parse(line: Seq<u8>) -> Option<(int, int, Seq<u8>)> {
    let i0 = space_end(line, 0);
    let d1 = digits_end(line, i0);
    let c1 = share_end(line, d1 + 2);
    let s2 = space_end(line, c1 + 1);
    let d2 = digits_end(line, s2);
    let c2 = share_end(line, d2 + 2);
    let s3 = space_end(line, c2 + 1);
    if i0 == 0 || d1 == i0 {
        None
    } else if d1 + 2 > line.len() || line[d1] != ' ' as u8 || line[d1 + 1] != '(' as u8 {
        None
    } else if c1 == d1 + 2 || c1 >= line.len() || line[c1] != ')' as u8 {
        None
    } else if s2 == c1 + 1 || d2 == s2 {
        None
    } else if d2 + 2 > line.len() || line[d2] != ' ' as u8 || line[d2 + 1] != '(' as u8 {
        None
    } else if c2 == d2 + 2 || c2 >= line.len() || line[c2] != ')' as u8 {
        None
    } else if s3 == c2 + 1 {
        None
    } else {
        Some(
            (digits_val(line, i0, d1), digits_val(line, s2, d2), line.subrange(
                s3,
                line.len() as int,
            )),
        )
    }
}

/// `llvm-lines.`
pub open spec fn llvm_prefix() -> Seq<u8> {
    seq![
        'l' as u8,
        'l' as u8,
        'v' as u8,
        'm' as u8,
        '-' as u8,
        'l' as u8,
        'i' as u8,
        'n' as u8,
        'e' as u8,
        's' as u8,
        '.' as u8,
    ]
}

/// `llvm-lines`: the archive label of this probe.
pub open spec fn llvm_label() -> Seq<u8> {
    seq![
        'l' as u8,
        'l' as u8,
        'v' as u8,
        'm' as u8,
        '-' as u8,
        'l' as u8,
        'i' as u8,
        'n' as u8,
        'e' as u8,
        's' as u8,
    ]
}

/// `.lines`
pub open spec fn lines_key_suffix() -> Seq<u8> {
    seq!['.' as u8, 'l' as u8, 'i' as u8, 'n' as u8, 'e' as u8, 's' as u8]
}

/// `.copies`
pub open spec fn copies_key_suffix() -> Seq<u8> {
    seq!['.' as u8, 'c' as u8, 'o' as u8, 'p' as u8, 'i' as u8, 'e' as u8, 's' as u8]
}

/// The mapping the tool's output lines yield: per counted line, under
/// `llvm-lines.<symbol>`, its line and instantiation counts. Other lines
/// are skipped; a count too large to keep fails the pass.
pub open spec fn llvm_result(lines: Seq<Seq<u8>>) -> Result<Map<Seq<u8>, u64>, MetricError>
    decreases lines.len(),
{
    if lines.len() == 0 {
        Ok(Map::empty())
    } else {
        match llvm_result(lines.drop_last()) {
            Err(e) => Err(e),
            Ok(m) => match llvm_parse(lines.last()) {
                None => Ok(m),
                Some((count, copies, name)) => {
                    if count > u64::MAX || copies > u64::MAX {
                        Err(MetricError::ValueOutOfRange)
                    } else {
                        Ok(
                            m.insert(
                                llvm_prefix() + name + lines_key_suffix(),
                                count as u64,
                            ).insert(llvm_prefix() + name + copies_key_suffix(), copies as u64),
                        )
                    }
                },
            },
        }
    }
}

/// Scans the run of share-column bytes starting at `from`.
fn scan_share(s: &Vec<u8>, from: usize) -> (r: usize)
    requires
        from <= s@.len(),
    ensures
        from <= r <= s@.len(),
        r == share_end(s@, from as int),
{
    proof {
        lemma_share_end(s@, from as int);
    }
    let n = s.len();
    let mut i = from;
    while i < n && (s[i] >= '0' as u8 && s[i] <= '9' as u8 || s[i] == '.' as u8 || s[i]
        == '%' as u8 || s[i] == ',' as u8 || s[i] == ' ' as u8)
        invariant
            from <= i <= n,
            n == s@.len(),
            forall|k: int| from <= k < i ==> is_share_byte(s@[k]),
        decreases n - i,
    {
        i = i + 1;
    }
    proof {
        let e = share_end(s@, from as int);
        if e < i {
            assert(!is_share_byte(s@[e]));
        }
        if i < e {
            assert(is_share_byte(s@[i as int]));
        }
    }
    i
}

/// Scans the run of spaces starting at `from`.
fn scan_spaces(s: &Vec<u8>, from: usize) -> (r: usize)
    requires
        from <= s@.len(),
    ensures
        from <= r <= s@.len(),
        r == space_end(s@, from as int),
{
    proof {
        lemma_space_end(s@, from as int);
    }
    let n = s.len();
    let mut i = from;
    while i < n && s[i] == ' ' as u8
        invariant
            from <= i <= n,
            n == s@.len(),
            forall|k: int| from <= k < i ==> s@[k] == ' ' as u8,
        decreases n - i,
    {
        i = i + 1;
    }
    proof {
        let e = space_end(s@, from as int);
        if e < i {
            assert(s@[e] != ' ' as u8);
        }
        if i < e {
            assert(s@[i as int] == ' ' as u8);
        }
    }
    i
}

/// Reads one line of the tool's table; a `None` part in the result means
/// the line is not counted, an `Err` a count too large to keep.
fn parse_table_line(line: &Vec<u8>) -> (r: Result<Option<(u64, u64, Vec<u8>)>, MetricError>)
    ensures
        match r {
            Ok(None) => llvm_parse(line@) is None,
            Ok(Some((count, copies, name))) => llvm_parse(line@) == Some(
                (count as int, copies as int, name@),
            ),
            Err(e) => e == MetricError::ValueOutOfRange && match llvm_parse(line@) {
                Some((c1, c2, _)) => c1 > u64::MAX || c2 > u64::MAX,
                None => false,
            },
        },
{
    let n = line.len();
    let i0 = scan_spaces(line, 0);
    if i0 == 0 {
        return Ok(None);
    }
    let (d1, count1, over1) = scan_number(line, i0, u64::MAX);
    if d1 == i0 {
        return Ok(None);
    }
    proof {
        lemma_digits_end(line@, i0 as int);
    }
    if n - d1 < 2 || line[d1] != ' ' as u8 || line[d1 + 1] != '(' as u8 {
        return Ok(None);
    }
    let c1 = scan_share(line, d1 + 2);
    if c1 == d1 + 2 || c1 >= n || line[c1] != ')' as u8 {
        return Ok(None);
    }
    let s2 = scan_spaces(line, c1 + 1);
    if s2 == c1 + 1 {
        return Ok(None);
    }
    let (d2, count2, over2) = scan_number(line, s2, u64::MAX);
    if d2 == s2 {
        return Ok(None);
    }
    proof {
        lemma_digits_end(line@, s2 as int);
    }
    if n - d2 < 2 || line[d2] != ' ' as u8 || line[d2 + 1] != '(' as u8 {
        return Ok(None);
    }
    let c2 = scan_share(line, d2 + 2);
    if c2 == d2 + 2 || c2 >= n || line[c2] != ')' as u8 {
        return Ok(None);
    }
    let s3 = scan_spaces(line, c2 + 1);
    if s3 == c2 + 1 {
        return Ok(None);
    }
    if over1 || over2 {
        return Err(MetricError::ValueOutOfRange);
    }
    let name = sub_vec(line, s3, n);
    Ok(Some((count1, count2, name)))
}

impl Metrics for LlvmLines {
    /// This probe needs no provisioning of its own.
    open spec fn prepare_spec(&self, built: bool) -> bool {
        true
    }

    fn prepare(&self, built: bool) -> (r: bool) {
        true
    }

    /// One artifact, labelled for this probe.
    open spec fn artifacts_spec(&self) -> Seq<(Seq<u8>, Seq<u8>)> {
        seq![(llvm_label(), done_name())]
    }

    fn artifacts(&self) -> (r: Vec<Artifact>) {
        let label_bytes: [u8; 10] = [
            'l' as u8,
            'l' as u8,
            'v' as u8,
            'm' as u8,
            '-' as u8,
            'l' as u8,
            'i' as u8,
            'n' as u8,
            'e' as u8,
            's' as u8,
        ];
        let mut label: Vec<u8> = Vec::new();
        append_bytes(&mut label, label_bytes.as_slice());
        proof {
            assert(label@ =~= llvm_label());
        }
        let path = done_path();
        let mut r: Vec<Artifact> = Vec::new();
        r.push(Artifact { label, path });
        proof {
            assert(r@.map_values(|a: Artifact| (a.label@, a.path@)) =~= self.artifacts_spec());
        }
        r
    }

    /// The tool's captured output is required; its counted lines become
    /// the mapping.
    open spec fn collect_spec(&self, obs: &Observations) -> Result<Map<Seq<u8>, u64>, MetricError> {
        match obs.tool_output {
            None => Err(MetricError::MissingObservation),
            Some(out) => llvm_result(split_lines(out@)),
        }
    }

    fn collect(&self, obs: &Observations) -> (r: Result<MetricMap, MetricError>) {
        match &obs.tool_output {
            None => Err(MetricError::MissingObservation),
            Some(out) => {
                let table = split_into_lines(out);
                let ghost views = table@.map_values(|l: Vec<u8>| l@);
                let n = table.len();
                let mut m = MetricMap::new();
                let mut i: usize = 0;
                proof {
                    assert(views.subrange(0, 0) =~= Seq::<Seq<u8>>::empty());
                }
                while i < n
                    invariant
                        i <= n,
                        n == table@.len(),
                        views == table@.map_values(|l: Vec<u8>| l@),
                        views == split_lines(out@),
                        obs.tool_output == Some(*out),
                        m.wf(),
                        llvm_result(views.subrange(0, i as int)) == Ok::<
                            Map<Seq<u8>, u64>,
                            MetricError,
                        >(m@),
                    decreases n - i,
                {
                    proof {
                        assert(views.subrange(0, i + 1 as int).drop_last() =~= views.subrange(
                            0,
                            i as int,
                        ));
                        assert(views.subrange(0, i + 1 as int).last() == views[i as int]);
                        assert(views[i as int] == table@[i as int]@);
                    }
                    let ghost pre_m = m@;
                    match parse_table_line(&table[i]) {
                        Ok(None) => {},
                        Ok(Some((count, copies, name))) => {
                            let prefix_bytes: [u8; 11] = [
                                'l' as u8,
                                'l' as u8,
                                'v' as u8,
                                'm' as u8,
                                '-' as u8,
                                'l' as u8,
                                'i' as u8,
                                'n' as u8,
                                'e' as u8,
                                's' as u8,
                                '.' as u8,
                            ];
                            let lines_sfx: [u8; 6] = [
                                '.' as u8,
                                'l' as u8,
                                'i' as u8,
                                'n' as u8,
                                'e' as u8,
                                's' as u8,
                            ];
                            let copies_sfx: [u8; 7] = [
                                '.' as u8,
                                'c' as u8,
                                'o' as u8,
                                'p' as u8,
                                'i' as u8,
                                'e' as u8,
                                's' as u8,
                            ];
                            proof {
                                assert(prefix_bytes@ =~= llvm_prefix());
                                assert(lines_sfx@ =~= lines_key_suffix());
                                assert(copies_sfx@ =~= copies_key_suffix());
                            }
                            let mut base: Vec<u8> = Vec::new();
                            append_bytes(&mut base, prefix_bytes.as_slice());
                            append_bytes(&mut base, name.as_slice());
                            let mut key = copied(&base);
                            append_bytes(&mut key, lines_sfx.as_slice());
                            proof {
                                assert(key@ =~= llvm_prefix() + name@ + lines_key_suffix());
                            }
                            m.insert(key, count);
                            let mut key = copied(&base);
                            append_bytes(&mut key, copies_sfx.as_slice());
                            proof {
                                assert(key@ =~= llvm_prefix() + name@ + copies_key_suffix());
                            }
                            m.insert(key, copies);
                        },
                        Err(e) => {
                            proof {
                                assert(llvm_result(views.subrange(0, i + 1 as int)) == Err::<
                                    Map<Seq<u8>, u64>,
                                    MetricError,
                                >(e));
                                lemma_llvm_error_prefix(views, i + 1 as int, e);
                                assert(obs.tool_output == Some(*out));
                            }
                            return Err(e);
                        },
                    }
                    i = i + 1;
                }
                proof {
                    assert(views.subrange(0, n as int) =~= views);
                }
                Ok(m)
            },
        }
    }
}

/// A count too large fails the whole pass, from wherever it stands.
proof fn lemma_llvm_error_prefix(lines: Seq<Seq<u8>>, j: int, e: MetricError)
    requires
        0 <= j <= lines.len(),
        llvm_result(lines.subrange(0, j)) == Err::<Map<Seq<u8>, u64>, MetricError>(e),
    ensures
        llvm_result(lines) == Err::<Map<Seq<u8>, u64>, MetricError>(e),
    decreases lines.len() - j,
{
    if j == lines.len() {
        assert(lines.subrange(0, j) =~= lines);
    } else {
        assert(lines.subrange(0, j + 1).drop_last() =~= lines.subrange(0, j));
        lemma_llvm_error_prefix(lines, j + 1, e);
    }
}

} // verus!
