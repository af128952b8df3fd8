use vstd::prelude::*;

verus! {

/// An ASCII decimal digit.
pub open spec fn is_digit(b: u8) -> bool {
    '0' as u8 <= b <= '9' as u8
}

/// Horizontal whitespace trimmed around a reading: space, tab, or the
/// carriage return a CRLF line ending leaves behind.
pub open spec fn is_blank(b: u8) -> bool {
    b == ' ' as u8 || b == '\t' as u8 || b == '\r' as u8
}

/// Index of the first `b` at or after `from`, or the length if none.
pub open spec fn find_byte_from(s: Seq<u8>, b: u8, from: int) -> int
    recommends
        0 <= from <= s.len(),
    decreases s.len() - from,
{
    if from >= s.len() {
        s.len() as int
    } else if s[from] == b {
        from
    } else {
        find_byte_from(s, b, from + 1)
    }
}

pub proof fn lemma_find_byte_from(s: Seq<u8>, b: u8, from: int)
    requires
        0 <= from <= s.len(),
    ensures
        from <= find_byte_from(s, b, from) <= s.len(),
        find_byte_from(s, b, from) < s.len() ==> s[find_byte_from(s, b, from)] == b,
        forall|k: int| from <= k < find_byte_from(s, b, from) ==> s[k] != b,
    decreases s.len() - from,
{
    if from < s.len() && s[from] != b {
        lemma_find_byte_from(s, b, from + 1);
    }
}

/// The pattern occurs in `h` at position `i`.
pub open spec fn match_at(h: Seq<u8>, pat: Seq<u8>, i: int) -> bool {
    0 <= i && i + pat.len() <= h.len() && h.subrange(i, i + pat.len()) == pat
}

/// Position of the first occurrence of the pattern at or after `from`, or
/// the length of `h` if it does not occur there.
pub open spec fn find_pat_from(h: Seq<u8>, pat: Seq<u8>, from: int) -> int
    recommends
        0 <= from,
        pat.len() > 0,
    decreases h.len() - from,
{
    if pat.len() == 0 || from + pat.len() > h.len() {
        h.len() as int
    } else if match_at(h, pat, from) {
        from
    } else {
        find_pat_from(h, pat, from + 1)
    }
}

pub proof fn lemma_find_pat_from(h: Seq<u8>, pat: Seq<u8>, from: int)
    requires
        0 <= from <= h.len(),
        pat.len() > 0,
    ensures
        from <= find_pat_from(h, pat, from) <= h.len(),
        find_pat_from(h, pat, from) < h.len() ==> match_at(h, pat, find_pat_from(h, pat, from)),
        forall|k: int| from <= k < find_pat_from(h, pat, from) ==> !match_at(h, pat, k),
    decreases h.len() - from,
{
    if pat.len() == 0 || from + pat.len() > h.len() {
        assert forall|k: int| from <= k implies !match_at(h, pat, k) by {
            assert(k + pat.len() > h.len());
        }
    } else if !match_at(h, pat, from) {
        lemma_find_pat_from(h, pat, from + 1);
    }
}

/// The pattern occurs somewhere in `h`.
pub open spec fn contains_pat(h: Seq<u8>, pat: Seq<u8>) -> bool {
    find_pat_from(h, pat, 0) < h.len()
}

/// Finds the first occurrence of a non-empty pattern at or after `from`;
/// the length of `h` means it does not occur.
pub fn find_pat(h: &Vec<u8>, pat: &[u8], from: usize) -> (r: usize)
    requires
        from <= h@.len(),
        pat@.len() > 0,
    ensures
        from <= r <= h@.len(),
        r == find_pat_from(h@, pat@, from as int),
{
    proof {
        lemma_find_pat_from(h@, pat@, from as int);
    }
    let n = h.len();
    let m = pat.len();
    let mut i = from;
    loop
        invariant
            from <= i,
            i <= n,
            n == h@.len(),
            m == pat@.len(),
            m > 0,
            from <= h@.len(),
            forall|k: int| from <= k < i ==> !match_at(h@, pat@, k),
        decreases n - i,
    {
        if m > n - i {
            proof {
                lemma_find_pat_from(h@, pat@, from as int);
                assert forall|k: int| i <= k implies !match_at(h@, pat@, k) by {
                    assert(k + pat@.len() > h@.len());
                }
                assert(forall|k: int| from <= k < h@.len() as int ==> !match_at(h@, pat@, k));
                assert(find_pat_from(h@, pat@, from as int) == h@.len()) by {
                    if find_pat_from(h@, pat@, from as int) < h@.len() {
                        assert(match_at(h@, pat@, find_pat_from(h@, pat@, from as int)));
                    }
                }
            }
            return n;
        }
        let mut j: usize = 0;
        let mut hit = true;
        while j < m
            invariant
                j <= m,
                m == pat@.len(),
                n == h@.len(),
                i + m <= n,
                hit == (h@.subrange(i as int, i + j as int) =~= pat@.subrange(0, j as int)),
            decreases m - j,
        {
            let ghost pre_hit = hit;
            if h[i + j] != pat[j] {
                hit = false;
            }
            proof {
                assert(h@.subrange(i as int, i + (j + 1) as int) =~= h@.subrange(
                    i as int,
                    i + j as int,
                ).push(h@[i + j]));
                assert(pat@.subrange(0, (j + 1) as int) =~= pat@.subrange(0, j as int).push(
                    pat@[j as int],
                ));
                if pre_hit && h@[i + j] == pat@[j as int] {
                    assert(h@.subrange(i as int, i + (j + 1) as int) =~= pat@.subrange(
                        0,
                        (j + 1) as int,
                    ));
                } else {
                    if h@.subrange(i as int, i + (j + 1) as int) =~= pat@.subrange(
                        0,
                        (j + 1) as int,
                    ) {
                        assert(h@.subrange(i as int, i + j as int) =~= pat@.subrange(
                            0,
                            j as int,
                        )) by {
                            assert(forall|k: int|
                                0 <= k < j ==> h@.subrange(i as int, i + j as int)[k]
                                    == h@.subrange(i as int, i + (j + 1) as int)[k]
                                    && pat@.subrange(0, j as int)[k] == pat@.subrange(
                                    0,
                                    (j + 1) as int,
                                )[k]);
                        }
                        assert(h@[i + j] == pat@[j as int]) by {
                            assert(h@.subrange(i as int, i + (j + 1) as int)[j as int] == h@[i
                                + j]);
                        }
                        assert(false);
                    }
                }
            }
            j = j + 1;
        }
        proof {
            assert(pat@.subrange(0, pat@.len() as int) =~= pat@);
            assert(h@.subrange(i as int, i + pat@.len()) =~= h@.subrange(
                i as int,
                i + (m as int),
            ));
        }
        if hit {
            proof {
                lemma_find_pat_from(h@, pat@, from as int);
                assert(match_at(h@, pat@, i as int));
                assert(find_pat_from(h@, pat@, from as int) == i) by {
                    let f = find_pat_from(h@, pat@, from as int);
                    if f < i {
                        assert(match_at(h@, pat@, f));
                    }
                    if f > i {
                        assert(!match_at(h@, pat@, i as int));
                    }
                }
            }
            return i;
        }
        proof {
            assert(!match_at(h@, pat@, i as int));
        }
        i = i + 1;
    }
}

/// A line with its carriage return stripped, as a CRLF ending leaves one.
pub open spec fn strip_cr(l: Seq<u8>) -> Seq<u8> {
    if l.len() > 0 && l.last() == '\r' as u8 {
        l.drop_last()
    } else {
        l
    }
}

/// The lines of a byte text from position `start` on, split at newlines,
/// each stripped of a trailing carriage return; a trailing newline ends
/// the last line rather than opening an empty one.
pub open spec fn split_lines_from(s: Seq<u8>, start: int) -> Seq<Seq<u8>>
    recommends
        0 <= start,
    decreases s.len() - start,
{
    if start < 0 || start >= s.len() {
        Seq::empty()
    } else {
        let j = find_byte_from(s, '\n' as u8, start);
        let line = strip_cr(s.subrange(start, j));
        if j >= s.len() {
            seq![line]
        } else {
            proof {
                lemma_find_byte_from(s, '\n' as u8, start);
            }
            seq![line] + split_lines_from(s, j + 1)
        }
    }
}

/// The lines of a byte text.
pub open spec fn split_lines(s: Seq<u8>) -> Seq<Seq<u8>> {
    split_lines_from(s, 0)
}

/// Copies the byte range `[a, b)`.
pub fn sub_vec(v: &Vec<u8>, a: usize, b: usize) -> (r: Vec<u8>)
    requires
        a <= b <= v@.len(),
    ensures
        r@ == v@.subrange(a as int, b as int),
{
    let mut r: Vec<u8> = Vec::new();
    let mut i = a;
    while i < b
        invariant
            a <= i <= b <= v@.len(),
            r@ == v@.subrange(a as int, i as int),
        decreases b - i,
    {
        r.push(v[i]);
        proof {
            assert(v@.subrange(a as int, (i + 1) as int) =~= v@.subrange(a as int, i as int).push(
                v@[i as int],
            ));
        }
        i = i + 1;
    }
    r
}

/// Splits a byte text into lines.
pub fn split_into_lines(s: &Vec<u8>) -> (r: Vec<Vec<u8>>)
    ensures
        r@.map_values(|l: Vec<u8>| l@) == split_lines(s@),
{
    let n = s.len();
    let mut r: Vec<Vec<u8>> = Vec::new();
    let mut start: usize = 0;
    proof {
        assert(r@.map_values(|l: Vec<u8>| l@) =~= Seq::<Seq<u8>>::empty());
    }
    while start < n
        invariant
            start <= n,
            n == s@.len(),
            split_lines(s@) == r@.map_values(|l: Vec<u8>| l@) + split_lines_from(
                s@,
                start as int,
            ),
        decreases n - start,
    {
        proof {
            lemma_find_byte_from(s@, '\n' as u8, start as int);
        }
        let mut j = start;
        while j < n && s[j] != '\n' as u8
            invariant
                start <= j <= n,
                n == s@.len(),
                forall|k: int| start <= k < j ==> s@[k] != '\n' as u8,
            decreases n - j,
        {
            j = j + 1;
        }
        proof {
            assert(j == find_byte_from(s@, '\n' as u8, start as int)) by {
                let f = find_byte_from(s@, '\n' as u8, start as int);
                if f < j {
                    assert(s@[f] != '\n' as u8);
                }
                if j < f {
                    assert(s@[j as int] == '\n' as u8);
                }
            }
        }
        let mut line = sub_vec(s, start, j);
        if line.len() > 0 {
            if line[line.len() - 1] == '\r' as u8 {
                let popped = line.pop();
            }
        }
        proof {
            assert(line@ == strip_cr(s@.subrange(start as int, j as int)));
        }
        let ghost pre_lines = r@.map_values(|l: Vec<u8>| l@);
        r.push(line);
        proof {
            assert(r@.map_values(|l: Vec<u8>| l@) =~= pre_lines.push(line@));
            assert(split_lines_from(s@, start as int) == seq![line@] + (if j >= n {
                Seq::<Seq<u8>>::empty()
            } else {
                split_lines_from(s@, j + 1 as int)
            })) by {
                if j >= n {
                    assert(split_lines_from(s@, start as int) =~= seq![line@]);
                }
            }
            assert(pre_lines.push(line@) =~= pre_lines + seq![line@]);
            assert(pre_lines + split_lines_from(s@, start as int) =~= (pre_lines + seq![line@])
                + (if j >= n {
                Seq::<Seq<u8>>::empty()
            } else {
                split_lines_from(s@, j + 1 as int)
            }));
            if j >= n {
                assert(split_lines_from(s@, n as int) =~= Seq::<Seq<u8>>::empty());
            }
        }
        if j == n {
            start = n;
        } else {
            start = j + 1;
        }
    }
    proof {
        if start == n {
            assert(split_lines_from(s@, start as int) =~= Seq::<Seq<u8>>::empty());
        }
        assert(split_lines(s@) =~= r@.map_values(|l: Vec<u8>| l@));
    }
    r
}

/// Index of the first non-blank byte at or after `from`, or the length.
pub open spec fn first_nonblank(s: Seq<u8>, from: int) -> int
    recommends
        0 <= from <= s.len(),
    decreases s.len() - from,
{
    if from >= s.len() {
        s.len() as int
    } else if is_blank(s[from]) {
        first_nonblank(s, from + 1)
    } else {
        from
    }
}

pub proof fn lemma_first_nonblank(s: Seq<u8>, from: int)
    requires
        0 <= from <= s.len(),
    ensures
        from <= first_nonblank(s, from) <= s.len(),
        first_nonblank(s, from) < s.len() ==> !is_blank(s[first_nonblank(s, from)]),
        forall|k: int| from <= k < first_nonblank(s, from) ==> is_blank(s[k]),
    decreases s.len() - from,
{
    if from < s.len() && is_blank(s[from]) {
        lemma_first_nonblank(s, from + 1);
    }
}

/// One past the last non-blank byte strictly before `upto`, or zero.
pub open spec fn last_nonblank_end(s: Seq<u8>, upto: int) -> int
    recommends
        0 <= upto <= s.len(),
    decreases upto,
{
    if upto <= 0 {
        0
    } else if is_blank(s[upto - 1]) {
        last_nonblank_end(s, upto - 1)
    } else {
        upto
    }
}

pub proof fn lemma_last_nonblank_end(s: Seq<u8>, upto: int)
    requires
        0 <= upto <= s.len(),
    ensures
        0 <= last_nonblank_end(s, upto) <= upto,
        last_nonblank_end(s, upto) > 0 ==> !is_blank(s[last_nonblank_end(s, upto) - 1]),
        forall|k: int| last_nonblank_end(s, upto) <= k < upto ==> is_blank(s[k]),
    decreases upto,
{
    if upto > 0 && is_blank(s[upto - 1]) {
        lemma_last_nonblank_end(s, upto - 1);
    }
}

/// The byte string with leading and trailing blanks removed.
pub open spec fn trimmed(s: Seq<u8>) -> Seq<u8> {
    let a = first_nonblank(s, 0);
    let b = last_nonblank_end(s, s.len() as int);
    if a >= b {
        Seq::empty()
    } else {
        s.subrange(a, b)
    }
}

/// Removes leading and trailing blanks.
pub fn trim(s: &Vec<u8>) -> (r: Vec<u8>)
    ensures
        r@ == trimmed(s@),
{
    proof {
        lemma_first_nonblank(s@, 0);
        lemma_last_nonblank_end(s@, s@.len() as int);
    }
    let n = s.len();
    let mut a: usize = 0;
    while a < n && (s[a] == ' ' as u8 || s[a] == '\t' as u8 || s[a] == '\r' as u8)
        invariant
            a <= n,
            n == s@.len(),
            forall|k: int| 0 <= k < a ==> is_blank(s@[k]),
        decreases n - a,
    {
        a = a + 1;
    }
    proof {
        assert(a == first_nonblank(s@, 0)) by {
            let f = first_nonblank(s@, 0);
            if f < a {
                assert(!is_blank(s@[f]));
            }
            if a < f {
                assert(is_blank(s@[a as int]));
            }
        }
    }
    let mut b: usize = n;
    while b > a && (s[b - 1] == ' ' as u8 || s[b - 1] == '\t' as u8 || s[b - 1] == '\r' as u8)
        invariant
            a <= b <= n,
            n == s@.len(),
            forall|k: int| b <= k < n ==> is_blank(s@[k]),
        decreases b,
    {
        b = b - 1;
    }
    proof {
        let e = last_nonblank_end(s@, s@.len() as int);
        if b > a {
            assert(b == e) by {
                if e < b {
                    assert(is_blank(s@[b - 1]));
                }
                if b < e {
                    assert(!is_blank(s@[e - 1]));
                    assert(is_blank(s@[e - 1]));
                }
            }
        } else {
            assert(b == a);
            assert(e <= a) by {
                if e > a {
                    assert(!is_blank(s@[e - 1]));
                    if e - 1 >= a {
                        assert(is_blank(s@[e - 1]));
                    }
                }
            }
            assert(first_nonblank(s@, 0) >= e);
            assert(s@.subrange(a as int, b as int) =~= trimmed(s@));
        }
    }
    sub_vec(s, a, b)
}

/// Finds the first `b` at or after `from`; the length means it does not
/// occur.
pub fn find_byte(h: &Vec<u8>, b: u8, from: usize) -> (r: usize)
    requires
        from <= h@.len(),
    ensures
        from <= r <= h@.len(),
        r == find_byte_from(h@, b, from as int),
{
    proof {
        lemma_find_byte_from(h@, b, from as int);
    }
    let n = h.len();
    let mut i = from;
    while i < n && h[i] != b
        invariant
            from <= i <= n,
            n == h@.len(),
            forall|k: int| from <= k < i ==> h@[k] != b,
        decreases n - i,
    {
        i = i + 1;
    }
    proof {
        let f = find_byte_from(h@, b, from as int);
        if f < i {
            assert(h@[f] != b);
        }
        if i < f {
            assert(h@[i as int] == b);
        }
    }
    i
}

/// One past the last of the unbroken run of digits starting at `from`.
pub open spec fn digits_end(s: Seq<u8>, from: int) -> int
    recommends
        0 <= from <= s.len(),
    decreases s.len() - from,
{
    if from >= s.len() {
        s.len() as int
    } else if is_digit(s[from]) {
        digits_end(s, from + 1)
    } else {
        from
    }
}

pub proof fn lemma_digits_end(s: Seq<u8>, from: int)
    requires
        0 <= from <= s.len(),
    ensures
        from <= digits_end(s, from) <= s.len(),
        digits_end(s, from) < s.len() ==> !is_digit(s[digits_end(s, from)]),
        forall|k: int| from <= k < digits_end(s, from) ==> is_digit(s[k]),
    decreases s.len() - from,
{
    if from < s.len() && is_digit(s[from]) {
        lemma_digits_end(s, from + 1);
    }
}

/// The number the digit run `[i, j)` writes in decimal.
pub open spec fn digits_val(s: Seq<u8>, i: int, j: int) -> int
    recommends
        0 <= i <= j <= s.len(),
    decreases j - i,
{
    if j <= i {
        0
    } else {
        digits_val(s, i, j - 1) * 10 + (s[j - 1] - '0' as u8)
    }
}

pub proof fn lemma_digits_val_nonneg(s: Seq<u8>, i: int, j: int)
    requires
        0 <= i <= j <= s.len(),
        forall|k: int| i <= k < j ==> is_digit(s[k]),
    ensures
        digits_val(s, i, j) >= 0,
    decreases j - i,
{
    if j > i {
        lemma_digits_val_nonneg(s, i, j - 1);
        assert(digits_val(s, i, j - 1) * 10 >= 0) by (nonlinear_arith)
            requires digits_val(s, i, j - 1) >= 0;
        assert(is_digit(s[j - 1]));
    }
}

/// Reading more digits never shrinks the number.
pub proof fn lemma_digits_val_grows(s: Seq<u8>, i: int, j1: int, j2: int)
    requires
        0 <= i <= j1 <= j2 <= s.len(),
        forall|k: int| i <= k < j2 ==> is_digit(s[k]),
    ensures
        digits_val(s, i, j1) <= digits_val(s, i, j2),
    decreases j2 - j1,
{
    if j1 < j2 {
        lemma_digits_val_grows(s, i, j1, j2 - 1);
        lemma_digits_val_nonneg(s, i, j2 - 1);
        assert(digits_val(s, i, j2 - 1) * 10 >= digits_val(s, i, j2 - 1)) by (nonlinear_arith)
            requires digits_val(s, i, j2 - 1) >= 0;
    }
}

/// A run of `d` digits writes a number under ten to the `d`.
proof fn lemma_digits_val_bound(s: Seq<u8>, i: int, j: int, bound: int)
    requires
        0 <= i <= j <= s.len(),
        forall|k: int| i <= k < j ==> is_digit(s[k]),
        j - i <= 3,
        bound == (if j - i <= 0 {
            1int
        } else if j - i == 1 {
            10int
        } else if j - i == 2 {
            100int
        } else {
            1000int
        }),
    ensures
        digits_val(s, i, j) < bound,
    decreases j - i,
{
    if j <= i {
    } else {
        let prev = if j - 1 - i <= 0 {
            1int
        } else if j - 1 - i == 1 {
            10int
        } else if j - 1 - i == 2 {
            100int
        } else {
            1000int
        };
        lemma_digits_val_bound(s, i, j - 1, prev);
        let d = s[j - 1] - ('0' as u8);
        assert(0 <= d < 10);
        assert(digits_val(s, i, j - 1) * 10 + d < prev * 10) by (nonlinear_arith)
            requires
                digits_val(s, i, j - 1) < prev,
                0 <= d < 10,
        ;
    }
}

/// Scans the digit run starting at `from`: where it ends, its value, and
/// whether the value runs past the given bound.
pub fn scan_number(s: &Vec<u8>, from: usize, bound: u64) -> (r: (usize, u64, bool))
    requires
        from <= s@.len(),
    ensures
        from <= r.0 <= s@.len(),
        r.0 == digits_end(s@, from as int),
        r.2 == (digits_val(s@, from as int, digits_end(s@, from as int)) > bound),
        !r.2 ==> r.1 == digits_val(s@, from as int, digits_end(s@, from as int)),
{
    let n = s.len();
    let mut i = from;
    let mut acc: u64 = 0;
    let mut over = false;
    while i < n && s[i] >= '0' as u8 && s[i] <= '9' as u8
        invariant
            from <= i <= n,
            n == s@.len(),
            forall|k: int| from <= k < i ==> is_digit(s@[k]),
            over == (digits_val(s@, from as int, i as int) > bound),
            !over ==> acc == digits_val(s@, from as int, i as int) && acc <= bound,
        decreases n - i,
    {
        let d = s[i] - '0' as u8;
        proof {
            lemma_digits_val_nonneg(s@, from as int, i as int);
            lemma_digits_val_grows(s@, from as int, i as int, i + 1 as int);
            if digits_val(s@, from as int, i as int) > bound {
                assert(digits_val(s@, from as int, i + 1 as int) > bound);
            }
        }
        if !over {
            let next = (acc as u128) * 10 + (d as u128);
            if next > bound as u128 {
                over = true;
            } else {
                acc = next as u64;
            }
        }
        i = i + 1;
    }
    proof {
        lemma_digits_end(s@, from as int);
        let e = digits_end(s@, from as int);
        if e < i {
            assert(!is_digit(s@[e]));
        }
        if i < e {
            assert(is_digit(s@[i as int]));
        }
    }
    (i, acc, over)
}

/// The milli-scale contribution of the fraction digits `[i, j)`: the first
/// three count, shorter runs are padded with zeros.
pub open spec fn frac_milli(s: Seq<u8>, i: int, j: int) -> int
    recommends
        0 <= i <= j <= s.len(),
{
    let k = if j > i + 3 {
        i + 3
    } else {
        j
    };
    digits_val(s, i, k) * frac_pow(k - i)
}

/// Ten to the third less the digit count taken.
pub open spec fn frac_pow(d: int) -> int {
    if d <= 0 {
        1000
    } else if d == 1 {
        100
    } else if d == 2 {
        10
    } else {
        1
    }
}

/// Accepts or rejects a milli-scaled rate by the reading bound.
pub open spec fn clamp_rate(v: int) -> Result<u64, crate::MetricError> {
    if v < 0 || v > crate::stats::SAMPLE_MAX {
        Err(crate::MetricError::ValueOutOfRange)
    } else {
        Ok(v as u64)
    }
}

/// The rate a trimmed report field writes, scaled by a thousand: digits,
/// optionally a point and more digits, nothing else. Any other shape is a
/// malformed report; a rate too large for the reading range is rejected.
pub open spec fn rate_value(t: Seq<u8>) -> Result<u64, crate::MetricError> {
    let d1 = digits_end(t, 0);
    if d1 >= t.len() {
        if d1 == 0 {
            Err(crate::MetricError::MalformedReport)
        } else {
            clamp_rate(digits_val(t, 0, d1) * 1000)
        }
    } else if t[d1] == '.' as u8 {
        let d2 = digits_end(t, d1 + 1);
        if d2 < t.len() {
            Err(crate::MetricError::MalformedReport)
        } else if d1 == 0 && d2 == d1 + 1 {
            Err(crate::MetricError::MalformedReport)
        } else {
            clamp_rate(digits_val(t, 0, d1) * 1000 + frac_milli(t, d1 + 1, d2))
        }
    } else {
        Err(crate::MetricError::MalformedReport)
    }
}

/// Reads a rate from a trimmed report field.
pub fn parse_rate(t: &Vec<u8>) -> (r: Result<u64, crate::MetricError>)
    ensures
        r == rate_value(t@),
{
    let n = t.len();
    let (d1, v1, over1) = scan_number(t, 0, crate::stats::SAMPLE_MAX);
    proof {
        lemma_digits_end(t@, 0);
        lemma_digits_val_nonneg(t@, 0, d1 as int);
    }
    if d1 >= n {
        if d1 == 0 {
            return Err(crate::MetricError::MalformedReport);
        }
        if over1 {
            proof {
                assert(digits_val(t@, 0, d1 as int) * 1000 > crate::stats::SAMPLE_MAX)
                    by (nonlinear_arith)
                    requires digits_val(t@, 0, d1 as int) > crate::stats::SAMPLE_MAX >= 0;
            }
            return Err(crate::MetricError::ValueOutOfRange);
        }
        let scaled = v1 * 1000;
        if scaled > crate::stats::SAMPLE_MAX {
            return Err(crate::MetricError::ValueOutOfRange);
        }
        return Ok(scaled);
    }
    if t[d1] != '.' as u8 {
        return Err(crate::MetricError::MalformedReport);
    }
    let (d2, _fv, _fover) = scan_number(t, d1 + 1, crate::stats::SAMPLE_MAX);
    if d2 < n {
        return Err(crate::MetricError::MalformedReport);
    }
    if d1 == 0 && d2 == d1 + 1 {
        return Err(crate::MetricError::MalformedReport);
    }
    proof {
        lemma_digits_end(t@, d1 + 1 as int);
    }
    let k: usize = if d2 - (d1 + 1) > 3 {
        d1 + 4
    } else {
        d2
    };
    let mut f: u64 = 0;
    let mut c = d1 + 1;
    while c < k
        invariant
            d1 + 1 <= c <= k,
            k <= t@.len(),
            n == t@.len(),
            k - (d1 + 1) <= 3,
            forall|j: int| d1 + 1 <= j < k ==> is_digit(t@[j]),
            f == digits_val(t@, d1 + 1 as int, c as int),
            f <= 999,
        decreases k - c,
    {
        proof {
            lemma_digits_val_bound(
                t@,
                d1 + 1 as int,
                c + 1 as int,
                if c + 1 - (d1 + 1) <= 0 {
                    1int
                } else if c + 1 - (d1 + 1) == 1 {
                    10int
                } else if c + 1 - (d1 + 1) == 2 {
                    100int
                } else {
                    1000int
                },
            );
        }
        f = f * 10 + ((t[c] - '0' as u8) as u64);
        c = c + 1;
    }
    let took = k - (d1 + 1);
    let pow: u64 = if took == 0 {
        1000
    } else if took == 1 {
        100
    } else if took == 2 {
        10
    } else {
        1
    };
    let frac = f * pow;
    proof {
        lemma_digits_val_bound(
            t@,
            d1 + 1 as int,
            k as int,
            if k - (d1 + 1) <= 0 {
                1int
            } else if k - (d1 + 1) == 1 {
                10int
            } else if k - (d1 + 1) == 2 {
                100int
            } else {
                1000int
            },
        );
        assert(frac == frac_milli(t@, d1 + 1 as int, d2 as int));
        assert(frac < 1000) by (nonlinear_arith)
            requires
                frac == f * pow,
                (pow == 1000 && f < 1) || (pow == 100 && f < 10) || (pow == 10 && f < 100) || (
                pow == 1 && f < 1000),
        ;
        lemma_digits_val_nonneg(t@, d1 + 1 as int, k as int);
        assert(frac >= 0);
    }
    if over1 {
        proof {
            assert(digits_val(t@, 0, d1 as int) * 1000 + frac_milli(t@, d1 + 1 as int, d2 as int)
                > crate::stats::SAMPLE_MAX) by (nonlinear_arith)
                requires
                    digits_val(t@, 0, d1 as int) > crate::stats::SAMPLE_MAX >= 0,
                    frac_milli(t@, d1 + 1 as int, d2 as int) >= 0,
            ;
        }
        return Err(crate::MetricError::ValueOutOfRange);
    }
    let scaled = v1 * 1000 + frac;
    if scaled > crate::stats::SAMPLE_MAX {
        return Err(crate::MetricError::ValueOutOfRange);
    }
    Ok(scaled)
}

/// `fps`
pub open spec fn fps_pat() -> Seq<u8> {
    seq!['f' as u8, 'p' as u8, 's' as u8]
}

/// `avg`
pub open spec fn avg_pat() -> Seq<u8> {
    seq!['a' as u8, 'v' as u8, 'g' as u8]
}

/// A line carrying a periodic performance report: it mentions both the
/// rate marker and the running average.
pub open spec fn is_report_line(line: Seq<u8>) -> bool {
    contains_pat(line, fps_pat()) && contains_pat(line, avg_pat())
}

/// The rate a report line carries: the field after the rate marker, cut
/// before any parenthesis, taken after its leading colon, trimmed, read as
/// a milli-scaled decimal. A report line without a colon, or whose field
/// is not a plain decimal, is malformed.
pub open spec fn rate_of_line(line: Seq<u8>) -> Result<u64, crate::MetricError>
    recommends
        contains_pat(line, fps_pat()),
{
    let f1 = find_pat_from(line, fps_pat(), 0);
    let a = f1 + 3;
    let f2 = find_pat_from(line, fps_pat(), a);
    let seg1 = line.subrange(a, f2);
    let p = find_byte_from(seg1, '(' as u8, 0);
    let seg2 = seg1.subrange(0, p);
    let c1 = find_byte_from(seg2, ':' as u8, 0);
    if c1 >= seg2.len() {
        Err(crate::MetricError::MalformedReport)
    } else {
        let c2 = find_byte_from(seg2, ':' as u8, c1 + 1);
        let seg3 = seg2.subrange(c1 + 1, c2);
        rate_value(trimmed(seg3))
    }
}

/// Tells whether a line is a performance report.
pub fn is_report(line: &Vec<u8>) -> (r: bool)
    ensures
        r == is_report_line(line@),
{
    let fps_bytes: [u8; 3] = ['f' as u8, 'p' as u8, 's' as u8];
    let avg_bytes: [u8; 3] = ['a' as u8, 'v' as u8, 'g' as u8];
    proof {
        assert(fps_bytes@ =~= fps_pat());
        assert(avg_bytes@ =~= avg_pat());
    }
    let n = line.len();
    let has_fps = find_pat(line, fps_bytes.as_slice(), 0) < n;
    if !has_fps {
        return false;
    }
    find_pat(line, avg_bytes.as_slice(), 0) < n
}

/// Reads the rate from a report line.
pub fn line_rate(line: &Vec<u8>) -> (r: Result<u64, crate::MetricError>)
    requires
        contains_pat(line@, fps_pat()),
    ensures
        r == rate_of_line(line@),
{
    let fps_bytes: [u8; 3] = ['f' as u8, 'p' as u8, 's' as u8];
    proof {
        assert(fps_bytes@ =~= fps_pat());
        lemma_find_pat_from(line@, fps_pat(), 0);
    }
    let nn = line.len();
    let f1 = find_pat(line, fps_bytes.as_slice(), 0);
    proof {
        assert(f1 < line@.len());
        assert(match_at(line@, fps_pat(), f1 as int));
        assert(f1 + 3 <= nn);
    }
    let a = f1 + 3;
    proof {
        lemma_find_pat_from(line@, fps_pat(), a as int);
    }
    let f2 = find_pat(line, fps_bytes.as_slice(), a);
    let seg1 = sub_vec(line, a, f2);
    proof {
        lemma_find_byte_from(seg1@, '(' as u8, 0);
    }
    let p = find_byte(&seg1, '(' as u8, 0);
    let seg2 = sub_vec(&seg1, 0, p);
    proof {
        lemma_find_byte_from(seg2@, ':' as u8, 0);
    }
    let c1 = find_byte(&seg2, ':' as u8, 0);
    if c1 >= seg2.len() {
        return Err(crate::MetricError::MalformedReport);
    }
    proof {
        lemma_find_byte_from(seg2@, ':' as u8, c1 + 1 as int);
    }
    let c2 = find_byte(&seg2, ':' as u8, c1 + 1);
    let seg3 = sub_vec(&seg2, c1 + 1, c2);
    let field = trim(&seg3);
    parse_rate(&field)
}

/// The rates all report lines of a text carry, in order; the first
/// malformed or oversized report fails the extraction.
pub open spec fn rates_of_lines(lines: Seq<Seq<u8>>) -> Result<Seq<u64>, crate::MetricError>
    decreases lines.len(),
{
    if lines.len() == 0 {
        Ok(Seq::empty())
    } else {
        match rates_of_lines(lines.drop_last()) {
            Err(e) => Err(e),
            Ok(rs) => if is_report_line(lines.last()) {
                match rate_of_line(lines.last()) {
                    Err(e) => Err(e),
                    Ok(v) => Ok(rs.push(v)),
                }
            } else {
                Ok(rs)
            },
        }
    }
}

/// A failed report line fails the whole extraction, from wherever it
/// stands.
proof fn lemma_rates_error_prefix(lines: Seq<Seq<u8>>, j: int, e: crate::MetricError)
    requires
        0 <= j <= lines.len(),
        rates_of_lines(lines.subrange(0, j)) == Err::<Seq<u64>, crate::MetricError>(e),
    ensures
        rates_of_lines(lines) == Err::<Seq<u64>, crate::MetricError>(e),
    decreases lines.len() - j,
{
    if j == lines.len() {
        assert(lines.subrange(0, j) =~= lines);
    } else {
        assert(lines.subrange(0, j + 1).drop_last() =~= lines.subrange(0, j));
        assert(rates_of_lines(lines.subrange(0, j + 1)) == Err::<Seq<u64>, crate::MetricError>(e));
        lemma_rates_error_prefix(lines, j + 1, e);
    }
}

/// The rates the report lines of a captured output carry.
pub open spec fn extracted_rates(out: Seq<u8>) -> Result<Seq<u64>, crate::MetricError> {
    rates_of_lines(split_lines(out))
}

/// Extracts the rates of all performance-report lines of a captured
/// output. Lines that are no reports are skipped; a report line that does
/// not parse fails the extraction. Every extracted rate fits the reading
/// bound.
pub fn extract_rates(out: &Vec<u8>) -> (r: Result<Vec<u64>, crate::MetricError>)
    ensures
        match r {
            Ok(v) => extracted_rates(out@) == Ok::<Seq<u64>, crate::MetricError>(v@)
                && crate::stats::samples_bounded(v@),
            Err(e) => extracted_rates(out@) == Err::<Seq<u64>, crate::MetricError>(e),
        },
{
    let lines = split_into_lines(out);
    let n = lines.len();
    let mut rates: Vec<u64> = Vec::new();
    let ghost views = lines@.map_values(|l: Vec<u8>| l@);
    let mut i: usize = 0;
    proof {
        assert(views.subrange(0, 0) =~= Seq::<Seq<u8>>::empty());
    }
    while i < n
        invariant
            i <= n,
            n == lines@.len(),
            views == lines@.map_values(|l: Vec<u8>| l@),
            views == split_lines(out@),
            rates_of_lines(views.subrange(0, i as int)) == Ok::<Seq<u64>, crate::MetricError>(
                rates@,
            ),
            crate::stats::samples_bounded(rates@),
        decreases n - i,
    {
        proof {
            assert(views.subrange(0, i + 1 as int).drop_last() =~= views.subrange(0, i as int));
            assert(views.subrange(0, i + 1 as int).last() == views[i as int]);
            assert(views[i as int] == lines@[i as int]@);
        }
        let line = &lines[i];
        if is_report(line) {
            let got = line_rate(line);
            match got {
                Ok(v) => {
                    let ghost pre = rates@;
                    proof {
                        assert(v <= crate::stats::SAMPLE_MAX);
                    }
                    rates.push(v);
                    proof {
                        assert forall|k: int|
                            0 <= k < rates@.len() implies #[trigger] rates@[k]
                            <= crate::stats::SAMPLE_MAX by {
                            if k < pre.len() {
                                assert(rates@[k] == pre[k]);
                            } else {
                                assert(rates@[k] == v);
                            }
                        }
                    }
                },
                Err(e) => {
                    proof {
                        assert(rates_of_lines(views.subrange(0, i + 1 as int))
                            == Err::<Seq<u64>, crate::MetricError>(e));
                        lemma_rates_error_prefix(views, i + 1 as int, e);
                    }
                    return Err(e);
                },
            }
        }
        i = i + 1;
    }
    proof {
        assert(views.subrange(0, n as int) =~= views);
    }
    Ok(rates)
}

} // verus!
