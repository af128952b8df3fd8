use vstd::prelude::*;

verus! {

/// A metric mapping: metric names (byte strings) paired with unsigned
/// 64-bit values, with at most one entry per name. A later insert under an
/// existing name overwrites the earlier value.
pub struct MetricMap {
    entries: Vec<(Vec<u8>, u64)>,
}

/// The mathematical map held by an entry list: entries are added in order,
/// so a later entry wins over an earlier one with the same name.
pub open spec fn map_of(entries: Seq<(Vec<u8>, u64)>) -> Map<Seq<u8>, u64>
    decreases entries.len(),
{
    if entries.len() == 0 {
        Map::empty()
    } else {
        map_of(entries.drop_last()).insert(entries.last().0@, entries.last().1)
    }
}

/// No two entries share a name.
pub open spec fn distinct_keys(entries: Seq<(Vec<u8>, u64)>) -> bool {
    forall|i: int, j: int|
        0 <= i < j < entries.len() ==> entries[i].0@ != entries[j].0@
}

pub proof fn lemma_map_of_contains(entries: Seq<(Vec<u8>, u64)>, k: Seq<u8>)
    ensures
        map_of(entries).contains_key(k) <==> exists|i: int|
            0 <= i < entries.len() && entries[i].0@ == k,
    decreases entries.len(),
{
    if entries.len() > 0 {
        lemma_map_of_contains(entries.drop_last(), k);
        if map_of(entries).contains_key(k) {
            if entries.last().0@ != k {
                let i = choose|i: int|
                    0 <= i < entries.drop_last().len() && entries.drop_last()[i].0@ == k;
                assert(entries[i].0@ == k);
            }
        }
        if exists|i: int| 0 <= i < entries.len() && entries[i].0@ == k {
            let i = choose|i: int| 0 <= i < entries.len() && entries[i].0@ == k;
            if i < entries.len() - 1 {
                assert(entries.drop_last()[i].0@ == k);
            }
        }
    }
}

pub proof fn lemma_map_of_value(entries: Seq<(Vec<u8>, u64)>, i: int)
    requires
        distinct_keys(entries),
        0 <= i < entries.len(),
    ensures
        map_of(entries).contains_key(entries[i].0@),
        map_of(entries)[entries[i].0@] == entries[i].1,
    decreases entries.len(),
{
    if i == entries.len() - 1 {
    } else {
        lemma_map_of_value(entries.drop_last(), i);
        assert(entries.drop_last()[i] == entries[i]);
    }
}

pub proof fn lemma_map_of_len(entries: Seq<(Vec<u8>, u64)>)
    requires
        distinct_keys(entries),
    ensures
        map_of(entries).dom().finite(),
        map_of(entries).dom().len() == entries.len(),
    decreases entries.len(),
{
    if entries.len() > 0 {
        lemma_map_of_len(entries.drop_last());
        lemma_map_of_contains(entries.drop_last(), entries.last().0@);
        assert(forall|i: int|
            0 <= i < entries.drop_last().len() ==> entries[i].0@ != entries.last().0@);
        assert(!map_of(entries.drop_last()).contains_key(entries.last().0@));
    }
}

impl View for MetricMap {
    type V = Map<Seq<u8>, u64>;

    closed spec fn view(&self) -> Map<Seq<u8>, u64> {
        map_of(self.entries@)
    }
}

impl MetricMap {
    /// Entries hold pairwise distinct names.
    pub closed spec fn wf(&self) -> bool {
        distinct_keys(self.entries@)
    }

    pub fn new() -> (r: MetricMap)
        ensures
            r@ == Map::<Seq<u8>, u64>::empty(),
            r.wf(),
    {
        MetricMap { entries: Vec::new() }
    }

    pub fn len(&self) -> (r: usize)
        requires
            self.wf(),
        ensures
            self@.dom().finite(),
            r == self@.dom().len(),
    {
        proof {
            lemma_map_of_len(self.entries@);
        }
        self.entries.len()
    }

    /// Adds one value under a name; an existing value under the same name is
    /// overwritten.
    pub fn insert(&mut self, name: Vec<u8>, value: u64)
        requires
            old(self).wf(),
        ensures
            final(self).wf(),
            final(self)@ == old(self)@.insert(name@, value),
    {
        let n = self.entries.len();
        let mut i: usize = 0;
        while i < n
            invariant
                old(self).wf(),
                self == old(self),
                n == self.entries@.len(),
                i <= n,
                forall|j: int| 0 <= j < i ==> self.entries@[j].0@ != name@,
            decreases n - i,
        {
            if vec_u8_eq(&self.entries[i].0, &name) {
                let ghost old_entries = self.entries@;
                let ghost new_entry = (name@, value);
                self.entries[i] = (name, value);
                proof {
                    lemma_map_of_update(old_entries, i as int, self.entries@[i as int]);
                }
                return ;
            }
            i = i + 1;
        }
        let ghost old_entries = self.entries@;
        self.entries.push((name, value));
        proof {
            assert(self.entries@.drop_last() =~= old_entries);
            assert(forall|j: int|
                0 <= j < old_entries.len() ==> old_entries[j].0@ != name@);
        }
    }

    /// Looks one name up.
    pub fn get(&self, name: &Vec<u8>) -> (r: Option<u64>)
        requires
            self.wf(),
        ensures
            r == if self@.contains_key(name@) {
                Some(self@[name@])
            } else {
                Option::<u64>::None
            },
    {
        proof {
            lemma_map_of_contains(self.entries@, name@);
        }
        let n = self.entries.len();
        let mut i: usize = 0;
        while i < n
            invariant
                self.wf(),
                n == self.entries.len(),
                i <= n,
                forall|j: int| 0 <= j < i ==> self.entries@[j].0@ != name@,
            decreases n - i,
        {
            if vec_u8_eq(&self.entries[i].0, name) {
                proof {
                    lemma_map_of_value(self.entries@, i as int);
                }
                return Some(self.entries[i].1);
            }
            i = i + 1;
        }
        None
    }

    /// The entry at one position, for walking the whole mapping; positions
    /// run from zero up to `len()`.
    pub fn entry_at(&self, i: usize) -> (r: (&Vec<u8>, u64))
        requires
            self.wf(),
            i < self@.dom().len(),
        ensures
            self@.contains_key(r.0@),
            self@[r.0@] == r.1,
    {
        proof {
            lemma_map_of_len(self.entries@);
            lemma_map_of_value(self.entries@, i as int);
        }
        let entry = &self.entries[i];
        (&entry.0, entry.1)
    }

    /// Moves every entry of `other` into `self`; on a shared name the value
    /// of `other` wins.
    pub fn absorb(&mut self, other: MetricMap)
        requires
            old(self).wf(),
            other.wf(),
        ensures
            final(self).wf(),
            final(self)@ == old(self)@.union_prefer_right(other@),
    {
        let ghost goal = old(self)@.union_prefer_right(other@);
        let mut rest = other;
        while rest.entries.len() > 0
            invariant
                self.wf(),
                rest.wf(),
                goal == self@.union_prefer_right(map_of(rest.entries@)),
            decreases rest.entries@.len(),
        {
            let ghost pre_rest = rest.entries@;
            let popped = rest.entries.pop();
            match popped {
                None => {
                    proof {
                        assert(false);
                    }
                },
                Some((name, value)) => {
                    proof {
                        assert(pre_rest.drop_last() =~= rest.entries@);
                        lemma_map_of_contains(rest.entries@, name@);
                        assert(forall|i: int|
                            0 <= i < rest.entries@.len() ==> rest.entries@[i].0@ != name@);
                        assert(!map_of(rest.entries@).contains_key(name@));
                        assert(self@.union_prefer_right(map_of(pre_rest))
                            =~= self@.insert(name@, value).union_prefer_right(
                            map_of(rest.entries@),
                        ));
                    }
                    self.insert(name, value);
                },
            }
        }
        proof {
            assert(goal =~= self@);
        }
    }
}

/// Byte-string equality.
pub fn vec_u8_eq(a: &Vec<u8>, b: &Vec<u8>) -> (r: bool)
    ensures
        r == (a@ == b@),
{
    if a.len() != b.len() {
        proof {
            assert(a@ != b@);
        }
        return false;
    }
    let n = a.len();
    let mut i: usize = 0;
    while i < n
        invariant
            n == a.len() == b.len(),
            i <= n,
            forall|j: int| 0 <= j < i ==> a@[j] == b@[j],
        decreases n - i,
    {
        if a[i] != b[i] {
            return false;
        }
        i = i + 1;
    }
    proof {
        assert(a@ =~= b@);
    }
    true
}

proof fn lemma_map_of_update(entries: Seq<(Vec<u8>, u64)>, i: int, entry: (Vec<u8>, u64))
    requires
        distinct_keys(entries),
        0 <= i < entries.len(),
        entry.0@ == entries[i].0@,
    ensures
        distinct_keys(entries.update(i, entry)),
        map_of(entries.update(i, entry)) == map_of(entries).insert(entry.0@, entry.1),
    decreases entries.len(),
{
    let updated = entries.update(i, entry);
    assert(forall|j: int| 0 <= j < entries.len() && j != i ==> updated[j] == entries[j]);
    if i == entries.len() - 1 {
        assert(updated.drop_last() =~= entries.drop_last());
        assert(map_of(updated) =~= map_of(entries).insert(entry.0@, entry.1));
    } else {
        lemma_map_of_update(entries.drop_last(), i, entry);
        assert(updated.drop_last() =~= entries.drop_last().update(i, entry));
        assert(updated.last() == entries.last());
        assert(map_of(updated) == map_of(entries.drop_last()).insert(
            entry.0@,
            entry.1,
        ).insert(entries.last().0@, entries.last().1));
        assert(entries.last().0@ != entry.0@);
        assert(map_of(entries.drop_last()).insert(entry.0@, entry.1).insert(
            entries.last().0@,
            entries.last().1,
        ) =~= map_of(entries.drop_last()).insert(entries.last().0@, entries.last().1).insert(
            entry.0@,
            entry.1,
        ));
    }
}

} // verus!
