use vstd::prelude::*;

verus! {

/// Saturating sum of two counter values.
pub open spec fn sat_add(a: int, b: int) -> int {
    if a + b > u64::MAX {
        u64::MAX as int
    } else {
        a + b
    }
}

/// The counter value a summary map holds for a key, zero when absent.
pub open spec fn val_of(m: Map<Seq<char>, int>, k: Seq<char>) -> int {
    if m.dom().contains(k) {
        m[k]
    } else {
        0
    }
}

/// Every counter of the summary is a representable count.
pub open spec fn wf_summary(m: Map<Seq<char>, int>) -> bool {
    forall|k: Seq<char>| m.dom().contains(k) ==> 0 <= #[trigger] m[k] <= u64::MAX
}

/// The merge of two summaries: the union of their stages, matching counters
/// summed.
pub open spec fn spec_merge(m1: Map<Seq<char>, int>, m2: Map<Seq<char>, int>) -> Map<
    Seq<char>,
    int,
> {
    Map::new(
        |k: Seq<char>| m1.dom().contains(k) || m2.dom().contains(k),
        |k: Seq<char>| sat_add(val_of(m1, k), val_of(m2, k)),
    )
}

/// Merging left to right over a list of summaries, starting from the empty
/// summary.
pub open spec fn fold_merge(ms: Seq<Map<Seq<char>, int>>) -> Map<Seq<char>, int>
    decreases ms.len(),
{
    if ms.len() == 0 {
        Map::empty()
    } else {
        spec_merge(fold_merge(ms.drop_last()), ms.last())
    }
}

/// A summary holding one stage counter.
pub open spec fn singleton_summary(k: Seq<char>, v: int) -> Map<Seq<char>, int> {
    Map::empty().insert(k, v)
}

/// A mergeable summary of per-stage counters produced by a pipeline run.
pub struct Accumulator {
    items: Vec<(String, u64)>,
}

/// The summary map denoted by an ordered entry list.
pub open spec fn as_summary(s: Seq<(String, u64)>) -> Map<Seq<char>, int>
    decreases s.len(),
{
    if s.len() == 0 {
        Map::empty()
    } else {
        as_summary(s.drop_last()).insert(s.last().0@, s.last().1 as int)
    }
}

impl Accumulator {
    /// The summary this accumulator holds.
    pub closed spec fn view(self) -> Map<Seq<char>, int> {
        as_summary(self.items@)
    }

    /// Stage names are unique in the entry list.
    pub closed spec fn wf(self) -> bool {
        forall|i: int, j: int|
            0 <= i < j < self.items@.len() ==> (#[trigger] self.items@[i]).0@ != (
            #[trigger] self.items@[j]).0@
    }

    /// An empty summary.
    pub fn new() -> (r: Accumulator)
        ensures
            r.wf(),
            r@ == Map::<Seq<char>, int>::empty(),
    {
        Accumulator { items: Vec::new() }
    }

    /// Add `v` to the counter of stage `name`, creating it at `v` if absent;
    /// an overflowing counter saturates.
    pub fn add_other(&mut self, name: &str, v: u64)
        requires
            old(self).wf(),
        ensures
            final(self).wf(),
            final(self)@ == old(self)@.insert(
                name@,
                sat_add(val_of(old(self)@, name@), v as int),
            ),
    {
        let key = String::from_str(name);
        self.add_entry(key, v);
    }

    fn add_entry(&mut self, key: String, v: u64)
        requires
            old(self).wf(),
        ensures
            final(self).wf(),
            final(self)@ == old(self)@.insert(
                key@,
                sat_add(val_of(old(self)@, key@), v as int),
            ),
    {
        let ghost s0 = self.items@;
        let mut i: usize = 0;
        while i < self.items.len()
            invariant
                0 <= i <= self.items@.len(),
                self.items@ == s0,
                old(self).items@ == s0,
                self.wf(),
                forall|j: int| 0 <= j < i ==> (#[trigger] self.items@[j]).0@ != key@,
            decreases self.items@.len() - i,
        {
            if self.items[i].0 == key {
                let cur = self.items[i].1;
                let newv = if v > u64::MAX - cur {
                    u64::MAX
                } else {
                    cur + v
                };
                self.items[i].1 = newv;
                proof {
                    lemma_as_summary_update(s0, i as int, newv);
                    lemma_as_summary_key(s0, i as int);
                    assert(key@ == s0[i as int].0@);
                    assert(self.items@ == s0.update(i as int, (s0[i as int].0, newv)));
                    assert(self@ == as_summary(s0.update(i as int, (s0[i as int].0, newv))));
                    assert(self@ == as_summary(s0).insert(s0[i as int].0@, newv as int));
                    assert(old(self)@ == as_summary(s0));
                    assert(val_of(old(self)@, key@) == s0[i as int].1 as int);
                    assert(newv as int == sat_add(cur as int, v as int));
                    assert(self@ =~= old(self)@.insert(
                        key@,
                        sat_add(val_of(old(self)@, key@), v as int),
                    ));
                }
                return ;
            }
            i = i + 1;
        }
        self.items.push((key, v));
        proof {
            assert(self.items@.drop_last() =~= s0);
            lemma_as_summary_absent(s0, key@);
            assert(self@ =~= old(self)@.insert(
                key@,
                sat_add(val_of(old(self)@, key@), v as int),
            ));
        }
    }

    /// Fold another summary into this one: stage by stage, matching
    /// counters summed. The operation is associative and commutative on
    /// summaries, so worker completion order cannot matter.
    pub fn merge(&mut self, other: &Accumulator)
        requires
            old(self).wf(),
            other.wf(),
        ensures
            final(self).wf(),
            final(self)@ == spec_merge(old(self)@, other@),
    {
        let ghost os = other.items@;
        proof {
            lemma_as_summary_wf(old(self).items@);
            assert(os.take(0) =~= Seq::<(String, u64)>::empty());
            assert(self@ =~= spec_merge(old(self)@, as_summary(os.take(0))));
        }
        let mut i: usize = 0;
        while i < other.items.len()
            invariant
                0 <= i <= other.items@.len(),
                other.items@ == os,
                other.wf(),
                self.wf(),
                self@ == spec_merge(old(self)@, as_summary(os.take(i as int))),
            decreases other.items@.len() - i,
        {
            let ghost pre = self@;
            let key = other.items[i].0.clone();
            let v = other.items[i].1;
            self.add_entry(key, v);
            proof {
                assert(os.take(i + 1).drop_last() =~= os.take(i as int));
                assert(os.take(i + 1).last() == os[i as int]);
                lemma_as_summary_unique_absent(os, i as int);
                lemma_as_summary_wf(old(self).items@);
                lemma_as_summary_wf(os.take(i as int));
                assert(as_summary(os.take(i + 1)) == as_summary(os.take(i as int)).insert(
                    os[i as int].0@,
                    os[i as int].1 as int,
                ));
                assert(self@ =~= spec_merge(old(self)@, as_summary(os.take(i + 1))));
            }
            i = i + 1;
        }
        proof {
            assert(os.take(os.len() as int) =~= os);
        }
    }

    /// The counter for one stage, if present.
    pub fn get(&self, name: &str) -> (r: Option<u64>)
        requires
            self.wf(),
        ensures
            match r {
                Some(v) => self@.dom().contains(name@) && v as int == self@[name@],
                None => !self@.dom().contains(name@),
            },
    {
        let key = String::from_str(name);
        let mut i: usize = 0;
        while i < self.items.len()
            invariant
                0 <= i <= self.items@.len(),
                self.wf(),
                key@ == name@,
                forall|j: int| 0 <= j < i ==> (#[trigger] self.items@[j]).0@ != name@,
            decreases self.items@.len() - i,
        {
            if self.items[i].0 == key {
                proof {
                    lemma_as_summary_key(self.items@, i as int);
                }
                return Some(self.items[i].1);
            }
            i = i + 1;
        }
        proof {
            lemma_as_summary_absent(self.items@, name@);
        }
        None
    }

    /// The number of stages recorded.
    pub closed spec fn spec_len(self) -> int {
        self.items@.len() as int
    }

    pub fn len(&self) -> (r: usize)
        requires
            self.wf(),
        ensures
            r == self.spec_len(),
    {
        self.items.len()
    }
}

/// After updating entry `i` in place, the summary is the old summary with
/// that entry's key rebound.
proof fn lemma_as_summary_update(s: Seq<(String, u64)>, i: int, v: u64)
    requires
        0 <= i < s.len(),
        forall|a: int, b: int|
            0 <= a < b < s.len() ==> (#[trigger] s[a]).0@ != (#[trigger] s[b]).0@,
    ensures
        as_summary(s.update(i, (s[i].0, v))) =~= as_summary(s).insert(s[i].0@, v as int),
    decreases s.len(),
{
    let t = s.update(i, (s[i].0, v));
    if i == s.len() - 1 {
        assert(t.drop_last() =~= s.drop_last());
        assert(t.last() == (s[i].0, v));
    } else {
        lemma_as_summary_update(s.drop_last(), i, v);
        assert(t.drop_last() =~= s.drop_last().update(i, (s[i].0, v)));
        assert(t.last() == s.last());
        assert(s[i].0@ != s.last().0@);
    }
}

/// In a unique-keyed entry list, the summary binds entry `i`'s key to its
/// value.
proof fn lemma_as_summary_key(s: Seq<(String, u64)>, i: int)
    requires
        0 <= i < s.len(),
        forall|a: int, b: int|
            0 <= a < b < s.len() ==> (#[trigger] s[a]).0@ != (#[trigger] s[b]).0@,
    ensures
        as_summary(s).dom().contains(s[i].0@),
        as_summary(s)[s[i].0@] == s[i].1 as int,
    decreases s.len(),
{
    if i == s.len() - 1 {
    } else {
        lemma_as_summary_key(s.drop_last(), i);
        assert(s[i].0@ != s.last().0@);
    }
}

/// A key on no entry of the list is not in its summary.
proof fn lemma_as_summary_absent(s: Seq<(String, u64)>, k: Seq<char>)
    requires
        forall|j: int| 0 <= j < s.len() ==> (#[trigger] s[j]).0@ != k,
    ensures
        !as_summary(s).dom().contains(k),
    decreases s.len(),
{
    if s.len() > 0 {
        lemma_as_summary_absent(s.drop_last(), k);
    }
}

/// Every counter of an entry-list summary is a representable count.
proof fn lemma_as_summary_wf(s: Seq<(String, u64)>)
    ensures
        wf_summary(as_summary(s)),
    decreases s.len(),
{
    if s.len() > 0 {
        lemma_as_summary_wf(s.drop_last());
    }
}

/// In a unique-keyed entry list, entry `i`'s key is absent from the summary
/// of the first `i` entries.
proof fn lemma_as_summary_unique_absent(s: Seq<(String, u64)>, i: int)
    requires
        0 <= i < s.len(),
        forall|a: int, b: int|
            0 <= a < b < s.len() ==> (#[trigger] s[a]).0@ != (#[trigger] s[b]).0@,
    ensures
        !as_summary(s.take(i)).dom().contains(s[i].0@),
{
    assert forall|j: int| 0 <= j < s.take(i).len() implies (#[trigger] s.take(i)[j]).0@
        != s[i].0@ by {
        assert(s.take(i)[j] == s[j]);
    }
    lemma_as_summary_absent(s.take(i), s[i].0@);
}

/// Merging summaries is commutative.
pub proof fn lemma_merge_comm(m1: Map<Seq<char>, int>, m2: Map<Seq<char>, int>)
    ensures
        spec_merge(m1, m2) =~= spec_merge(m2, m1),
{
}

/// Merging summaries of representable counters is associative.
pub proof fn lemma_merge_assoc(
    m1: Map<Seq<char>, int>,
    m2: Map<Seq<char>, int>,
    m3: Map<Seq<char>, int>,
)
    requires
        wf_summary(m1),
        wf_summary(m2),
        wf_summary(m3),
    ensures
        spec_merge(m1, spec_merge(m2, m3)) =~= spec_merge(spec_merge(m1, m2), m3),
{
    assert forall|k: Seq<char>|
        spec_merge(m1, spec_merge(m2, m3)).dom().contains(k) <==> spec_merge(
            spec_merge(m1, m2),
            m3,
        ).dom().contains(k) by {}
}

/// The empty summary is a merge identity.
pub proof fn lemma_merge_identity(m: Map<Seq<char>, int>)
    requires
        wf_summary(m),
    ensures
        spec_merge(Map::empty(), m) =~= m,
        spec_merge(m, Map::empty()) =~= m,
{
}

} // verus!
