use vstd::prelude::*;

use crate::block::PrimitiveBlock;
use crate::elements::{Changetype, Node, Relation, Way};

verus! {

/// The timestamp a record contributes to the statistics: its metadata
/// timestamp, or zero for a record without metadata.
pub open spec fn spec_ts_of_node(n: Node) -> int {
    match n.info {
        Some(inf) => inf.timestamp as int,
        None => 0,
    }
}

/// As `spec_ts_of_node`, for ways.
pub open spec fn spec_ts_of_way(w: Way) -> int {
    match w.info {
        Some(inf) => inf.timestamp as int,
        None => 0,
    }
}

/// As `spec_ts_of_node`, for relations.
pub open spec fn spec_ts_of_rel(r: Relation) -> int {
    match r.info {
        Some(inf) => inf.timestamp as int,
        None => 0,
    }
}

pub open spec fn spec_min(a: int, b: int) -> int {
    if a <= b {
        a
    } else {
        b
    }
}

pub open spec fn spec_max(a: int, b: int) -> int {
    if a >= b {
        a
    } else {
        b
    }
}

/// The total number of references of a way list.
pub open spec fn spec_sum_refs(s: Seq<Way>) -> int
    decreases s.len(),
{
    if s.len() == 0 {
        0
    } else {
        spec_sum_refs(s.drop_last()) + s.last().refs@.len()
    }
}

/// The total number of members of a relation list.
pub open spec fn spec_sum_mems(s: Seq<Relation>) -> int
    decreases s.len(),
{
    if s.len() == 0 {
        0
    } else {
        spec_sum_mems(s.drop_last()) + s.last().members@.len()
    }
}

/// The number of relations of the list with no members at all.
pub open spec fn spec_num_empties(s: Seq<Relation>) -> int
    decreases s.len(),
{
    if s.len() == 0 {
        0
    } else {
        spec_num_empties(s.drop_last()) + (if s.last().members@.len() == 0 {
            1int
        } else {
            0int
        })
    }
}

/// The smallest reference id of a list, the widest sentinel when empty.
pub open spec fn spec_refs_min(refs: Seq<i64>) -> int
    decreases refs.len(),
{
    if refs.len() == 0 {
        i64::MAX as int
    } else {
        spec_min(spec_refs_min(refs.drop_last()), refs.last() as int)
    }
}

/// The largest reference id of a list, the widest sentinel when empty.
pub open spec fn spec_refs_max(refs: Seq<i64>) -> int
    decreases refs.len(),
{
    if refs.len() == 0 {
        i64::MIN as int
    } else {
        spec_max(spec_refs_max(refs.drop_last()), refs.last() as int)
    }
}

/// Summary statistics over the node records seen so far. The extremes start
/// at the widest sentinel values, so a summary with `num == 0` has counted
/// nothing.
#[derive(Clone, Copy, PartialEq, Eq, Structural, Debug)]
pub struct NodeCount {
    pub num: i64,
    pub min_id: i64,
    pub max_id: i64,
    pub min_ts: i64,
    pub max_ts: i64,
    pub min_lon: i32,
    pub min_lat: i32,
    pub max_lon: i32,
    pub max_lat: i32,
}

/// Summary statistics over the way records seen so far, including the
/// count and extremes of their reference ids.
#[derive(Clone, Copy, PartialEq, Eq, Structural, Debug)]
pub struct WayCount {
    pub num: i64,
    pub min_id: i64,
    pub max_id: i64,
    pub min_ts: i64,
    pub max_ts: i64,
    pub num_refs: i64,
    pub max_refs_len: i64,
    pub min_ref: i64,
    pub max_ref: i64,
}

/// Summary statistics over the relation records seen so far, including
/// member totals and the count of member-less relations.
#[derive(Clone, Copy, PartialEq, Eq, Structural, Debug)]
pub struct RelationCount {
    pub num: i64,
    pub min_id: i64,
    pub max_id: i64,
    pub min_ts: i64,
    pub max_ts: i64,
    pub num_mems: i64,
    pub max_mems_len: i64,
    pub num_empties: i64,
}

/// The aggregated statistics of a counting run: one summary per record
/// kind and the number of blocks folded in.
#[derive(Clone, Copy, PartialEq, Eq, Structural, Debug)]
pub struct Count {
    pub node: NodeCount,
    pub way: WayCount,
    pub relation: RelationCount,
    pub num_blocks: i64,
}

impl NodeCount {
    pub fn new() -> (r: NodeCount)
        ensures
            r.num == 0,
            r.min_id == i64::MAX,
            r.max_id == i64::MIN,
            r.min_ts == i64::MAX,
            r.max_ts == i64::MIN,
            r.min_lon == i32::MAX,
            r.min_lat == i32::MAX,
            r.max_lon == i32::MIN,
            r.max_lat == i32::MIN,
    {
        NodeCount {
            num: 0,
            min_id: i64::MAX,
            max_id: i64::MIN,
            min_ts: i64::MAX,
            max_ts: i64::MIN,
            min_lon: i32::MAX,
            min_lat: i32::MAX,
            max_lon: i32::MIN,
            max_lat: i32::MIN,
        }
    }

    /// Fold one node into the summary.
    pub fn add(&mut self, n: &Node)
        requires
            old(self).num < i64::MAX,
        ensures
            final(self).num == old(self).num + 1,
            final(self).min_id == spec_min(old(self).min_id as int, n.id as int),
            final(self).max_id == spec_max(old(self).max_id as int, n.id as int),
            final(self).min_ts == spec_min(old(self).min_ts as int, spec_ts_of_node(*n)),
            final(self).max_ts == spec_max(old(self).max_ts as int, spec_ts_of_node(*n)),
            final(self).min_lon == spec_min(old(self).min_lon as int, n.lon as int),
            final(self).min_lat == spec_min(old(self).min_lat as int, n.lat as int),
            final(self).max_lon == spec_max(old(self).max_lon as int, n.lon as int),
            final(self).max_lat == spec_max(old(self).max_lat as int, n.lat as int),
    {
        let ts = match &n.info {
            Some(inf) => inf.timestamp,
            None => 0,
        };
        self.num = self.num + 1;
        if n.id < self.min_id {
            self.min_id = n.id;
        }
        if n.id > self.max_id {
            self.max_id = n.id;
        }
        if ts < self.min_ts {
            self.min_ts = ts;
        }
        if ts > self.max_ts {
            self.max_ts = ts;
        }
        if n.lon < self.min_lon {
            self.min_lon = n.lon;
        }
        if n.lat < self.min_lat {
            self.min_lat = n.lat;
        }
        if n.lon > self.max_lon {
            self.max_lon = n.lon;
        }
        if n.lat > self.max_lat {
            self.max_lat = n.lat;
        }
    }

    /// Merge another node summary into this one: counts sum, extremes
    /// combine.
    pub fn merge(&mut self, other: &NodeCount)
        requires
            old(self).num >= 0,
            other.num >= 0,
            old(self).num + other.num <= i64::MAX,
        ensures
            *final(self) == spec_nc_merge(*old(self), *other),
    {
        self.num = self.num + other.num;
        if other.min_id < self.min_id {
            self.min_id = other.min_id;
        }
        if other.max_id > self.max_id {
            self.max_id = other.max_id;
        }
        if other.min_ts < self.min_ts {
            self.min_ts = other.min_ts;
        }
        if other.max_ts > self.max_ts {
            self.max_ts = other.max_ts;
        }
        if other.min_lon < self.min_lon {
            self.min_lon = other.min_lon;
        }
        if other.min_lat < self.min_lat {
            self.min_lat = other.min_lat;
        }
        if other.max_lon > self.max_lon {
            self.max_lon = other.max_lon;
        }
        if other.max_lat > self.max_lat {
            self.max_lat = other.max_lat;
        }
    }
}

impl WayCount {
    pub fn new() -> (r: WayCount)
        ensures
            r.num == 0,
            r.min_id == i64::MAX,
            r.max_id == i64::MIN,
            r.min_ts == i64::MAX,
            r.max_ts == i64::MIN,
            r.num_refs == 0,
            r.max_refs_len == 0,
            r.min_ref == i64::MAX,
            r.max_ref == i64::MIN,
    {
        WayCount {
            num: 0,
            min_id: i64::MAX,
            max_id: i64::MIN,
            min_ts: i64::MAX,
            max_ts: i64::MIN,
            num_refs: 0,
            max_refs_len: 0,
            min_ref: i64::MAX,
            max_ref: i64::MIN,
        }
    }

    /// Fold one way into the summary, reference statistics included.
    pub fn add(&mut self, w: &Way)
        requires
            old(self).num < i64::MAX,
            old(self).num_refs >= 0,
            old(self).num_refs + w.refs@.len() <= i64::MAX,
        ensures
            final(self).num == old(self).num + 1,
            final(self).min_id == spec_min(old(self).min_id as int, w.id as int),
            final(self).max_id == spec_max(old(self).max_id as int, w.id as int),
            final(self).min_ts == spec_min(old(self).min_ts as int, spec_ts_of_way(*w)),
            final(self).max_ts == spec_max(old(self).max_ts as int, spec_ts_of_way(*w)),
            final(self).num_refs == old(self).num_refs + w.refs@.len(),
            final(self).max_refs_len == spec_max(
                old(self).max_refs_len as int,
                w.refs@.len() as int,
            ),
            final(self).min_ref == (if w.refs@.len() == 0 {
                old(self).min_ref as int
            } else {
                spec_min(old(self).min_ref as int, spec_refs_min(w.refs@))
            }),
            final(self).max_ref == (if w.refs@.len() == 0 {
                old(self).max_ref as int
            } else {
                spec_max(old(self).max_ref as int, spec_refs_max(w.refs@))
            }),
    {
        let ts = match &w.info {
            Some(inf) => inf.timestamp,
            None => 0,
        };
        self.num = self.num + 1;
        if w.id < self.min_id {
            self.min_id = w.id;
        }
        if w.id > self.max_id {
            self.max_id = w.id;
        }
        if ts < self.min_ts {
            self.min_ts = ts;
        }
        if ts > self.max_ts {
            self.max_ts = ts;
        }
        let nrefs = w.refs.len();
        proof {
            vstd::std_specs::vec::axiom_spec_len(&w.refs);
        }
        self.num_refs = self.num_refs + (nrefs as i64);
        if (nrefs as i64) > self.max_refs_len {
            self.max_refs_len = nrefs as i64;
        }
        let mut lo: i64 = i64::MAX;
        let mut hi: i64 = i64::MIN;
        let mut j: usize = 0;
        while j < w.refs.len()
            invariant
                0 <= j <= w.refs@.len(),
                lo == spec_refs_min(w.refs@.take(j as int)),
                hi == spec_refs_max(w.refs@.take(j as int)),
            decreases w.refs@.len() - j,
        {
            let r = w.refs[j];
            proof {
                assert(w.refs@.take(j + 1).drop_last() =~= w.refs@.take(j as int));
                assert(w.refs@.take(j + 1).last() == w.refs@[j as int]);
            }
            if r < lo {
                lo = r;
            }
            if r > hi {
                hi = r;
            }
            j = j + 1;
        }
        proof {
            assert(w.refs@.take(w.refs@.len() as int) =~= w.refs@);
        }
        if nrefs > 0 {
            if lo < self.min_ref {
                self.min_ref = lo;
            }
            if hi > self.max_ref {
                self.max_ref = hi;
            }
        }
    }

    /// Merge another way summary into this one.
    pub fn merge(&mut self, other: &WayCount)
        requires
            old(self).num >= 0,
            other.num >= 0,
            old(self).num + other.num <= i64::MAX,
            old(self).num_refs >= 0,
            other.num_refs >= 0,
            old(self).num_refs + other.num_refs <= i64::MAX,
        ensures
            *final(self) == spec_wc_merge(*old(self), *other),
    {
        self.num = self.num + other.num;
        self.num_refs = self.num_refs + other.num_refs;
        if other.min_id < self.min_id {
            self.min_id = other.min_id;
        }
        if other.max_id > self.max_id {
            self.max_id = other.max_id;
        }
        if other.min_ts < self.min_ts {
            self.min_ts = other.min_ts;
        }
        if other.max_ts > self.max_ts {
            self.max_ts = other.max_ts;
        }
        if other.max_refs_len > self.max_refs_len {
            self.max_refs_len = other.max_refs_len;
        }
        if other.min_ref < self.min_ref {
            self.min_ref = other.min_ref;
        }
        if other.max_ref > self.max_ref {
            self.max_ref = other.max_ref;
        }
    }
}

impl RelationCount {
    pub fn new() -> (r: RelationCount)
        ensures
            r.num == 0,
            r.min_id == i64::MAX,
            r.max_id == i64::MIN,
            r.min_ts == i64::MAX,
            r.max_ts == i64::MIN,
            r.num_mems == 0,
            r.max_mems_len == 0,
            r.num_empties == 0,
    {
        RelationCount {
            num: 0,
            min_id: i64::MAX,
            max_id: i64::MIN,
            min_ts: i64::MAX,
            max_ts: i64::MIN,
            num_mems: 0,
            max_mems_len: 0,
            num_empties: 0,
        }
    }

    /// Fold one relation into the summary, member statistics included.
    pub fn add(&mut self, rl: &Relation)
        requires
            old(self).num < i64::MAX,
            old(self).num_mems >= 0,
            old(self).num_mems + rl.members@.len() <= i64::MAX,
            old(self).num_empties < i64::MAX,
        ensures
            final(self).num == old(self).num + 1,
            final(self).min_id == spec_min(old(self).min_id as int, rl.id as int),
            final(self).max_id == spec_max(old(self).max_id as int, rl.id as int),
            final(self).min_ts == spec_min(old(self).min_ts as int, spec_ts_of_rel(*rl)),
            final(self).max_ts == spec_max(old(self).max_ts as int, spec_ts_of_rel(*rl)),
            final(self).num_mems == old(self).num_mems + rl.members@.len(),
            final(self).max_mems_len == spec_max(
                old(self).max_mems_len as int,
                rl.members@.len() as int,
            ),
            final(self).num_empties == old(self).num_empties + (if rl.members@.len() == 0 {
                1int
            } else {
                0int
            }),
    {
        let ts = match &rl.info {
            Some(inf) => inf.timestamp,
            None => 0,
        };
        self.num = self.num + 1;
        if rl.id < self.min_id {
            self.min_id = rl.id;
        }
        if rl.id > self.max_id {
            self.max_id = rl.id;
        }
        if ts < self.min_ts {
            self.min_ts = ts;
        }
        if ts > self.max_ts {
            self.max_ts = ts;
        }
        let nm = rl.members.len();
        proof {
            vstd::std_specs::vec::axiom_spec_len(&rl.members);
        }
        self.num_mems = self.num_mems + (nm as i64);
        if (nm as i64) > self.max_mems_len {
            self.max_mems_len = nm as i64;
        }
        if nm == 0 {
            self.num_empties = self.num_empties + 1;
        }
    }

    /// Merge another relation summary into this one.
    pub fn merge(&mut self, other: &RelationCount)
        requires
            old(self).num >= 0,
            other.num >= 0,
            old(self).num + other.num <= i64::MAX,
            old(self).num_mems >= 0,
            other.num_mems >= 0,
            old(self).num_mems + other.num_mems <= i64::MAX,
            old(self).num_empties >= 0,
            other.num_empties >= 0,
            old(self).num_empties + other.num_empties <= i64::MAX,
        ensures
            *final(self) == spec_rc_merge(*old(self), *other),
    {
        self.num = self.num + other.num;
        self.num_mems = self.num_mems + other.num_mems;
        self.num_empties = self.num_empties + other.num_empties;
        if other.min_id < self.min_id {
            self.min_id = other.min_id;
        }
        if other.max_id > self.max_id {
            self.max_id = other.max_id;
        }
        if other.min_ts < self.min_ts {
            self.min_ts = other.min_ts;
        }
        if other.max_ts > self.max_ts {
            self.max_ts = other.max_ts;
        }
        if other.max_mems_len > self.max_mems_len {
            self.max_mems_len = other.max_mems_len;
        }
    }
}

/// The statistics fold one way performs on a summary, as a value.
pub open spec fn spec_wc_add(c: WayCount, w: Way) -> WayCount {
    WayCount {
        num: (c.num + 1) as i64,
        min_id: spec_min(c.min_id as int, w.id as int) as i64,
        max_id: spec_max(c.max_id as int, w.id as int) as i64,
        min_ts: spec_min(c.min_ts as int, spec_ts_of_way(w)) as i64,
        max_ts: spec_max(c.max_ts as int, spec_ts_of_way(w)) as i64,
        num_refs: (c.num_refs + w.refs@.len()) as i64,
        max_refs_len: spec_max(c.max_refs_len as int, w.refs@.len() as int) as i64,
        min_ref: if w.refs@.len() == 0 {
            c.min_ref
        } else {
            spec_min(c.min_ref as int, spec_refs_min(w.refs@)) as i64
        },
        max_ref: if w.refs@.len() == 0 {
            c.max_ref
        } else {
            spec_max(c.max_ref as int, spec_refs_max(w.refs@)) as i64
        },
    }
}

/// The way summary after folding a record list into a starting summary.
pub open spec fn spec_wc_fold(c: WayCount, s: Seq<Way>) -> WayCount
    decreases s.len(),
{
    if s.len() == 0 {
        c
    } else {
        spec_wc_add(spec_wc_fold(c, s.drop_last()), s.last())
    }
}

/// The statistics fold one relation performs on a summary, as a value.
pub open spec fn spec_rc_add(c: RelationCount, rl: Relation) -> RelationCount {
    RelationCount {
        num: (c.num + 1) as i64,
        min_id: spec_min(c.min_id as int, rl.id as int) as i64,
        max_id: spec_max(c.max_id as int, rl.id as int) as i64,
        min_ts: spec_min(c.min_ts as int, spec_ts_of_rel(rl)) as i64,
        max_ts: spec_max(c.max_ts as int, spec_ts_of_rel(rl)) as i64,
        num_mems: (c.num_mems + rl.members@.len()) as i64,
        max_mems_len: spec_max(c.max_mems_len as int, rl.members@.len() as int) as i64,
        num_empties: (c.num_empties + (if rl.members@.len() == 0 {
            1int
        } else {
            0int
        })) as i64,
    }
}

/// The relation summary after folding a record list into a starting
/// summary.
pub open spec fn spec_rc_fold(c: RelationCount, s: Seq<Relation>) -> RelationCount
    decreases s.len(),
{
    if s.len() == 0 {
        c
    } else {
        spec_rc_add(spec_rc_fold(c, s.drop_last()), s.last())
    }
}

impl Count {
    pub fn new() -> (r: Count)
        ensures
            r.num_blocks == 0,
            r.node.num == 0,
            r.way.num == 0,
            r.way.num_refs == 0,
            r.relation.num == 0,
            r.relation.num_mems == 0,
            r.relation.num_empties == 0,
            r.node.min_id == i64::MAX && r.node.max_id == i64::MIN,
            r.way.min_id == i64::MAX && r.way.max_id == i64::MIN,
            r.relation.min_id == i64::MAX && r.relation.max_id == i64::MIN,
    {
        Count {
            node: NodeCount::new(),
            way: WayCount::new(),
            relation: RelationCount::new(),
            num_blocks: 0,
        }
    }

    /// Fold one decoded block into the aggregated statistics: each record
    /// kind's summary is the fold of its per-record add over the block's
    /// list, extremes included, and the block total advances by one.
    pub fn add_primitive(&mut self, bl: &PrimitiveBlock)
        requires
            old(self).num_blocks < i64::MAX,
            old(self).node.num + bl.nodes@.len() <= i64::MAX,
            old(self).way.num + bl.ways@.len() <= i64::MAX,
            old(self).way.num_refs >= 0,
            old(self).way.num_refs + spec_sum_refs(bl.ways@) <= i64::MAX,
            old(self).relation.num + bl.relations@.len() <= i64::MAX,
            old(self).relation.num_mems >= 0,
            old(self).relation.num_mems + spec_sum_mems(bl.relations@) <= i64::MAX,
            old(self).relation.num_empties >= 0,
            old(self).relation.num_empties + bl.relations@.len() <= i64::MAX,
        ensures
            final(self).num_blocks == old(self).num_blocks + 1,
            final(self).node == spec_nc_fold(old(self).node, bl.nodes@),
            final(self).way == spec_wc_fold(old(self).way, bl.ways@),
            final(self).relation == spec_rc_fold(old(self).relation, bl.relations@),
    {
        let mut i: usize = 0;
        while i < bl.nodes.len()
            invariant
                0 <= i <= bl.nodes@.len(),
                old(self).node.num + bl.nodes@.len() <= i64::MAX,
                self.node == spec_nc_fold(old(self).node, bl.nodes@.take(i as int)),
                self.way == old(self).way,
                self.relation == old(self).relation,
                self.num_blocks == old(self).num_blocks,
            decreases bl.nodes@.len() - i,
        {
            let ghost prev = self.node;
            proof {
                lemma_nc_fold_num(old(self).node, bl.nodes@.take(i as int));
            }
            self.node.add(&bl.nodes[i]);
            proof {
                assert(self.node == spec_nc_add(prev, bl.nodes@[i as int]));
                assert(bl.nodes@.take(i + 1).drop_last() =~= bl.nodes@.take(i as int));
                assert(bl.nodes@.take(i + 1).last() == bl.nodes@[i as int]);
            }
            i = i + 1;
        }
        proof {
            assert(bl.nodes@.take(bl.nodes@.len() as int) =~= bl.nodes@);
        }
        let ghost node_done = self.node;
        let mut i: usize = 0;
        while i < bl.ways.len()
            invariant
                0 <= i <= bl.ways@.len(),
                old(self).way.num + bl.ways@.len() <= i64::MAX,
                old(self).way.num_refs >= 0,
                old(self).way.num_refs + spec_sum_refs(bl.ways@) <= i64::MAX,
                self.way == spec_wc_fold(old(self).way, bl.ways@.take(i as int)),
                self.node == node_done,
                self.relation == old(self).relation,
                self.num_blocks == old(self).num_blocks,
            decreases bl.ways@.len() - i,
        {
            let ghost prev = self.way;
            proof {
                lemma_sum_refs_prefix(bl.ways@, i as int);
                lemma_sum_refs_nonneg(bl.ways@.take(i as int));
                lemma_wc_fold_counters(old(self).way, bl.ways@.take(i as int));
            }
            self.way.add(&bl.ways[i]);
            proof {
                lemma_refs_extremes_range(bl.ways@[i as int].refs@);
                assert(self.way == spec_wc_add(prev, bl.ways@[i as int]));
                assert(bl.ways@.take(i + 1).drop_last() =~= bl.ways@.take(i as int));
                assert(bl.ways@.take(i + 1).last() == bl.ways@[i as int]);
            }
            i = i + 1;
        }
        proof {
            assert(bl.ways@.take(bl.ways@.len() as int) =~= bl.ways@);
        }
        let ghost way_done = self.way;
        let mut i: usize = 0;
        while i < bl.relations.len()
            invariant
                0 <= i <= bl.relations@.len(),
                old(self).relation.num + bl.relations@.len() <= i64::MAX,
                old(self).relation.num_mems >= 0,
                old(self).relation.num_mems + spec_sum_mems(bl.relations@) <= i64::MAX,
                old(self).relation.num_empties >= 0,
                old(self).relation.num_empties + bl.relations@.len() <= i64::MAX,
                self.relation == spec_rc_fold(old(self).relation, bl.relations@.take(i as int)),
                self.node == node_done,
                self.way == way_done,
                self.num_blocks == old(self).num_blocks,
            decreases bl.relations@.len() - i,
        {
            let ghost prev = self.relation;
            proof {
                lemma_sum_mems_prefix(bl.relations@, i as int);
                lemma_num_empties_prefix(bl.relations@, i as int);
                lemma_sum_mems_nonneg(bl.relations@.take(i as int));
                lemma_num_empties_bounds(bl.relations@.take(i as int));
                lemma_rc_fold_counters(old(self).relation, bl.relations@.take(i as int));
            }
            self.relation.add(&bl.relations[i]);
            proof {
                assert(self.relation == spec_rc_add(prev, bl.relations@[i as int]));
                assert(bl.relations@.take(i + 1).drop_last() =~= bl.relations@.take(i as int));
                assert(bl.relations@.take(i + 1).last() == bl.relations@[i as int]);
            }
            i = i + 1;
        }
        proof {
            assert(bl.relations@.take(bl.relations@.len() as int) =~= bl.relations@);
        }
        self.num_blocks = self.num_blocks + 1;
    }

    /// Merge another aggregated statistics record into this one, kind by
    /// kind. With the per-kind partition laws, counting any split of a
    /// stream and merging gives the whole stream's statistics.
    pub fn merge(&mut self, other: &Count)
        requires
            old(self).num_blocks >= 0,
            other.num_blocks >= 0,
            old(self).num_blocks + other.num_blocks <= i64::MAX,
            old(self).node.num >= 0,
            other.node.num >= 0,
            old(self).node.num + other.node.num <= i64::MAX,
            old(self).way.num >= 0,
            other.way.num >= 0,
            old(self).way.num + other.way.num <= i64::MAX,
            old(self).way.num_refs >= 0,
            other.way.num_refs >= 0,
            old(self).way.num_refs + other.way.num_refs <= i64::MAX,
            old(self).relation.num >= 0,
            other.relation.num >= 0,
            old(self).relation.num + other.relation.num <= i64::MAX,
            old(self).relation.num_mems >= 0,
            other.relation.num_mems >= 0,
            old(self).relation.num_mems + other.relation.num_mems <= i64::MAX,
            old(self).relation.num_empties >= 0,
            other.relation.num_empties >= 0,
            old(self).relation.num_empties + other.relation.num_empties <= i64::MAX,
        ensures
            final(self).node == spec_nc_merge(old(self).node, other.node),
            final(self).way == spec_wc_merge(old(self).way, other.way),
            final(self).relation == spec_rc_merge(old(self).relation, other.relation),
            final(self).num_blocks == old(self).num_blocks + other.num_blocks,
    {
        self.node.merge(&other.node);
        self.way.merge(&other.way);
        self.relation.merge(&other.relation);
        self.num_blocks = self.num_blocks + other.num_blocks;
    }
}

/// Reference totals over a prefix never exceed the whole, and each step
/// adds the next way's reference count.
proof fn lemma_sum_refs_prefix(s: Seq<Way>, i: int)
    requires
        0 <= i < s.len(),
    ensures
        spec_sum_refs(s.take(i)) + s[i].refs@.len() == spec_sum_refs(s.take(i + 1)),
        spec_sum_refs(s.take(i + 1)) <= spec_sum_refs(s),
    decreases s.len() - i,
{
    assert(s.take(i + 1).drop_last() =~= s.take(i));
    assert(s.take(i + 1).last() == s[i]);
    if i + 1 == s.len() {
        assert(s.take(i + 1) =~= s);
    } else {
        lemma_sum_refs_prefix(s, i + 1);
    }
}

/// As `lemma_sum_refs_prefix`, for member totals.
proof fn lemma_sum_mems_prefix(s: Seq<Relation>, i: int)
    requires
        0 <= i < s.len(),
    ensures
        spec_sum_mems(s.take(i)) + s[i].members@.len() == spec_sum_mems(s.take(i + 1)),
        spec_sum_mems(s.take(i + 1)) <= spec_sum_mems(s),
    decreases s.len() - i,
{
    assert(s.take(i + 1).drop_last() =~= s.take(i));
    assert(s.take(i + 1).last() == s[i]);
    if i + 1 == s.len() {
        assert(s.take(i + 1) =~= s);
    } else {
        lemma_sum_mems_prefix(s, i + 1);
    }
}

/// As `lemma_sum_refs_prefix`, for the member-less count.
proof fn lemma_num_empties_prefix(s: Seq<Relation>, i: int)
    requires
        0 <= i < s.len(),
    ensures
        spec_num_empties(s.take(i)) + (if s[i].members@.len() == 0 {
            1int
        } else {
            0int
        }) == spec_num_empties(s.take(i + 1)),
        spec_num_empties(s.take(i + 1)) <= s.len(),
        spec_num_empties(s.take(i)) >= 0,
    decreases s.len() - i,
{
    assert(s.take(i + 1).drop_last() =~= s.take(i));
    assert(s.take(i + 1).last() == s[i]);
    lemma_num_empties_bounds(s.take(i));
    lemma_num_empties_bounds(s.take(i + 1));
}

/// Reference totals are never negative.
proof fn lemma_sum_refs_nonneg(s: Seq<Way>)
    ensures
        spec_sum_refs(s) >= 0,
    decreases s.len(),
{
    if s.len() > 0 {
        lemma_sum_refs_nonneg(s.drop_last());
    }
}

/// Member totals are never negative.
proof fn lemma_sum_mems_nonneg(s: Seq<Relation>)
    ensures
        spec_sum_mems(s) >= 0,
    decreases s.len(),
{
    if s.len() > 0 {
        lemma_sum_mems_nonneg(s.drop_last());
    }
}

/// The member-less count lies between zero and the list length.
proof fn lemma_num_empties_bounds(s: Seq<Relation>)
    ensures
        0 <= spec_num_empties(s) <= s.len(),
    decreases s.len(),
{
    if s.len() > 0 {
        lemma_num_empties_bounds(s.drop_last());
    }
}

/// A list's reference extremes lie in the signed id range.
proof fn lemma_refs_extremes_range(refs: Seq<i64>)
    ensures
        i64::MIN <= spec_refs_min(refs) <= i64::MAX,
        i64::MIN <= spec_refs_max(refs) <= i64::MAX,
    decreases refs.len(),
{
    if refs.len() > 0 {
        lemma_refs_extremes_range(refs.drop_last());
    }
}

/// A folded way summary counts exactly the starting counters plus the
/// records and references folded in, while the sums stay representable.
pub proof fn lemma_wc_fold_counters(c0: WayCount, s: Seq<Way>)
    requires
        c0.num + s.len() <= i64::MAX,
        c0.num_refs >= 0,
        c0.num_refs + spec_sum_refs(s) <= i64::MAX,
    ensures
        spec_wc_fold(c0, s).num == c0.num + s.len(),
        spec_wc_fold(c0, s).num_refs == c0.num_refs + spec_sum_refs(s),
        spec_wc_fold(c0, s).max_refs_len >= c0.max_refs_len,
    decreases s.len(),
{
    if s.len() > 0 {
        lemma_sum_refs_nonneg(s.drop_last());
        lemma_wc_fold_counters(c0, s.drop_last());
    }
}

/// A folded relation summary counts exactly the starting counters plus the
/// records, members and member-less relations folded in, while the sums
/// stay representable.
pub proof fn lemma_rc_fold_counters(c0: RelationCount, s: Seq<Relation>)
    requires
        c0.num + s.len() <= i64::MAX,
        c0.num_mems >= 0,
        c0.num_mems + spec_sum_mems(s) <= i64::MAX,
        c0.num_empties >= 0,
        c0.num_empties + s.len() <= i64::MAX,
    ensures
        spec_rc_fold(c0, s).num == c0.num + s.len(),
        spec_rc_fold(c0, s).num_mems == c0.num_mems + spec_sum_mems(s),
        spec_rc_fold(c0, s).num_empties == c0.num_empties + spec_num_empties(s),
        0 <= spec_rc_fold(c0, s).num_empties <= c0.num_empties + s.len(),
        spec_rc_fold(c0, s).max_mems_len >= c0.max_mems_len,
    decreases s.len(),
{
    if s.len() > 0 {
        lemma_sum_mems_nonneg(s.drop_last());
        lemma_num_empties_bounds(s.drop_last());
        lemma_rc_fold_counters(c0, s.drop_last());
    }
}

/// The node records of the list carrying one changetype, in order.
pub open spec fn spec_nodes_with_ct(s: Seq<Node>, ct: Changetype) -> Seq<Node>
    decreases s.len(),
{
    if s.len() == 0 {
        Seq::empty()
    } else {
        spec_nodes_with_ct(s.drop_last(), ct) + (if s.last().changetype == ct {
            seq![s.last()]
        } else {
            Seq::empty()
        })
    }
}

/// The way records of the list carrying one changetype, in order.
pub open spec fn spec_ways_with_ct(s: Seq<Way>, ct: Changetype) -> Seq<Way>
    decreases s.len(),
{
    if s.len() == 0 {
        Seq::empty()
    } else {
        spec_ways_with_ct(s.drop_last(), ct) + (if s.last().changetype == ct {
            seq![s.last()]
        } else {
            Seq::empty()
        })
    }
}

/// The relation records of the list carrying one changetype, in order.
pub open spec fn spec_rels_with_ct(s: Seq<Relation>, ct: Changetype) -> Seq<Relation>
    decreases s.len(),
{
    if s.len() == 0 {
        Seq::empty()
    } else {
        spec_rels_with_ct(s.drop_last(), ct) + (if s.last().changetype == ct {
            seq![s.last()]
        } else {
            Seq::empty()
        })
    }
}

/// The statistics fold one node performs on a summary, as a value.
pub open spec fn spec_nc_add(c: NodeCount, n: Node) -> NodeCount {
    NodeCount {
        num: (c.num + 1) as i64,
        min_id: spec_min(c.min_id as int, n.id as int) as i64,
        max_id: spec_max(c.max_id as int, n.id as int) as i64,
        min_ts: spec_min(c.min_ts as int, spec_ts_of_node(n)) as i64,
        max_ts: spec_max(c.max_ts as int, spec_ts_of_node(n)) as i64,
        min_lon: spec_min(c.min_lon as int, n.lon as int) as i32,
        min_lat: spec_min(c.min_lat as int, n.lat as int) as i32,
        max_lon: spec_max(c.max_lon as int, n.lon as int) as i32,
        max_lat: spec_max(c.max_lat as int, n.lat as int) as i32,
    }
}

/// The node summary after folding a record list into a starting summary.
pub open spec fn spec_nc_fold(c: NodeCount, s: Seq<Node>) -> NodeCount
    decreases s.len(),
{
    if s.len() == 0 {
        c
    } else {
        spec_nc_add(spec_nc_fold(c, s.drop_last()), s.last())
    }
}

/// The starting node summary: nothing counted, extremes at the sentinels.
pub open spec fn spec_nc_empty() -> NodeCount {
    NodeCount {
        num: 0,
        min_id: i64::MAX,
        max_id: i64::MIN,
        min_ts: i64::MAX,
        max_ts: i64::MIN,
        min_lon: i32::MAX,
        min_lat: i32::MAX,
        max_lon: i32::MIN,
        max_lat: i32::MIN,
    }
}

/// The starting way summary: nothing counted, extremes at the sentinels.
pub open spec fn spec_wc_empty() -> WayCount {
    WayCount {
        num: 0,
        min_id: i64::MAX,
        max_id: i64::MIN,
        min_ts: i64::MAX,
        max_ts: i64::MIN,
        num_refs: 0,
        max_refs_len: 0,
        min_ref: i64::MAX,
        max_ref: i64::MIN,
    }
}

/// The starting relation summary: nothing counted, extremes at the
/// sentinels.
pub open spec fn spec_rc_empty() -> RelationCount {
    RelationCount {
        num: 0,
        min_id: i64::MAX,
        max_id: i64::MIN,
        min_ts: i64::MAX,
        max_ts: i64::MIN,
        num_mems: 0,
        max_mems_len: 0,
        num_empties: 0,
    }
}

/// The summary an entry list records for one changetype, or the given
/// starting summary when the changetype was never seen.
pub open spec fn cc_lookup<T>(s: Seq<(Changetype, T)>, ct: Changetype, dflt: T) -> T {
    if exists|i: int| 0 <= i < s.len() && (#[trigger] s[i]).0 == ct {
        s[choose|i: int| 0 <= i < s.len() && (#[trigger] s[i]).0 == ct].1
    } else {
        dflt
    }
}

/// Each changetype appears at most once in the entry list.
pub open spec fn cc_unique<T>(s: Seq<(Changetype, T)>) -> bool {
    forall|i: int, j: int| 0 <= i < j < s.len() ==> (#[trigger] s[i]).0 != (#[trigger] s[j]).0
}

/// Lookups agree on a changetype between two entry lists.
spec fn cc_get_eq<T>(
    s0: Seq<(Changetype, T)>,
    s1: Seq<(Changetype, T)>,
    ct: Changetype,
    dflt: T,
) -> bool {
    cc_lookup(s1, ct, dflt) == cc_lookup(s0, ct, dflt)
}

/// Updating one entry in place leaves every other changetype's lookup
/// unchanged.
proof fn lemma_cc_update_other<T>(
    s0: Seq<(Changetype, T)>,
    s1: Seq<(Changetype, T)>,
    i: int,
    ct: Changetype,
    dflt: T,
)
    requires
        0 <= i < s0.len(),
        s1.len() == s0.len(),
        s1[i].0 == s0[i].0,
        ct != s0[i].0,
        cc_unique(s0),
        forall|j: int| 0 <= j < s0.len() && j != i ==> #[trigger] s1[j] == s0[j],
    ensures
        cc_get_eq(s0, s1, ct, dflt),
{
    assert forall|k: int| 0 <= k < s0.len() implies (#[trigger] s1[k]).0 == s0[k].0 by {}
    if exists|k: int| 0 <= k < s1.len() && (#[trigger] s1[k]).0 == ct {
        let k = choose|k: int| 0 <= k < s1.len() && (#[trigger] s1[k]).0 == ct;
        assert(s0[k].0 == ct);
        let k0 = choose|k0: int| 0 <= k0 < s0.len() && (#[trigger] s0[k0]).0 == ct;
        assert(s1[k0].0 == ct);
        assert(k0 == k);
        assert(k != i);
        assert(s1[k] == s0[k]);
    } else if exists|k: int| 0 <= k < s0.len() && (#[trigger] s0[k]).0 == ct {
        let k = choose|k: int| 0 <= k < s0.len() && (#[trigger] s0[k]).0 == ct;
        assert(s1[k].0 == ct);
    }
}

/// Appending a new changetype's entry leaves every other changetype's
/// lookup unchanged.
proof fn lemma_cc_push_other<T>(
    s0: Seq<(Changetype, T)>,
    s1: Seq<(Changetype, T)>,
    ct: Changetype,
    dflt: T,
)
    requires
        s1.len() == s0.len() + 1,
        s1.drop_last() =~= s0,
        ct != s1.last().0,
        cc_unique(s0),
    ensures
        cc_get_eq(s0, s1, ct, dflt),
{
    assert forall|j: int| 0 <= j < s0.len() implies #[trigger] s1[j] == s0[j] by {
        assert(s1.drop_last()[j] == s1[j]);
    }
    if exists|k: int| 0 <= k < s1.len() && (#[trigger] s1[k]).0 == ct {
        let k = choose|k: int| 0 <= k < s1.len() && (#[trigger] s1[k]).0 == ct;
        assert(k < s1.len() - 1);
        assert(s0[k].0 == ct);
        let k0 = choose|k0: int| 0 <= k0 < s0.len() && (#[trigger] s0[k0]).0 == ct;
        assert(s1[k0].0 == ct);
        assert(k0 == k);
        assert(s1[k] == s0[k]);
    } else if exists|k: int| 0 <= k < s0.len() && (#[trigger] s0[k]).0 == ct {
        let k = choose|k: int| 0 <= k < s0.len() && (#[trigger] s0[k]).0 == ct;
        assert(s1[k].0 == ct);
    }
}

/// Statistics grouped by changetype, as a change-aware counting run
/// reports them: one summary per record kind and changetype seen, plus the
/// folded block total.
pub struct CountChange {
    node_entries: Vec<(Changetype, NodeCount)>,
    way_entries: Vec<(Changetype, WayCount)>,
    rel_entries: Vec<(Changetype, RelationCount)>,
    num_blocks: i64,
}

impl CountChange {
    /// The number of blocks folded in.
    pub closed spec fn spec_num_blocks(self) -> int {
        self.num_blocks as int
    }

    pub fn num_blocks(&self) -> (r: i64)
        ensures
            r == self.spec_num_blocks(),
    {
        self.num_blocks
    }

    /// The node summary recorded for one changetype; the empty summary for
    /// one never seen.
    pub closed spec fn spec_get_node(self, ct: Changetype) -> NodeCount {
        cc_lookup(self.node_entries@, ct, spec_nc_empty())
    }

    /// As `spec_get_node`, for ways.
    pub closed spec fn spec_get_way(self, ct: Changetype) -> WayCount {
        cc_lookup(self.way_entries@, ct, spec_wc_empty())
    }

    /// As `spec_get_node`, for relations.
    pub closed spec fn spec_get_relation(self, ct: Changetype) -> RelationCount {
        cc_lookup(self.rel_entries@, ct, spec_rc_empty())
    }

    /// Each changetype appears at most once per record kind.
    pub closed spec fn wf(self) -> bool {
        cc_unique(self.node_entries@) && cc_unique(self.way_entries@) && cc_unique(
            self.rel_entries@,
        )
    }

    pub fn new() -> (r: CountChange)
        ensures
            r.wf(),
            r.spec_num_blocks() == 0,
            forall|ct: Changetype| #[trigger] r.spec_get_node(ct) == spec_nc_empty(),
            forall|ct: Changetype| #[trigger] r.spec_get_way(ct) == spec_wc_empty(),
            forall|ct: Changetype| #[trigger] r.spec_get_relation(ct) == spec_rc_empty(),
    {
        CountChange {
            node_entries: Vec::new(),
            way_entries: Vec::new(),
            rel_entries: Vec::new(),
            num_blocks: 0,
        }
    }

    /// The recorded node summary for one changetype, if any node carried
    /// it.
    pub fn get_node(&self, ct: Changetype) -> (r: Option<NodeCount>)
        requires
            self.wf(),
        ensures
            match r {
                Some(c) => c == self.spec_get_node(ct) && c != spec_nc_empty(),
                None => self.spec_get_node(ct) == spec_nc_empty(),
            },
    {
        let mut i: usize = 0;
        while i < self.node_entries.len()
            invariant
                0 <= i <= self.node_entries@.len(),
                self.wf(),
                forall|j: int| 0 <= j < i ==> (#[trigger] self.node_entries@[j]).0 != ct,
            decreases self.node_entries@.len() - i,
        {
            if self.node_entries[i].0 == ct {
                proof {
                    let j = choose|j: int|
                        0 <= j < self.node_entries@.len() && (#[trigger] self.node_entries@[j]).0
                            == ct;
                    assert(j == i);
                }
                let c = self.node_entries[i].1;
                if c == NodeCount::new() {
                    return None;
                }
                return Some(c);
            }
            i = i + 1;
        }
        None
    }

    /// The recorded way summary for one changetype, if any way carried it.
    pub fn get_way(&self, ct: Changetype) -> (r: Option<WayCount>)
        requires
            self.wf(),
        ensures
            match r {
                Some(c) => c == self.spec_get_way(ct) && c != spec_wc_empty(),
                None => self.spec_get_way(ct) == spec_wc_empty(),
            },
    {
        let mut i: usize = 0;
        while i < self.way_entries.len()
            invariant
                0 <= i <= self.way_entries@.len(),
                self.wf(),
                forall|j: int| 0 <= j < i ==> (#[trigger] self.way_entries@[j]).0 != ct,
            decreases self.way_entries@.len() - i,
        {
            if self.way_entries[i].0 == ct {
                proof {
                    let j = choose|j: int|
                        0 <= j < self.way_entries@.len() && (#[trigger] self.way_entries@[j]).0
                            == ct;
                    assert(j == i);
                }
                let c = self.way_entries[i].1;
                if c == WayCount::new() {
                    return None;
                }
                return Some(c);
            }
            i = i + 1;
        }
        None
    }

    /// The recorded relation summary for one changetype, if any relation
    /// carried it.
    pub fn get_relation(&self, ct: Changetype) -> (r: Option<RelationCount>)
        requires
            self.wf(),
        ensures
            match r {
                Some(c) => c == self.spec_get_relation(ct) && c != spec_rc_empty(),
                None => self.spec_get_relation(ct) == spec_rc_empty(),
            },
    {
        let mut i: usize = 0;
        while i < self.rel_entries.len()
            invariant
                0 <= i <= self.rel_entries@.len(),
                self.wf(),
                forall|j: int| 0 <= j < i ==> (#[trigger] self.rel_entries@[j]).0 != ct,
            decreases self.rel_entries@.len() - i,
        {
            if self.rel_entries[i].0 == ct {
                proof {
                    let j = choose|j: int|
                        0 <= j < self.rel_entries@.len() && (#[trigger] self.rel_entries@[j]).0
                            == ct;
                    assert(j == i);
                }
                let c = self.rel_entries[i].1;
                if c == RelationCount::new() {
                    return None;
                }
                return Some(c);
            }
            i = i + 1;
        }
        None
    }

    /// Fold one node into the summary of its changetype, creating that
    /// summary on first sight.
    fn add_node(&mut self, n: &Node)
        requires
            old(self).wf(),
            old(self).spec_get_node(n.changetype).num < i64::MAX,
        ensures
            final(self).wf(),
            final(self).spec_num_blocks() == old(self).spec_num_blocks(),
            final(self).way_entries@ == old(self).way_entries@,
            final(self).rel_entries@ == old(self).rel_entries@,
            final(self).spec_get_node(n.changetype) == spec_nc_add(
                old(self).spec_get_node(n.changetype),
                *n,
            ),
            forall|ct: Changetype|
                ct != n.changetype ==> #[trigger] final(self).spec_get_node(ct) == old(
                    self,
                ).spec_get_node(ct),
    {
        let ghost s0 = self.node_entries@;
        let mut i: usize = 0;
        while i < self.node_entries.len()
            invariant
                0 <= i <= self.node_entries@.len(),
                self.node_entries@ == s0,
                old(self).node_entries@ == s0,
                self.way_entries@ == old(self).way_entries@,
                self.rel_entries@ == old(self).rel_entries@,
                self.num_blocks == old(self).num_blocks,
                self.wf(),
                old(self).spec_get_node(n.changetype).num < i64::MAX,
                forall|j: int| 0 <= j < i ==> (#[trigger] self.node_entries@[j]).0 != n.changetype,
            decreases self.node_entries@.len() - i,
        {
            if self.node_entries[i].0 == n.changetype {
                proof {
                    assert(s0[i as int].0 == n.changetype);
                    let j = choose|j: int| 0 <= j < s0.len() && (#[trigger] s0[j]).0 == n.changetype;
                    assert(j == i);
                    assert(old(self).spec_get_node(n.changetype) == s0[i as int].1);
                }
                let entry = &mut self.node_entries[i];
                entry.1.add(n);
                proof {
                    let s1 = self.node_entries@;
                    assert(s1 =~= s0.update(i as int, (s0[i as int].0, s1[i as int].1)));
                    assert forall|k: int| 0 <= k < s0.len() implies (#[trigger] s1[k]).0
                        == s0[k].0 by {}
                    assert forall|a: int, b: int| 0 <= a < b < s1.len() implies (
                    #[trigger] s1[a]).0 != (#[trigger] s1[b]).0 by {
                        assert(s1[a].0 == s0[a].0);
                        assert(s1[b].0 == s0[b].0);
                    }
                    assert forall|ct: Changetype|
                        ct != n.changetype implies #[trigger] self.spec_get_node(ct) == old(
                            self,
                        ).spec_get_node(ct) by {
                        lemma_cc_update_other(s0, s1, i as int, ct, spec_nc_empty());
                        assert(cc_get_eq(s0, s1, ct, spec_nc_empty()));
                    }
                    assert(s1[i as int].0 == n.changetype);
                    let j2 = choose|j: int|
                        0 <= j < s1.len() && (#[trigger] s1[j]).0 == n.changetype;
                    assert(j2 == i);
                    assert(self.spec_get_node(n.changetype) == s1[i as int].1);
                    assert(s1[i as int].1 == spec_nc_add(s0[i as int].1, *n));
                }
                return ;
            }
            i = i + 1;
        }
        let mut c = NodeCount::new();
        c.add(n);
        self.node_entries.push((n.changetype, c));
        proof {
            let s1 = self.node_entries@;
            assert(s1.drop_last() =~= s0);
            assert(s1.last().0 == n.changetype);
            assert forall|j: int| 0 <= j < s0.len() implies #[trigger] s1[j] == s0[j] by {
                assert(s1.drop_last()[j] == s1[j]);
            }
            assert forall|a: int, b: int| 0 <= a < b < s1.len() implies (#[trigger] s1[a]).0 != (
            #[trigger] s1[b]).0 by {
                if b == s1.len() - 1 {
                    assert(s1[a] == s0[a]);
                    assert(s1[b].0 == n.changetype);
                } else {
                    assert(s1[a] == s0[a]);
                    assert(s1[b] == s0[b]);
                }
            }
            assert forall|ct: Changetype|
                ct != n.changetype implies #[trigger] self.spec_get_node(ct) == old(
                    self,
                ).spec_get_node(ct) by {
                lemma_cc_push_other(s0, s1, ct, spec_nc_empty());
                assert(cc_get_eq(s0, s1, ct, spec_nc_empty()));
            }
            assert(s1[s1.len() - 1].0 == n.changetype);
            let j2 = choose|j: int| 0 <= j < s1.len() && (#[trigger] s1[j]).0 == n.changetype;
            assert(j2 == s1.len() - 1);
            assert(self.spec_get_node(n.changetype) == s1[s1.len() - 1].1);
            assert(!(exists|j: int| 0 <= j < s0.len() && (#[trigger] s0[j]).0 == n.changetype));
            assert(old(self).spec_get_node(n.changetype) == spec_nc_empty());
            assert(s1[s1.len() - 1].1 == spec_nc_add(spec_nc_empty(), *n));
        }
    }

    /// Fold one way into the summary of its changetype, creating that
    /// summary on first sight.
    fn add_way(&mut self, w: &Way)
        requires
            old(self).wf(),
            old(self).spec_get_way(w.changetype).num < i64::MAX,
            old(self).spec_get_way(w.changetype).num_refs >= 0,
            old(self).spec_get_way(w.changetype).num_refs + w.refs@.len() <= i64::MAX,
        ensures
            final(self).wf(),
            final(self).spec_num_blocks() == old(self).spec_num_blocks(),
            final(self).node_entries@ == old(self).node_entries@,
            final(self).rel_entries@ == old(self).rel_entries@,
            final(self).spec_get_way(w.changetype) == spec_wc_add(
                old(self).spec_get_way(w.changetype),
                *w,
            ),
            forall|ct: Changetype|
                ct != w.changetype ==> #[trigger] final(self).spec_get_way(ct) == old(
                    self,
                ).spec_get_way(ct),
    {
        let ghost s0 = self.way_entries@;
        let mut i: usize = 0;
        while i < self.way_entries.len()
            invariant
                0 <= i <= self.way_entries@.len(),
                self.way_entries@ == s0,
                old(self).way_entries@ == s0,
                self.node_entries@ == old(self).node_entries@,
                self.rel_entries@ == old(self).rel_entries@,
                self.num_blocks == old(self).num_blocks,
                self.wf(),
                old(self).spec_get_way(w.changetype).num < i64::MAX,
                old(self).spec_get_way(w.changetype).num_refs >= 0,
                old(self).spec_get_way(w.changetype).num_refs + w.refs@.len() <= i64::MAX,
                forall|j: int| 0 <= j < i ==> (#[trigger] self.way_entries@[j]).0 != w.changetype,
            decreases self.way_entries@.len() - i,
        {
            if self.way_entries[i].0 == w.changetype {
                proof {
                    assert(s0[i as int].0 == w.changetype);
                    let j = choose|j: int| 0 <= j < s0.len() && (#[trigger] s0[j]).0 == w.changetype;
                    assert(j == i);
                    assert(old(self).spec_get_way(w.changetype) == s0[i as int].1);
                }
                let entry = &mut self.way_entries[i];
                entry.1.add(w);
                proof {
                    let s1 = self.way_entries@;
                    assert(s1 =~= s0.update(i as int, (s0[i as int].0, s1[i as int].1)));
                    assert forall|k: int| 0 <= k < s0.len() implies (#[trigger] s1[k]).0
                        == s0[k].0 by {}
                    assert forall|a: int, b: int| 0 <= a < b < s1.len() implies (
                    #[trigger] s1[a]).0 != (#[trigger] s1[b]).0 by {
                        assert(s1[a].0 == s0[a].0);
                        assert(s1[b].0 == s0[b].0);
                    }
                    assert forall|ct: Changetype|
                        ct != w.changetype implies #[trigger] self.spec_get_way(ct) == old(
                            self,
                        ).spec_get_way(ct) by {
                        lemma_cc_update_other(s0, s1, i as int, ct, spec_wc_empty());
                        assert(cc_get_eq(s0, s1, ct, spec_wc_empty()));
                    }
                    assert(s1[i as int].0 == w.changetype);
                    let j2 = choose|j: int|
                        0 <= j < s1.len() && (#[trigger] s1[j]).0 == w.changetype;
                    assert(j2 == i);
                    assert(self.spec_get_way(w.changetype) == s1[i as int].1);
                    lemma_refs_extremes_range(w.refs@);
                    assert(s1[i as int].1 == spec_wc_add(s0[i as int].1, *w));
                }
                return ;
            }
            i = i + 1;
        }
        let mut c = WayCount::new();
        c.add(w);
        self.way_entries.push((w.changetype, c));
        proof {
            let s1 = self.way_entries@;
            assert(s1.drop_last() =~= s0);
            assert(s1.last().0 == w.changetype);
            assert forall|j: int| 0 <= j < s0.len() implies #[trigger] s1[j] == s0[j] by {
                assert(s1.drop_last()[j] == s1[j]);
            }
            assert forall|a: int, b: int| 0 <= a < b < s1.len() implies (#[trigger] s1[a]).0 != (
            #[trigger] s1[b]).0 by {
                if b == s1.len() - 1 {
                    assert(s1[a] == s0[a]);
                    assert(s1[b].0 == w.changetype);
                } else {
                    assert(s1[a] == s0[a]);
                    assert(s1[b] == s0[b]);
                }
            }
            assert forall|ct: Changetype|
                ct != w.changetype implies #[trigger] self.spec_get_way(ct) == old(
                    self,
                ).spec_get_way(ct) by {
                lemma_cc_push_other(s0, s1, ct, spec_wc_empty());
                assert(cc_get_eq(s0, s1, ct, spec_wc_empty()));
            }
            assert(s1[s1.len() - 1].0 == w.changetype);
            let j2 = choose|j: int| 0 <= j < s1.len() && (#[trigger] s1[j]).0 == w.changetype;
            assert(j2 == s1.len() - 1);
            assert(self.spec_get_way(w.changetype) == s1[s1.len() - 1].1);
            assert(!(exists|j: int| 0 <= j < s0.len() && (#[trigger] s0[j]).0 == w.changetype));
            assert(old(self).spec_get_way(w.changetype) == spec_wc_empty());
            lemma_refs_extremes_range(w.refs@);
            assert(s1[s1.len() - 1].1 == spec_wc_add(spec_wc_empty(), *w));
        }
    }

    /// Fold one relation into the summary of its changetype, creating that
    /// summary on first sight.
    fn add_relation(&mut self, rl: &Relation)
        requires
            old(self).wf(),
            old(self).spec_get_relation(rl.changetype).num < i64::MAX,
            old(self).spec_get_relation(rl.changetype).num_mems >= 0,
            old(self).spec_get_relation(rl.changetype).num_mems + rl.members@.len() <= i64::MAX,
            old(self).spec_get_relation(rl.changetype).num_empties < i64::MAX,
        ensures
            final(self).wf(),
            final(self).spec_num_blocks() == old(self).spec_num_blocks(),
            final(self).node_entries@ == old(self).node_entries@,
            final(self).way_entries@ == old(self).way_entries@,
            final(self).spec_get_relation(rl.changetype) == spec_rc_add(
                old(self).spec_get_relation(rl.changetype),
                *rl,
            ),
            forall|ct: Changetype|
                ct != rl.changetype ==> #[trigger] final(self).spec_get_relation(ct) == old(
                    self,
                ).spec_get_relation(ct),
    {
        let ghost s0 = self.rel_entries@;
        let mut i: usize = 0;
        while i < self.rel_entries.len()
            invariant
                0 <= i <= self.rel_entries@.len(),
                self.rel_entries@ == s0,
                old(self).rel_entries@ == s0,
                self.node_entries@ == old(self).node_entries@,
                self.way_entries@ == old(self).way_entries@,
                self.num_blocks == old(self).num_blocks,
                self.wf(),
                old(self).spec_get_relation(rl.changetype).num < i64::MAX,
                old(self).spec_get_relation(rl.changetype).num_mems >= 0,
                old(self).spec_get_relation(rl.changetype).num_mems + rl.members@.len()
                    <= i64::MAX,
                old(self).spec_get_relation(rl.changetype).num_empties < i64::MAX,
                forall|j: int| 0 <= j < i ==> (#[trigger] self.rel_entries@[j]).0 != rl.changetype,
            decreases self.rel_entries@.len() - i,
        {
            if self.rel_entries[i].0 == rl.changetype {
                proof {
                    assert(s0[i as int].0 == rl.changetype);
                    let j = choose|j: int|
                        0 <= j < s0.len() && (#[trigger] s0[j]).0 == rl.changetype;
                    assert(j == i);
                    assert(old(self).spec_get_relation(rl.changetype) == s0[i as int].1);
                }
                let entry = &mut self.rel_entries[i];
                entry.1.add(rl);
                proof {
                    let s1 = self.rel_entries@;
                    assert(s1 =~= s0.update(i as int, (s0[i as int].0, s1[i as int].1)));
                    assert forall|k: int| 0 <= k < s0.len() implies (#[trigger] s1[k]).0
                        == s0[k].0 by {}
                    assert forall|a: int, b: int| 0 <= a < b < s1.len() implies (
                    #[trigger] s1[a]).0 != (#[trigger] s1[b]).0 by {
                        assert(s1[a].0 == s0[a].0);
                        assert(s1[b].0 == s0[b].0);
                    }
                    assert forall|ct: Changetype|
                        ct != rl.changetype implies #[trigger] self.spec_get_relation(ct) == old(
                            self,
                        ).spec_get_relation(ct) by {
                        lemma_cc_update_other(s0, s1, i as int, ct, spec_rc_empty());
                        assert(cc_get_eq(s0, s1, ct, spec_rc_empty()));
                    }
                    assert(s1[i as int].0 == rl.changetype);
                    let j2 = choose|j: int|
                        0 <= j < s1.len() && (#[trigger] s1[j]).0 == rl.changetype;
                    assert(j2 == i);
                    assert(self.spec_get_relation(rl.changetype) == s1[i as int].1);
                    assert(s1[i as int].1 == spec_rc_add(s0[i as int].1, *rl));
                }
                return ;
            }
            i = i + 1;
        }
        let mut c = RelationCount::new();
        c.add(rl);
        self.rel_entries.push((rl.changetype, c));
        proof {
            let s1 = self.rel_entries@;
            assert(s1.drop_last() =~= s0);
            assert(s1.last().0 == rl.changetype);
            assert forall|j: int| 0 <= j < s0.len() implies #[trigger] s1[j] == s0[j] by {
                assert(s1.drop_last()[j] == s1[j]);
            }
            assert forall|a: int, b: int| 0 <= a < b < s1.len() implies (#[trigger] s1[a]).0 != (
            #[trigger] s1[b]).0 by {
                if b == s1.len() - 1 {
                    assert(s1[a] == s0[a]);
                    assert(s1[b].0 == rl.changetype);
                } else {
                    assert(s1[a] == s0[a]);
                    assert(s1[b] == s0[b]);
                }
            }
            assert forall|ct: Changetype|
                ct != rl.changetype implies #[trigger] self.spec_get_relation(ct) == old(
                    self,
                ).spec_get_relation(ct) by {
                lemma_cc_push_other(s0, s1, ct, spec_rc_empty());
                assert(cc_get_eq(s0, s1, ct, spec_rc_empty()));
            }
            assert(s1[s1.len() - 1].0 == rl.changetype);
            let j2 = choose|j: int| 0 <= j < s1.len() && (#[trigger] s1[j]).0 == rl.changetype;
            assert(j2 == s1.len() - 1);
            assert(self.spec_get_relation(rl.changetype) == s1[s1.len() - 1].1);
            assert(!(exists|j: int| 0 <= j < s0.len() && (#[trigger] s0[j]).0 == rl.changetype));
            assert(old(self).spec_get_relation(rl.changetype) == spec_rc_empty());
            assert(s1[s1.len() - 1].1 == spec_rc_add(spec_rc_empty(), *rl));
        }
    }

    /// Fold every record of a block into the per-changetype summaries of
    /// its kind and advance the block total: each group's summary is the
    /// fold of its records, extremes included.
    pub fn add_primitive(&mut self, bl: &PrimitiveBlock)
        requires
            old(self).wf(),
            old(self).spec_num_blocks() < i64::MAX,
            forall|ct: Changetype|
                (#[trigger] old(self).spec_get_node(ct)).num + bl.nodes@.len() <= i64::MAX,
            forall|ct: Changetype|
                (#[trigger] old(self).spec_get_way(ct)).num + bl.ways@.len() <= i64::MAX,
            forall|ct: Changetype| (#[trigger] old(self).spec_get_way(ct)).num_refs >= 0,
            forall|ct: Changetype|
                (#[trigger] old(self).spec_get_way(ct)).num_refs + spec_sum_refs(bl.ways@)
                    <= i64::MAX,
            forall|ct: Changetype|
                (#[trigger] old(self).spec_get_relation(ct)).num + bl.relations@.len()
                    <= i64::MAX,
            forall|ct: Changetype| (#[trigger] old(self).spec_get_relation(ct)).num_mems >= 0,
            forall|ct: Changetype|
                (#[trigger] old(self).spec_get_relation(ct)).num_mems + spec_sum_mems(
                    bl.relations@,
                ) <= i64::MAX,
            forall|ct: Changetype| (#[trigger] old(self).spec_get_relation(ct)).num_empties >= 0,
            forall|ct: Changetype|
                (#[trigger] old(self).spec_get_relation(ct)).num_empties + bl.relations@.len()
                    <= i64::MAX,
        ensures
            final(self).wf(),
            final(self).spec_num_blocks() == old(self).spec_num_blocks() + 1,
            forall|ct: Changetype|
                #[trigger] final(self).spec_get_node(ct) == spec_nc_fold(
                    old(self).spec_get_node(ct),
                    spec_nodes_with_ct(bl.nodes@, ct),
                ),
            forall|ct: Changetype|
                #[trigger] final(self).spec_get_way(ct) == spec_wc_fold(
                    old(self).spec_get_way(ct),
                    spec_ways_with_ct(bl.ways@, ct),
                ),
            forall|ct: Changetype|
                #[trigger] final(self).spec_get_relation(ct) == spec_rc_fold(
                    old(self).spec_get_relation(ct),
                    spec_rels_with_ct(bl.relations@, ct),
                ),
    {
        let mut i: usize = 0;
        while i < bl.nodes.len()
            invariant
                0 <= i <= bl.nodes@.len(),
                self.wf(),
                self.num_blocks == old(self).num_blocks,
                self.way_entries@ == old(self).way_entries@,
                self.rel_entries@ == old(self).rel_entries@,
                old(self).spec_num_blocks() < i64::MAX,
                forall|ct: Changetype|
                    (#[trigger] old(self).spec_get_node(ct)).num + bl.nodes@.len() <= i64::MAX,
                forall|ct: Changetype|
                    #[trigger] self.spec_get_node(ct) == spec_nc_fold(
                        old(self).spec_get_node(ct),
                        spec_nodes_with_ct(bl.nodes@.take(i as int), ct),
                    ),
            decreases bl.nodes@.len() - i,
        {
            proof {
                let cti = bl.nodes@[i as int].changetype;
                lemma_nodes_with_ct_len(bl.nodes@.take(i as int), cti);
                lemma_nc_fold_num(
                    old(self).spec_get_node(cti),
                    spec_nodes_with_ct(bl.nodes@.take(i as int), cti),
                );
                assert(self.spec_get_node(cti) == spec_nc_fold(
                    old(self).spec_get_node(cti),
                    spec_nodes_with_ct(bl.nodes@.take(i as int), cti),
                ));
            }
            self.add_node(&bl.nodes[i]);
            proof {
                assert(bl.nodes@.take(i + 1).drop_last() =~= bl.nodes@.take(i as int));
                assert(bl.nodes@.take(i + 1).last() == bl.nodes@[i as int]);
                assert forall|ct: Changetype|
                    #[trigger] self.spec_get_node(ct) == spec_nc_fold(
                        old(self).spec_get_node(ct),
                        spec_nodes_with_ct(bl.nodes@.take(i + 1), ct),
                    ) by {
                    if ct == bl.nodes@[i as int].changetype {
                        assert(spec_nodes_with_ct(bl.nodes@.take(i + 1), ct)
                            =~= spec_nodes_with_ct(bl.nodes@.take(i as int), ct).push(
                            bl.nodes@[i as int],
                        ));
                        lemma_nc_fold_push(
                            old(self).spec_get_node(ct),
                            spec_nodes_with_ct(bl.nodes@.take(i as int), ct),
                            bl.nodes@[i as int],
                        );
                    } else {
                        assert(spec_nodes_with_ct(bl.nodes@.take(i + 1), ct)
                            =~= spec_nodes_with_ct(bl.nodes@.take(i as int), ct));
                    }
                }
            }
            i = i + 1;
        }
        let ghost nodes_done = self.node_entries@;
        proof {
            assert(bl.nodes@.take(bl.nodes@.len() as int) =~= bl.nodes@);
            assert forall|ct: Changetype|
                #[trigger] cc_lookup(nodes_done, ct, spec_nc_empty()) == spec_nc_fold(
                    old(self).spec_get_node(ct),
                    spec_nodes_with_ct(bl.nodes@, ct),
                ) by {
                assert(self.spec_get_node(ct) == cc_lookup(nodes_done, ct, spec_nc_empty()));
                assert(self.spec_get_node(ct) == spec_nc_fold(
                    old(self).spec_get_node(ct),
                    spec_nodes_with_ct(bl.nodes@.take(bl.nodes@.len() as int), ct),
                ));
            }
        }
        let mut i: usize = 0;
        while i < bl.ways.len()
            invariant
                0 <= i <= bl.ways@.len(),
                self.wf(),
                self.num_blocks == old(self).num_blocks,
                self.node_entries@ == nodes_done,
                self.rel_entries@ == old(self).rel_entries@,
                forall|ct: Changetype|
                    (#[trigger] old(self).spec_get_way(ct)).num + bl.ways@.len() <= i64::MAX,
                forall|ct: Changetype| (#[trigger] old(self).spec_get_way(ct)).num_refs >= 0,
                forall|ct: Changetype|
                    (#[trigger] old(self).spec_get_way(ct)).num_refs + spec_sum_refs(bl.ways@)
                        <= i64::MAX,
                forall|ct: Changetype|
                    #[trigger] self.spec_get_way(ct) == spec_wc_fold(
                        old(self).spec_get_way(ct),
                        spec_ways_with_ct(bl.ways@.take(i as int), ct),
                    ),
            decreases bl.ways@.len() - i,
        {
            proof {
                let cti = bl.ways@[i as int].changetype;
                let grp = spec_ways_with_ct(bl.ways@.take(i as int), cti);
                lemma_ways_with_ct_len(bl.ways@.take(i as int), cti);
                lemma_sum_refs_with_ct_le(bl.ways@.take(i as int), cti);
                lemma_sum_refs_prefix(bl.ways@, i as int);
                lemma_sum_refs_nonneg(bl.ways@.take(i as int));
                lemma_wc_fold_counters(old(self).spec_get_way(cti), grp);
                assert(self.spec_get_way(cti) == spec_wc_fold(
                    old(self).spec_get_way(cti),
                    grp,
                ));
                assert(bl.ways@.take(i + 1).drop_last() =~= bl.ways@.take(i as int));
                assert(bl.ways@.take(i + 1).last() == bl.ways@[i as int]);
                assert(spec_ways_with_ct(bl.ways@.take(i + 1), cti) =~= grp.push(
                    bl.ways@[i as int],
                ));
                assert(spec_sum_refs(grp.push(bl.ways@[i as int])) == spec_sum_refs(grp)
                    + bl.ways@[i as int].refs@.len()) by {
                    assert(grp.push(bl.ways@[i as int]).drop_last() =~= grp);
                }
                lemma_sum_refs_with_ct_le(bl.ways@.take(i + 1), cti);
            }
            self.add_way(&bl.ways[i]);
            proof {
                assert forall|ct: Changetype|
                    #[trigger] self.spec_get_way(ct) == spec_wc_fold(
                        old(self).spec_get_way(ct),
                        spec_ways_with_ct(bl.ways@.take(i + 1), ct),
                    ) by {
                    if ct == bl.ways@[i as int].changetype {
                        assert(spec_ways_with_ct(bl.ways@.take(i + 1), ct) =~= spec_ways_with_ct(
                            bl.ways@.take(i as int),
                            ct,
                        ).push(bl.ways@[i as int]));
                        lemma_wc_fold_push(
                            old(self).spec_get_way(ct),
                            spec_ways_with_ct(bl.ways@.take(i as int), ct),
                            bl.ways@[i as int],
                        );
                    } else {
                        assert(spec_ways_with_ct(bl.ways@.take(i + 1), ct) =~= spec_ways_with_ct(
                            bl.ways@.take(i as int),
                            ct,
                        ));
                    }
                }
            }
            i = i + 1;
        }
        let ghost ways_done = self.way_entries@;
        proof {
            assert(bl.ways@.take(bl.ways@.len() as int) =~= bl.ways@);
            assert forall|ct: Changetype|
                #[trigger] cc_lookup(ways_done, ct, spec_wc_empty()) == spec_wc_fold(
                    old(self).spec_get_way(ct),
                    spec_ways_with_ct(bl.ways@, ct),
                ) by {
                assert(self.spec_get_way(ct) == cc_lookup(ways_done, ct, spec_wc_empty()));
                assert(self.spec_get_way(ct) == spec_wc_fold(
                    old(self).spec_get_way(ct),
                    spec_ways_with_ct(bl.ways@.take(bl.ways@.len() as int), ct),
                ));
            }
        }
        let mut i: usize = 0;
        while i < bl.relations.len()
            invariant
                0 <= i <= bl.relations@.len(),
                self.wf(),
                self.num_blocks == old(self).num_blocks,
                self.node_entries@ == nodes_done,
                self.way_entries@ == ways_done,
                forall|ct: Changetype|
                    (#[trigger] old(self).spec_get_relation(ct)).num + bl.relations@.len()
                        <= i64::MAX,
                forall|ct: Changetype|
                    (#[trigger] old(self).spec_get_relation(ct)).num_mems >= 0,
                forall|ct: Changetype|
                    (#[trigger] old(self).spec_get_relation(ct)).num_mems + spec_sum_mems(
                        bl.relations@,
                    ) <= i64::MAX,
                forall|ct: Changetype|
                    (#[trigger] old(self).spec_get_relation(ct)).num_empties >= 0,
                forall|ct: Changetype|
                    (#[trigger] old(self).spec_get_relation(ct)).num_empties
                        + bl.relations@.len() <= i64::MAX,
                forall|ct: Changetype|
                    #[trigger] self.spec_get_relation(ct) == spec_rc_fold(
                        old(self).spec_get_relation(ct),
                        spec_rels_with_ct(bl.relations@.take(i as int), ct),
                    ),
            decreases bl.relations@.len() - i,
        {
            proof {
                let cti = bl.relations@[i as int].changetype;
                let grp = spec_rels_with_ct(bl.relations@.take(i as int), cti);
                lemma_rels_with_ct_len(bl.relations@.take(i as int), cti);
                lemma_sum_mems_with_ct_le(bl.relations@.take(i as int), cti);
                lemma_sum_mems_prefix(bl.relations@, i as int);
                lemma_sum_mems_nonneg(bl.relations@.take(i as int));
                lemma_rc_fold_counters(old(self).spec_get_relation(cti), grp);
                assert(self.spec_get_relation(cti) == spec_rc_fold(
                    old(self).spec_get_relation(cti),
                    grp,
                ));
                assert(bl.relations@.take(i + 1).drop_last() =~= bl.relations@.take(i as int));
                assert(bl.relations@.take(i + 1).last() == bl.relations@[i as int]);
                assert(spec_rels_with_ct(bl.relations@.take(i + 1), cti) =~= grp.push(
                    bl.relations@[i as int],
                ));
                assert(spec_sum_mems(grp.push(bl.relations@[i as int])) == spec_sum_mems(grp)
                    + bl.relations@[i as int].members@.len()) by {
                    assert(grp.push(bl.relations@[i as int]).drop_last() =~= grp);
                }
                lemma_sum_mems_with_ct_le(bl.relations@.take(i + 1), cti);
            }
            self.add_relation(&bl.relations[i]);
            proof {
                assert forall|ct: Changetype|
                    #[trigger] self.spec_get_relation(ct) == spec_rc_fold(
                        old(self).spec_get_relation(ct),
                        spec_rels_with_ct(bl.relations@.take(i + 1), ct),
                    ) by {
                    if ct == bl.relations@[i as int].changetype {
                        assert(spec_rels_with_ct(bl.relations@.take(i + 1), ct)
                            =~= spec_rels_with_ct(bl.relations@.take(i as int), ct).push(
                            bl.relations@[i as int],
                        ));
                        lemma_rc_fold_push(
                            old(self).spec_get_relation(ct),
                            spec_rels_with_ct(bl.relations@.take(i as int), ct),
                            bl.relations@[i as int],
                        );
                    } else {
                        assert(spec_rels_with_ct(bl.relations@.take(i + 1), ct)
                            =~= spec_rels_with_ct(bl.relations@.take(i as int), ct));
                    }
                }
            }
            i = i + 1;
        }
        let ghost rels_done = self.rel_entries@;
        proof {
            assert(bl.relations@.take(bl.relations@.len() as int) =~= bl.relations@);
            assert forall|ct: Changetype|
                #[trigger] cc_lookup(rels_done, ct, spec_rc_empty()) == spec_rc_fold(
                    old(self).spec_get_relation(ct),
                    spec_rels_with_ct(bl.relations@, ct),
                ) by {
                assert(self.spec_get_relation(ct) == cc_lookup(rels_done, ct, spec_rc_empty()));
                assert(self.spec_get_relation(ct) == spec_rc_fold(
                    old(self).spec_get_relation(ct),
                    spec_rels_with_ct(bl.relations@.take(bl.relations@.len() as int), ct),
                ));
            }
        }
        self.num_blocks = self.num_blocks + 1;
        proof {
            assert(self.node_entries@ == nodes_done);
            assert(self.way_entries@ == ways_done);
            assert(self.rel_entries@ == rels_done);
            assert forall|ct: Changetype|
                #[trigger] self.spec_get_node(ct) == spec_nc_fold(
                    old(self).spec_get_node(ct),
                    spec_nodes_with_ct(bl.nodes@, ct),
                ) by {
                assert(self.spec_get_node(ct) == cc_lookup(nodes_done, ct, spec_nc_empty()));
            }
            assert forall|ct: Changetype|
                #[trigger] self.spec_get_way(ct) == spec_wc_fold(
                    old(self).spec_get_way(ct),
                    spec_ways_with_ct(bl.ways@, ct),
                ) by {
                assert(self.spec_get_way(ct) == cc_lookup(ways_done, ct, spec_wc_empty()));
            }
            assert forall|ct: Changetype|
                #[trigger] self.spec_get_relation(ct) == spec_rc_fold(
                    old(self).spec_get_relation(ct),
                    spec_rels_with_ct(bl.relations@, ct),
                ) by {
                assert(self.spec_get_relation(ct) == cc_lookup(rels_done, ct, spec_rc_empty()));
            }
        }
    }
}

/// Folding one more node advances the summary by one add step.
proof fn lemma_nc_fold_push(c0: NodeCount, s: Seq<Node>, n: Node)
    ensures
        spec_nc_fold(c0, s.push(n)) == spec_nc_add(spec_nc_fold(c0, s), n),
{
    assert(s.push(n).drop_last() =~= s);
    assert(s.push(n).last() == n);
}

/// Folding one more way advances the summary by one add step.
proof fn lemma_wc_fold_push(c0: WayCount, s: Seq<Way>, w: Way)
    ensures
        spec_wc_fold(c0, s.push(w)) == spec_wc_add(spec_wc_fold(c0, s), w),
{
    assert(s.push(w).drop_last() =~= s);
    assert(s.push(w).last() == w);
}

/// Folding one more relation advances the summary by one add step.
proof fn lemma_rc_fold_push(c0: RelationCount, s: Seq<Relation>, rl: Relation)
    ensures
        spec_rc_fold(c0, s.push(rl)) == spec_rc_add(spec_rc_fold(c0, s), rl),
{
    assert(s.push(rl).drop_last() =~= s);
    assert(s.push(rl).last() == rl);
}

/// A folded node summary counts exactly the starting count plus the
/// records folded in, as long as the sum stays representable.
pub proof fn lemma_nc_fold_num(c0: NodeCount, s: Seq<Node>)
    requires
        c0.num + s.len() <= i64::MAX,
    ensures
        spec_nc_fold(c0, s).num == c0.num + s.len(),
    decreases s.len(),
{
    if s.len() > 0 {
        lemma_nc_fold_num(c0, s.drop_last());
    }
}

/// Grouping nodes never yields more records than the list holds.
proof fn lemma_nodes_with_ct_len(s: Seq<Node>, ct: Changetype)
    ensures
        spec_nodes_with_ct(s, ct).len() <= s.len(),
    decreases s.len(),
{
    if s.len() > 0 {
        lemma_nodes_with_ct_len(s.drop_last(), ct);
    }
}

/// Grouping ways never yields more records than the list holds.
proof fn lemma_ways_with_ct_len(s: Seq<Way>, ct: Changetype)
    ensures
        spec_ways_with_ct(s, ct).len() <= s.len(),
    decreases s.len(),
{
    if s.len() > 0 {
        lemma_ways_with_ct_len(s.drop_last(), ct);
    }
}

/// Grouping relations never yields more records than the list holds.
proof fn lemma_rels_with_ct_len(s: Seq<Relation>, ct: Changetype)
    ensures
        spec_rels_with_ct(s, ct).len() <= s.len(),
    decreases s.len(),
{
    if s.len() > 0 {
        lemma_rels_with_ct_len(s.drop_last(), ct);
    }
}

/// A changetype group's reference total never exceeds the whole list's.
proof fn lemma_sum_refs_with_ct_le(s: Seq<Way>, ct: Changetype)
    ensures
        0 <= spec_sum_refs(spec_ways_with_ct(s, ct)) <= spec_sum_refs(s),
    decreases s.len(),
{
    if s.len() == 0 {
    } else {
        lemma_sum_refs_with_ct_le(s.drop_last(), ct);
        if s.last().changetype == ct {
            assert(spec_ways_with_ct(s, ct) =~= spec_ways_with_ct(s.drop_last(), ct).push(
                s.last(),
            ));
            assert(spec_ways_with_ct(s, ct).drop_last() =~= spec_ways_with_ct(
                s.drop_last(),
                ct,
            ));
        } else {
            assert(spec_ways_with_ct(s, ct) =~= spec_ways_with_ct(s.drop_last(), ct));
        }
    }
}

/// A changetype group's member total never exceeds the whole list's.
proof fn lemma_sum_mems_with_ct_le(s: Seq<Relation>, ct: Changetype)
    ensures
        0 <= spec_sum_mems(spec_rels_with_ct(s, ct)) <= spec_sum_mems(s),
    decreases s.len(),
{
    if s.len() == 0 {
    } else {
        lemma_sum_mems_with_ct_le(s.drop_last(), ct);
        if s.last().changetype == ct {
            assert(spec_rels_with_ct(s, ct) =~= spec_rels_with_ct(s.drop_last(), ct).push(
                s.last(),
            ));
            assert(spec_rels_with_ct(s, ct).drop_last() =~= spec_rels_with_ct(
                s.drop_last(),
                ct,
            ));
        } else {
            assert(spec_rels_with_ct(s, ct) =~= spec_rels_with_ct(s.drop_last(), ct));
        }
    }
}

/// The merge of two node summaries: counts sum, extremes combine. The
/// operation is associative and commutative on the summary values.
pub open spec fn spec_nc_merge(a: NodeCount, b: NodeCount) -> NodeCount {
    NodeCount {
        num: (a.num + b.num) as i64,
        min_id: spec_min(a.min_id as int, b.min_id as int) as i64,
        max_id: spec_max(a.max_id as int, b.max_id as int) as i64,
        min_ts: spec_min(a.min_ts as int, b.min_ts as int) as i64,
        max_ts: spec_max(a.max_ts as int, b.max_ts as int) as i64,
        min_lon: spec_min(a.min_lon as int, b.min_lon as int) as i32,
        min_lat: spec_min(a.min_lat as int, b.min_lat as int) as i32,
        max_lon: spec_max(a.max_lon as int, b.max_lon as int) as i32,
        max_lat: spec_max(a.max_lat as int, b.max_lat as int) as i32,
    }
}

/// The merge of two way summaries.
pub open spec fn spec_wc_merge(a: WayCount, b: WayCount) -> WayCount {
    WayCount {
        num: (a.num + b.num) as i64,
        min_id: spec_min(a.min_id as int, b.min_id as int) as i64,
        max_id: spec_max(a.max_id as int, b.max_id as int) as i64,
        min_ts: spec_min(a.min_ts as int, b.min_ts as int) as i64,
        max_ts: spec_max(a.max_ts as int, b.max_ts as int) as i64,
        num_refs: (a.num_refs + b.num_refs) as i64,
        max_refs_len: spec_max(a.max_refs_len as int, b.max_refs_len as int) as i64,
        min_ref: spec_min(a.min_ref as int, b.min_ref as int) as i64,
        max_ref: spec_max(a.max_ref as int, b.max_ref as int) as i64,
    }
}

/// The merge of two relation summaries.
pub open spec fn spec_rc_merge(a: RelationCount, b: RelationCount) -> RelationCount {
    RelationCount {
        num: (a.num + b.num) as i64,
        min_id: spec_min(a.min_id as int, b.min_id as int) as i64,
        max_id: spec_max(a.max_id as int, b.max_id as int) as i64,
        min_ts: spec_min(a.min_ts as int, b.min_ts as int) as i64,
        max_ts: spec_max(a.max_ts as int, b.max_ts as int) as i64,
        num_mems: (a.num_mems + b.num_mems) as i64,
        max_mems_len: spec_max(a.max_mems_len as int, b.max_mems_len as int) as i64,
        num_empties: (a.num_empties + b.num_empties) as i64,
    }
}

/// Merging a summary of one more record is folding that record after the
/// merge, while the counts stay representable.
proof fn lemma_nc_merge_add(a: NodeCount, b: NodeCount, n: Node)
    requires
        a.num >= 0,
        b.num >= 0,
        a.num + b.num + 1 <= i64::MAX,
    ensures
        spec_nc_merge(a, spec_nc_add(b, n)) == spec_nc_add(spec_nc_merge(a, b), n),
{
}

proof fn lemma_wc_merge_add(a: WayCount, b: WayCount, w: Way)
    requires
        a.num >= 0,
        b.num >= 0,
        a.num + b.num + 1 <= i64::MAX,
        a.num_refs >= 0,
        b.num_refs >= 0,
        a.num_refs + b.num_refs + w.refs@.len() <= i64::MAX,
    ensures
        spec_wc_merge(a, spec_wc_add(b, w)) == spec_wc_add(spec_wc_merge(a, b), w),
{
    lemma_refs_extremes_range(w.refs@);
}

proof fn lemma_rc_merge_add(a: RelationCount, b: RelationCount, rl: Relation)
    requires
        a.num >= 0,
        b.num >= 0,
        a.num + b.num + 1 <= i64::MAX,
        a.num_mems >= 0,
        b.num_mems >= 0,
        a.num_mems + b.num_mems + rl.members@.len() <= i64::MAX,
        a.num_empties >= 0,
        b.num_empties >= 0,
        a.num_empties + b.num_empties + 1 <= i64::MAX,
    ensures
        spec_rc_merge(a, spec_rc_add(b, rl)) == spec_rc_add(spec_rc_merge(a, b), rl),
{
}

/// The empty summary is a merge identity.
proof fn lemma_nc_merge_empty(a: NodeCount)
    requires
        a.num >= 0,
    ensures
        spec_nc_merge(a, spec_nc_empty()) == a,
{
}

proof fn lemma_wc_merge_empty(a: WayCount)
    requires
        a.num >= 0,
        a.num_refs >= 0,
        a.max_refs_len >= 0,
    ensures
        spec_wc_merge(a, spec_wc_empty()) == a,
{
}

proof fn lemma_rc_merge_empty(a: RelationCount)
    requires
        a.num >= 0,
        a.num_mems >= 0,
        a.num_empties >= 0,
        a.max_mems_len >= 0,
    ensures
        spec_rc_merge(a, spec_rc_empty()) == a,
{
}

/// Folding a second list continues the fold of the first: the fold splits
/// over concatenation.
proof fn lemma_nc_fold_append(c: NodeCount, s1: Seq<Node>, s2: Seq<Node>)
    ensures
        spec_nc_fold(spec_nc_fold(c, s1), s2) == spec_nc_fold(c, s1 + s2),
    decreases s2.len(),
{
    if s2.len() == 0 {
        assert(s1 + s2 =~= s1);
    } else {
        lemma_nc_fold_append(c, s1, s2.drop_last());
        assert((s1 + s2).drop_last() =~= s1 + s2.drop_last());
        assert((s1 + s2).last() == s2.last());
    }
}

proof fn lemma_wc_fold_append(c: WayCount, s1: Seq<Way>, s2: Seq<Way>)
    ensures
        spec_wc_fold(spec_wc_fold(c, s1), s2) == spec_wc_fold(c, s1 + s2),
    decreases s2.len(),
{
    if s2.len() == 0 {
        assert(s1 + s2 =~= s1);
    } else {
        lemma_wc_fold_append(c, s1, s2.drop_last());
        assert((s1 + s2).drop_last() =~= s1 + s2.drop_last());
        assert((s1 + s2).last() == s2.last());
    }
}

proof fn lemma_rc_fold_append(c: RelationCount, s1: Seq<Relation>, s2: Seq<Relation>)
    ensures
        spec_rc_fold(spec_rc_fold(c, s1), s2) == spec_rc_fold(c, s1 + s2),
    decreases s2.len(),
{
    if s2.len() == 0 {
        assert(s1 + s2 =~= s1);
    } else {
        lemma_rc_fold_append(c, s1, s2.drop_last());
        assert((s1 + s2).drop_last() =~= s1 + s2.drop_last());
        assert((s1 + s2).last() == s2.last());
    }
}

/// Merging a summary into a fold is folding from the merged start.
proof fn lemma_nc_merge_fold(a: NodeCount, b: NodeCount, s: Seq<Node>)
    requires
        a.num >= 0,
        b.num >= 0,
        a.num + b.num + s.len() <= i64::MAX,
    ensures
        spec_nc_merge(a, spec_nc_fold(b, s)) == spec_nc_fold(spec_nc_merge(a, b), s),
    decreases s.len(),
{
    if s.len() > 0 {
        lemma_nc_merge_fold(a, b, s.drop_last());
        lemma_nc_fold_num(b, s.drop_last());
        lemma_nc_merge_add(a, spec_nc_fold(b, s.drop_last()), s.last());
    }
}

proof fn lemma_wc_merge_fold(a: WayCount, b: WayCount, s: Seq<Way>)
    requires
        a.num >= 0,
        b.num >= 0,
        a.num + b.num + s.len() <= i64::MAX,
        a.num_refs >= 0,
        b.num_refs >= 0,
        a.num_refs + b.num_refs + spec_sum_refs(s) <= i64::MAX,
    ensures
        spec_wc_merge(a, spec_wc_fold(b, s)) == spec_wc_fold(spec_wc_merge(a, b), s),
    decreases s.len(),
{
    if s.len() > 0 {
        lemma_sum_refs_nonneg(s.drop_last());
        lemma_wc_merge_fold(a, b, s.drop_last());
        lemma_wc_fold_counters(b, s.drop_last());
        lemma_wc_merge_add(a, spec_wc_fold(b, s.drop_last()), s.last());
    }
}

proof fn lemma_rc_merge_fold(a: RelationCount, b: RelationCount, s: Seq<Relation>)
    requires
        a.num >= 0,
        b.num >= 0,
        a.num + b.num + s.len() <= i64::MAX,
        a.num_mems >= 0,
        b.num_mems >= 0,
        a.num_mems + b.num_mems + spec_sum_mems(s) <= i64::MAX,
        a.num_empties >= 0,
        b.num_empties >= 0,
        a.num_empties + b.num_empties + s.len() <= i64::MAX,
    ensures
        spec_rc_merge(a, spec_rc_fold(b, s)) == spec_rc_fold(spec_rc_merge(a, b), s),
    decreases s.len(),
{
    if s.len() > 0 {
        lemma_sum_mems_nonneg(s.drop_last());
        lemma_rc_merge_fold(a, b, s.drop_last());
        lemma_rc_fold_counters(b, s.drop_last());
        lemma_rc_merge_add(a, spec_rc_fold(b, s.drop_last()), s.last());
    }
}

/// The partition law for node statistics: counting two parts of a stream
/// separately and merging the summaries equals counting the whole stream —
/// so a worker partition never changes the merged statistics, extremes
/// included.
pub proof fn lemma_nc_fold_partition(s1: Seq<Node>, s2: Seq<Node>)
    requires
        s1.len() + s2.len() <= i64::MAX,
    ensures
        spec_nc_merge(
            spec_nc_fold(spec_nc_empty(), s1),
            spec_nc_fold(spec_nc_empty(), s2),
        ) == spec_nc_fold(spec_nc_empty(), s1 + s2),
{
    lemma_nc_fold_num(spec_nc_empty(), s1);
    lemma_nc_merge_fold(spec_nc_fold(spec_nc_empty(), s1), spec_nc_empty(), s2);
    lemma_nc_merge_empty(spec_nc_fold(spec_nc_empty(), s1));
    lemma_nc_fold_append(spec_nc_empty(), s1, s2);
}

/// The partition law for way statistics.
pub proof fn lemma_wc_fold_partition(s1: Seq<Way>, s2: Seq<Way>)
    requires
        s1.len() + s2.len() <= i64::MAX,
        spec_sum_refs(s1) + spec_sum_refs(s2) <= i64::MAX,
    ensures
        spec_wc_merge(
            spec_wc_fold(spec_wc_empty(), s1),
            spec_wc_fold(spec_wc_empty(), s2),
        ) == spec_wc_fold(spec_wc_empty(), s1 + s2),
{
    lemma_sum_refs_nonneg(s1);
    lemma_sum_refs_nonneg(s2);
    lemma_wc_fold_counters(spec_wc_empty(), s1);
    lemma_wc_merge_fold(spec_wc_fold(spec_wc_empty(), s1), spec_wc_empty(), s2);
    lemma_wc_merge_empty(spec_wc_fold(spec_wc_empty(), s1));
    lemma_wc_fold_append(spec_wc_empty(), s1, s2);
}

/// The partition law for relation statistics.
pub proof fn lemma_rc_fold_partition(s1: Seq<Relation>, s2: Seq<Relation>)
    requires
        s1.len() + s2.len() <= i64::MAX,
        spec_sum_mems(s1) + spec_sum_mems(s2) <= i64::MAX,
    ensures
        spec_rc_merge(
            spec_rc_fold(spec_rc_empty(), s1),
            spec_rc_fold(spec_rc_empty(), s2),
        ) == spec_rc_fold(spec_rc_empty(), s1 + s2),
{
    lemma_sum_mems_nonneg(s1);
    lemma_sum_mems_nonneg(s2);
    lemma_rc_fold_counters(spec_rc_empty(), s1);
    lemma_rc_merge_fold(spec_rc_fold(spec_rc_empty(), s1), spec_rc_empty(), s2);
    lemma_rc_merge_empty(spec_rc_fold(spec_rc_empty(), s1));
    lemma_rc_fold_append(spec_rc_empty(), s1, s2);
}

/// Changetype grouping splits over concatenation: with the per-kind
/// partition laws, counting a partitioned stream and merging gives each
/// changetype group the whole stream's fold as well.
pub proof fn lemma_nodes_with_ct_concat(s1: Seq<Node>, s2: Seq<Node>, ct: Changetype)
    ensures
        spec_nodes_with_ct(s1 + s2, ct) == spec_nodes_with_ct(s1, ct) + spec_nodes_with_ct(
            s2,
            ct,
        ),
    decreases s2.len(),
{
    if s2.len() == 0 {
        assert(s1 + s2 =~= s1);
        assert(spec_nodes_with_ct(s1, ct) + spec_nodes_with_ct(s2, ct) =~= spec_nodes_with_ct(
            s1,
            ct,
        ));
    } else {
        lemma_nodes_with_ct_concat(s1, s2.drop_last(), ct);
        assert((s1 + s2).drop_last() =~= s1 + s2.drop_last());
        assert((s1 + s2).last() == s2.last());
        if s2.last().changetype == ct {
            assert(spec_nodes_with_ct(s1 + s2, ct) =~= spec_nodes_with_ct(s1, ct)
                + spec_nodes_with_ct(s2, ct));
        } else {
            assert(spec_nodes_with_ct(s1 + s2, ct) =~= spec_nodes_with_ct(s1, ct)
                + spec_nodes_with_ct(s2, ct));
        }
    }
}

/// As `lemma_nodes_with_ct_concat`, for ways.
pub proof fn lemma_ways_with_ct_concat(s1: Seq<Way>, s2: Seq<Way>, ct: Changetype)
    ensures
        spec_ways_with_ct(s1 + s2, ct) == spec_ways_with_ct(s1, ct) + spec_ways_with_ct(s2, ct),
    decreases s2.len(),
{
    if s2.len() == 0 {
        assert(s1 + s2 =~= s1);
        assert(spec_ways_with_ct(s1, ct) + spec_ways_with_ct(s2, ct) =~= spec_ways_with_ct(
            s1,
            ct,
        ));
    } else {
        lemma_ways_with_ct_concat(s1, s2.drop_last(), ct);
        assert((s1 + s2).drop_last() =~= s1 + s2.drop_last());
        assert((s1 + s2).last() == s2.last());
        if s2.last().changetype == ct {
            assert(spec_ways_with_ct(s1 + s2, ct) =~= spec_ways_with_ct(s1, ct)
                + spec_ways_with_ct(s2, ct));
        } else {
            assert(spec_ways_with_ct(s1 + s2, ct) =~= spec_ways_with_ct(s1, ct)
                + spec_ways_with_ct(s2, ct));
        }
    }
}

/// As `lemma_nodes_with_ct_concat`, for relations.
pub proof fn lemma_rels_with_ct_concat(s1: Seq<Relation>, s2: Seq<Relation>, ct: Changetype)
    ensures
        spec_rels_with_ct(s1 + s2, ct) == spec_rels_with_ct(s1, ct) + spec_rels_with_ct(s2, ct),
    decreases s2.len(),
{
    if s2.len() == 0 {
        assert(s1 + s2 =~= s1);
        assert(spec_rels_with_ct(s1, ct) + spec_rels_with_ct(s2, ct) =~= spec_rels_with_ct(
            s1,
            ct,
        ));
    } else {
        lemma_rels_with_ct_concat(s1, s2.drop_last(), ct);
        assert((s1 + s2).drop_last() =~= s1 + s2.drop_last());
        assert((s1 + s2).last() == s2.last());
        if s2.last().changetype == ct {
            assert(spec_rels_with_ct(s1 + s2, ct) =~= spec_rels_with_ct(s1, ct)
                + spec_rels_with_ct(s2, ct));
        } else {
            assert(spec_rels_with_ct(s1 + s2, ct) =~= spec_rels_with_ct(s1, ct)
                + spec_rels_with_ct(s2, ct));
        }
    }
}

} // verus!
