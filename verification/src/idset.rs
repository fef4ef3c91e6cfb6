use vstd::prelude::*;

use std::collections::HashSet;

use crate::bbox::Bbox;
use crate::block::PrimitiveBlock;
use crate::elements::{
    ElementType, Member, Node, Relation, Way, spec_elementtype_from, spec_elementtype_from_int,
};
use crate::error::Error;
use crate::minimal::{
    MinimalBlock, MinimalNode, MinimalRelation, MinimalWay, read_delta_packed_int,
    read_packed_int, spec_all_fit, spec_delta_sum, spec_deltas_fit, spec_ints_of,
    spec_packed_ints,
};

verus! {

broadcast use vstd::std_specs::hash::group_hash_axioms;

/// The mutable id-set filter: one id set per record kind, and the auxiliary
/// boundary set of node ids referenced by a selected way but not themselves
/// inside the spatial box.
pub struct IdSetSet {
    pub nodes: HashSet<i64>,
    pub ways: HashSet<i64>,
    pub relations: HashSet<i64>,
    pub exnodes: HashSet<i64>,
}

/// Some node of the list has id `id`.
pub open spec fn spec_has_node_id(s: Seq<Node>, id: i64) -> bool {
    exists|i: int| 0 <= i < s.len() && (#[trigger] s[i]).id == id
}

/// Some way of the list has id `id`.
pub open spec fn spec_has_way_id(s: Seq<Way>, id: i64) -> bool {
    exists|i: int| 0 <= i < s.len() && (#[trigger] s[i]).id == id
}

/// Some relation of the list has id `id`.
pub open spec fn spec_has_rel_id(s: Seq<Relation>, id: i64) -> bool {
    exists|i: int| 0 <= i < s.len() && (#[trigger] s[i]).id == id
}

proof fn lemma_has_node_id_push(s: Seq<Node>, n: Node, id: i64)
    ensures
        spec_has_node_id(s.push(n), id) <==> spec_has_node_id(s, id) || n.id == id,
{
    if spec_has_node_id(s.push(n), id) {
        let i = choose|i: int| 0 <= i < s.push(n).len() && (#[trigger] s.push(n)[i]).id == id;
        if i < s.len() {
            assert(s.push(n)[i] == s[i]);
        } else {
            assert(s.push(n)[i] == n);
        }
    }
    if spec_has_node_id(s, id) {
        let i = choose|i: int| 0 <= i < s.len() && (#[trigger] s[i]).id == id;
        assert(s.push(n)[i] == s[i]);
    }
    if n.id == id {
        assert(s.push(n)[s.len() as int] == n);
    }
}

proof fn lemma_has_way_id_push(s: Seq<Way>, w: Way, id: i64)
    ensures
        spec_has_way_id(s.push(w), id) <==> spec_has_way_id(s, id) || w.id == id,
{
    if spec_has_way_id(s.push(w), id) {
        let i = choose|i: int| 0 <= i < s.push(w).len() && (#[trigger] s.push(w)[i]).id == id;
        if i < s.len() {
            assert(s.push(w)[i] == s[i]);
        } else {
            assert(s.push(w)[i] == w);
        }
    }
    if spec_has_way_id(s, id) {
        let i = choose|i: int| 0 <= i < s.len() && (#[trigger] s[i]).id == id;
        assert(s.push(w)[i] == s[i]);
    }
    if w.id == id {
        assert(s.push(w)[s.len() as int] == w);
    }
}

proof fn lemma_has_rel_id_push(s: Seq<Relation>, rl: Relation, id: i64)
    ensures
        spec_has_rel_id(s.push(rl), id) <==> spec_has_rel_id(s, id) || rl.id == id,
{
    if spec_has_rel_id(s.push(rl), id) {
        let i = choose|i: int| 0 <= i < s.push(rl).len() && (#[trigger] s.push(rl)[i]).id == id;
        if i < s.len() {
            assert(s.push(rl)[i] == s[i]);
        } else {
            assert(s.push(rl)[i] == rl);
        }
    }
    if spec_has_rel_id(s, id) {
        let i = choose|i: int| 0 <= i < s.len() && (#[trigger] s[i]).id == id;
        assert(s.push(rl)[i] == s[i]);
    }
    if rl.id == id {
        assert(s.push(rl)[s.len() as int] == rl);
    }
}

/// Some node of `nodes` has id `id` and lies inside `bx`.
pub open spec fn spec_node_selected(nodes: Seq<Node>, bx: Bbox, id: i64) -> bool {
    exists|i: int|
        0 <= i < nodes.len() && (#[trigger] nodes[i]).id == id && bx.spec_contains_point(
            nodes[i].lon as int,
            nodes[i].lat as int,
        )
}

/// Some reference of the way is already a selected node.
pub open spec fn spec_way_hit(w: Way, n1: Set<i64>) -> bool {
    exists|j: int| 0 <= j < w.refs@.len() && n1.contains(#[trigger] w.refs@[j])
}

/// Some way of `ways` has id `id` and a reference among the selected nodes.
pub open spec fn spec_way_selected(ways: Seq<Way>, n1: Set<i64>, id: i64) -> bool {
    exists|i: int|
        0 <= i < ways.len() && (#[trigger] ways[i]).id == id && spec_way_hit(ways[i], n1)
}

/// `r` is a reference of a selected way of `ways` that is not itself a
/// selected node: it is retained only for geometric completeness.
pub open spec fn spec_boundary_ref(ways: Seq<Way>, n1: Set<i64>, r: i64) -> bool {
    exists|i: int, j: int|
        0 <= i < ways.len() && spec_way_hit(ways[i], n1) && 0 <= j < ways[i].refs@.len() && (
        #[trigger] ways[i].refs@[j]) == r && !n1.contains(r)
}

/// Whether one member satisfies the filter built so far. A node member also
/// counts when its id is only in the boundary set; the reserved fallback
/// type never matches.
pub open spec fn spec_member_hit(
    m: Member,
    n: Set<i64>,
    x: Set<i64>,
    w: Set<i64>,
    r: Set<i64>,
) -> bool {
    match m.mem_type {
        ElementType::Node => n.contains(m.mem_ref) || x.contains(m.mem_ref),
        ElementType::Way => w.contains(m.mem_ref),
        ElementType::Relation => r.contains(m.mem_ref),
        ElementType::Other => false,
    }
}

/// Whether any member of the relation satisfies the filter built so far.
pub open spec fn spec_rel_hit(
    rl: Relation,
    n: Set<i64>,
    x: Set<i64>,
    w: Set<i64>,
    r: Set<i64>,
) -> bool {
    exists|j: int|
        0 <= j < rl.members@.len() && spec_member_hit(#[trigger] rl.members@[j], n, x, w, r)
}

/// One step of the single-pass relation stage: the relation joins the set
/// exactly when some member already satisfies the filter.
pub open spec fn spec_rel_step(
    racc: Set<i64>,
    rl: Relation,
    n: Set<i64>,
    x: Set<i64>,
    w: Set<i64>,
) -> Set<i64> {
    if spec_rel_hit(rl, n, x, w, racc) {
        racc.insert(rl.id)
    } else {
        racc
    }
}

/// The single-pass relation stage, processing relations in order. A relation
/// whose only qualifying member is a relation inserted later in this order
/// is not included: the pass is deliberately not a fixed-point iteration.
pub open spec fn spec_rel_stage(
    racc: Set<i64>,
    rels: Seq<Relation>,
    n: Set<i64>,
    x: Set<i64>,
    w: Set<i64>,
) -> Set<i64>
    decreases rels.len(),
{
    if rels.len() == 0 {
        racc
    } else {
        spec_rel_stage(spec_rel_step(racc, rels[0], n, x, w), rels.drop_first(), n, x, w)
    }
}

proof fn lemma_rel_stage_push(
    racc: Set<i64>,
    rels: Seq<Relation>,
    e: Relation,
    n: Set<i64>,
    x: Set<i64>,
    w: Set<i64>,
)
    ensures
        spec_rel_stage(racc, rels.push(e), n, x, w) == spec_rel_step(
            spec_rel_stage(racc, rels, n, x, w),
            e,
            n,
            x,
            w,
        ),
    decreases rels.len(),
{
    if rels.len() == 0 {
        assert(rels.push(e)[0] == e);
        assert(rels.push(e).drop_first() =~= Seq::<Relation>::empty());
        assert(spec_rel_stage(racc, rels.push(e), n, x, w) == spec_rel_stage(
            spec_rel_step(racc, e, n, x, w),
            Seq::<Relation>::empty(),
            n,
            x,
            w,
        ));
        assert(spec_rel_stage(racc, rels, n, x, w) == racc);
    } else {
        assert(rels.push(e)[0] == rels[0]);
        assert(rels.push(e).drop_first() =~= rels.drop_first().push(e));
        lemma_rel_stage_push(spec_rel_step(racc, rels[0], n, x, w), rels.drop_first(), e, n, x, w);
    }
}

proof fn lemma_node_selected_push(s: Seq<Node>, n: Node, bx: Bbox, id: i64)
    ensures
        spec_node_selected(s.push(n), bx, id) <==> (spec_node_selected(s, bx, id) || (n.id == id
            && bx.spec_contains_point(n.lon as int, n.lat as int))),
{
    if spec_node_selected(s.push(n), bx, id) {
        let i = choose|i: int|
            0 <= i < s.push(n).len() && (#[trigger] s.push(n)[i]).id == id
                && bx.spec_contains_point(s.push(n)[i].lon as int, s.push(n)[i].lat as int);
        if i < s.len() {
            assert(s.push(n)[i] == s[i]);
        } else {
            assert(s.push(n)[i] == n);
        }
    }
    if spec_node_selected(s, bx, id) {
        let i = choose|i: int|
            0 <= i < s.len() && (#[trigger] s[i]).id == id && bx.spec_contains_point(
                s[i].lon as int,
                s[i].lat as int,
            );
        assert(s.push(n)[i] == s[i]);
    }
    if n.id == id && bx.spec_contains_point(n.lon as int, n.lat as int) {
        assert(s.push(n)[s.len() as int] == n);
    }
}

proof fn lemma_way_selected_push(s: Seq<Way>, w: Way, n1: Set<i64>, id: i64)
    ensures
        spec_way_selected(s.push(w), n1, id) <==> (spec_way_selected(s, n1, id) || (w.id == id
            && spec_way_hit(w, n1))),
{
    if spec_way_selected(s.push(w), n1, id) {
        let i = choose|i: int|
            0 <= i < s.push(w).len() && (#[trigger] s.push(w)[i]).id == id && spec_way_hit(
                s.push(w)[i],
                n1,
            );
        if i < s.len() {
            assert(s.push(w)[i] == s[i]);
        } else {
            assert(s.push(w)[i] == w);
        }
    }
    if spec_way_selected(s, n1, id) {
        let i = choose|i: int|
            0 <= i < s.len() && (#[trigger] s[i]).id == id && spec_way_hit(s[i], n1);
        assert(s.push(w)[i] == s[i]);
    }
    if w.id == id && spec_way_hit(w, n1) {
        assert(s.push(w)[s.len() as int] == w);
    }
}

proof fn lemma_boundary_ref_push(s: Seq<Way>, w: Way, n1: Set<i64>, r: i64)
    ensures
        spec_boundary_ref(s.push(w), n1, r) <==> (spec_boundary_ref(s, n1, r) || (spec_way_hit(
            w,
            n1,
        ) && (exists|j: int| 0 <= j < w.refs@.len() && w.refs@[j] == r) && !n1.contains(r))),
{
    if spec_boundary_ref(s.push(w), n1, r) {
        let (i, j) = choose|i: int, j: int|
            0 <= i < s.push(w).len() && spec_way_hit(s.push(w)[i], n1) && 0 <= j
                < s.push(w)[i].refs@.len() && (#[trigger] s.push(w)[i].refs@[j]) == r
                && !n1.contains(r);
        if i < s.len() {
            assert(s.push(w)[i] == s[i]);
            assert(spec_boundary_ref(s, n1, r));
        } else {
            assert(s.push(w)[i] == w);
        }
    }
    if spec_boundary_ref(s, n1, r) {
        let (i, j) = choose|i: int, j: int|
            0 <= i < s.len() && spec_way_hit(s[i], n1) && 0 <= j < s[i].refs@.len() && (
            #[trigger] s[i].refs@[j]) == r && !n1.contains(r);
        assert(s.push(w)[i] == s[i]);
        assert(spec_boundary_ref(s.push(w), n1, r));
    }
    if spec_way_hit(w, n1) && (exists|j: int| 0 <= j < w.refs@.len() && w.refs@[j] == r)
        && !n1.contains(r) {
        let j = choose|j: int| 0 <= j < w.refs@.len() && w.refs@[j] == r;
        assert(s.push(w)[s.len() as int] == w);
        assert(spec_boundary_ref(s.push(w), n1, r));
    }
}

/// Whether any reference of the way is in `nodes`.
fn way_hit_exec(w: &Way, nodes: &HashSet<i64>) -> (r: bool)
    ensures
        r == spec_way_hit(*w, nodes@),
{
    let mut j: usize = 0;
    while j < w.refs.len()
        invariant
            0 <= j <= w.refs@.len(),
            forall|k: int| 0 <= k < j ==> !nodes@.contains(#[trigger] w.refs@[k]),
        decreases w.refs@.len() - j,
    {
        if nodes.contains(&w.refs[j]) {
            return true;
        }
        j = j + 1;
    }
    false
}

impl IdSetSet {
    /// An empty filter.
    pub fn new() -> (r: IdSetSet)
        ensures
            r.nodes@ == Set::<i64>::empty(),
            r.ways@ == Set::<i64>::empty(),
            r.relations@ == Set::<i64>::empty(),
            r.exnodes@ == Set::<i64>::empty(),
    {
        IdSetSet {
            nodes: HashSet::new(),
            ways: HashSet::new(),
            relations: HashSet::new(),
            exnodes: HashSet::new(),
        }
    }

    /// Whether a record of kind `t` with id `id` must be retained. A node is
    /// retained both when selected and when kept for geometric completeness;
    /// the reserved fallback kind is never retained.
    pub open spec fn spec_contains(self, t: ElementType, id: i64) -> bool {
        match t {
            ElementType::Node => self.nodes@.contains(id) || self.exnodes@.contains(id),
            ElementType::Way => self.ways@.contains(id),
            ElementType::Relation => self.relations@.contains(id),
            ElementType::Other => false,
        }
    }

    pub fn contains(&self, t: ElementType, id: i64) -> (r: bool)
        ensures
            r == self.spec_contains(t, id),
    {
        match t {
            ElementType::Node => self.nodes.contains(&id) || self.exnodes.contains(&id),
            ElementType::Way => self.ways.contains(&id),
            ElementType::Relation => self.relations.contains(&id),
            ElementType::Other => false,
        }
    }

    /// Membership in the auxiliary boundary set alone: the id is retained
    /// only for geometry, not as a primary selected record.
    pub fn is_exnode(&self, id: i64) -> (r: bool)
        ensures
            r == self.exnodes@.contains(id),
    {
        self.exnodes.contains(&id)
    }

    /// Membership in the named kind's own set alone: a node id kept only
    /// as a boundary id does not count here, unlike under the retention
    /// capability `contains`.
    pub fn set_contains(&self, t: ElementType, id: i64) -> (r: bool)
        ensures
            r == match t {
                ElementType::Node => self.nodes@.contains(id),
                ElementType::Way => self.ways@.contains(id),
                ElementType::Relation => self.relations@.contains(id),
                ElementType::Other => false,
            },
    {
        match t {
            ElementType::Node => self.nodes.contains(&id),
            ElementType::Way => self.ways.contains(&id),
            ElementType::Relation => self.relations.contains(&id),
            ElementType::Other => false,
        }
    }

    /// Answer the boundary-style membership query: the kind given in its
    /// string encoding, membership taken in that kind's own set alone, so
    /// a node id kept only as a boundary id answers false. An unrecognised
    /// kind string is a value error.
    pub fn contains_kind(&self, kind: &str, id: i64) -> (r: Result<bool, Error>)
        ensures
            match r {
                Ok(b) => spec_elementtype_from(kind@) matches Some(t) && b == match t {
                    ElementType::Node => self.nodes@.contains(id),
                    ElementType::Way => self.ways@.contains(id),
                    ElementType::Relation => self.relations@.contains(id),
                    ElementType::Other => false,
                },
                Err(e) => spec_elementtype_from(kind@) is None && e == Error::ValueError,
            },
    {
        let t = crate::elements::elementtype_from_str(kind)?;
        Ok(self.set_contains(t, id))
    }

    /// Insert one id under a kind given in its string encoding; full words
    /// and single-letter aliases are accepted in any case.
    pub fn insert(&mut self, t: &str, id: i64) -> (r: Result<(), Error>)
        ensures
            match r {
                Ok(()) => {
                    &&& spec_elementtype_from(t@) matches Some(et) && match et {
                        ElementType::Node => {
                            &&& final(self).nodes@ == old(self).nodes@.insert(id)
                            &&& final(self).ways@ == old(self).ways@
                            &&& final(self).relations@ == old(self).relations@
                        },
                        ElementType::Way => {
                            &&& final(self).ways@ == old(self).ways@.insert(id)
                            &&& final(self).nodes@ == old(self).nodes@
                            &&& final(self).relations@ == old(self).relations@
                        },
                        ElementType::Relation => {
                            &&& final(self).relations@ == old(self).relations@.insert(id)
                            &&& final(self).nodes@ == old(self).nodes@
                            &&& final(self).ways@ == old(self).ways@
                        },
                        ElementType::Other => false,
                    }
                    &&& final(self).exnodes@ == old(self).exnodes@
                },
                Err(e) => {
                    &&& spec_elementtype_from(t@) is None
                    &&& e == Error::ValueError
                    &&& *final(self) == *old(self)
                },
            },
    {
        match crate::elements::elementtype_from_str(t) {
            Ok(ElementType::Node) => {
                self.nodes.insert(id);
                Ok(())
            },
            Ok(ElementType::Way) => {
                self.ways.insert(id);
                Ok(())
            },
            Ok(ElementType::Relation) => {
                self.relations.insert(id);
                Ok(())
            },
            Ok(ElementType::Other) => {
                // the string parser yields only the three real kinds, so
                // this arm cannot be reached
                proof {
                    assert(false);
                }
                Err(Error::ValueError)
            },
            Err(e) => Err(e),
        }
    }

    /// The bulk variant: insert every id of the block unconditionally, for
    /// bookkeeping runs without spatial filtering.
    pub fn add_block_full(&mut self, bl: &PrimitiveBlock)
        ensures
            forall|id: i64|
                #![trigger final(self).nodes@.contains(id)]
                #![trigger old(self).nodes@.contains(id)]
                final(self).nodes@.contains(id) <==> old(self).nodes@.contains(id)
                    || spec_has_node_id(bl.nodes@, id),
            forall|id: i64|
                #![trigger final(self).ways@.contains(id)]
                #![trigger old(self).ways@.contains(id)]
                final(self).ways@.contains(id) <==> old(self).ways@.contains(id)
                    || spec_has_way_id(bl.ways@, id),
            forall|id: i64|
                #![trigger final(self).relations@.contains(id)]
                #![trigger old(self).relations@.contains(id)]
                final(self).relations@.contains(id) <==> old(self).relations@.contains(id)
                    || spec_has_rel_id(bl.relations@, id),
            final(self).exnodes@ == old(self).exnodes@,
    {
        let ghost n0 = self.nodes@;
        let mut i: usize = 0;
        while i < bl.nodes.len()
            invariant
                0 <= i <= bl.nodes@.len(),
                self.ways@ == old(self).ways@,
                self.relations@ == old(self).relations@,
                self.exnodes@ == old(self).exnodes@,
                forall|id: i64|
                    #![trigger self.nodes@.contains(id)]
                    #![trigger n0.contains(id)]
                    self.nodes@.contains(id) <==> n0.contains(id) || spec_has_node_id(
                        bl.nodes@.take(i as int),
                        id,
                    ),
            decreases bl.nodes@.len() - i,
        {
            self.nodes.insert(bl.nodes[i].id);
            proof {
                assert(bl.nodes@.take(i + 1) =~= bl.nodes@.take(i as int).push(bl.nodes@[i as int]));
                assert forall|id: i64|
                    #![trigger self.nodes@.contains(id)]
                    #![trigger n0.contains(id)]
                    self.nodes@.contains(id) <==> n0.contains(id) || spec_has_node_id(
                        bl.nodes@.take(i + 1),
                        id,
                    ) by {
                    lemma_has_node_id_push(bl.nodes@.take(i as int), bl.nodes@[i as int], id);
                }
            }
            i = i + 1;
        }
        proof {
            assert(bl.nodes@.take(bl.nodes@.len() as int) =~= bl.nodes@);
        }
        let ghost n1 = self.nodes@;
        let ghost w0 = self.ways@;
        let mut i: usize = 0;
        while i < bl.ways.len()
            invariant
                0 <= i <= bl.ways@.len(),
                self.nodes@ == n1,
                self.relations@ == old(self).relations@,
                self.exnodes@ == old(self).exnodes@,
                forall|id: i64|
                    #![trigger self.ways@.contains(id)]
                    #![trigger w0.contains(id)]
                    self.ways@.contains(id) <==> w0.contains(id) || spec_has_way_id(
                        bl.ways@.take(i as int),
                        id,
                    ),
            decreases bl.ways@.len() - i,
        {
            self.ways.insert(bl.ways[i].id);
            proof {
                assert(bl.ways@.take(i + 1) =~= bl.ways@.take(i as int).push(bl.ways@[i as int]));
                assert forall|id: i64|
                    #![trigger self.ways@.contains(id)]
                    #![trigger w0.contains(id)]
                    self.ways@.contains(id) <==> w0.contains(id) || spec_has_way_id(
                        bl.ways@.take(i + 1),
                        id,
                    ) by {
                    lemma_has_way_id_push(bl.ways@.take(i as int), bl.ways@[i as int], id);
                }
            }
            i = i + 1;
        }
        proof {
            assert(bl.ways@.take(bl.ways@.len() as int) =~= bl.ways@);
        }
        let ghost w1 = self.ways@;
        let ghost r0 = self.relations@;
        let mut i: usize = 0;
        while i < bl.relations.len()
            invariant
                0 <= i <= bl.relations@.len(),
                self.nodes@ == n1,
                self.ways@ == w1,
                self.exnodes@ == old(self).exnodes@,
                forall|id: i64|
                    #![trigger self.relations@.contains(id)]
                    #![trigger r0.contains(id)]
                    self.relations@.contains(id) <==> r0.contains(id) || spec_has_rel_id(
                        bl.relations@.take(i as int),
                        id,
                    ),
            decreases bl.relations@.len() - i,
        {
            self.relations.insert(bl.relations[i].id);
            proof {
                assert(bl.relations@.take(i + 1) =~= bl.relations@.take(i as int).push(
                    bl.relations@[i as int],
                ));
                assert forall|id: i64|
                    #![trigger self.relations@.contains(id)]
                    #![trigger r0.contains(id)]
                    self.relations@.contains(id) <==> r0.contains(id) || spec_has_rel_id(
                        bl.relations@.take(i + 1),
                        id,
                    ) by {
                    lemma_has_rel_id_push(
                        bl.relations@.take(i as int),
                        bl.relations@[i as int],
                        id,
                    );
                }
            }
            i = i + 1;
        }
        proof {
            assert(bl.relations@.take(bl.relations@.len() as int) =~= bl.relations@);
        }
    }

    /// The three-stage spatial scan over one block. First every node inside
    /// the box is selected; then every way with a selected reference is
    /// selected and its remaining references join the boundary set; last, a
    /// single ordered pass selects relations with an already-satisfied
    /// member.
    pub fn add_block_box(&mut self, bx_in: (i32, i32, i32, i32), bl: &PrimitiveBlock)
        ensures
            forall|id: i64|
                #![trigger final(self).nodes@.contains(id)]
                #![trigger old(self).nodes@.contains(id)]
                final(self).nodes@.contains(id) <==> old(self).nodes@.contains(id)
                    || spec_node_selected(
                    bl.nodes@,
                    Bbox { minlon: bx_in.0, minlat: bx_in.1, maxlon: bx_in.2, maxlat: bx_in.3 },
                    id,
                ),
            forall|id: i64|
                #![trigger final(self).ways@.contains(id)]
                #![trigger old(self).ways@.contains(id)]
                final(self).ways@.contains(id) <==> old(self).ways@.contains(id)
                    || spec_way_selected(bl.ways@, final(self).nodes@, id),
            forall|r: i64|
                #![trigger final(self).exnodes@.contains(r)]
                #![trigger old(self).exnodes@.contains(r)]
                final(self).exnodes@.contains(r) <==> old(self).exnodes@.contains(r)
                    || spec_boundary_ref(bl.ways@, final(self).nodes@, r),
            final(self).relations@ == spec_rel_stage(
                old(self).relations@,
                bl.relations@,
                final(self).nodes@,
                final(self).exnodes@,
                final(self).ways@,
            ),
    {
        let bx = Bbox::new(bx_in.0, bx_in.1, bx_in.2, bx_in.3);
        self.scan_nodes(bx, &bl.nodes);
        self.scan_ways(&bl.ways);
        self.scan_relations(&bl.relations);
    }

    /// The node stage over one record list: select every node inside the
    /// box. The other sets are untouched.
    fn scan_nodes(&mut self, bx: Bbox, nodes: &Vec<Node>)
        ensures
            final(self).ways@ == old(self).ways@,
            final(self).relations@ == old(self).relations@,
            final(self).exnodes@ == old(self).exnodes@,
            forall|id: i64|
                #![trigger final(self).nodes@.contains(id)]
                #![trigger old(self).nodes@.contains(id)]
                final(self).nodes@.contains(id) <==> old(self).nodes@.contains(id)
                    || spec_node_selected(nodes@, bx, id),
    {
        let ghost n0 = self.nodes@;
        let mut i: usize = 0;
        while i < nodes.len()
            invariant
                0 <= i <= nodes@.len(),
                self.ways@ == old(self).ways@,
                self.relations@ == old(self).relations@,
                self.exnodes@ == old(self).exnodes@,
                forall|id: i64|
                    #![trigger self.nodes@.contains(id)]
                    #![trigger n0.contains(id)]
                    self.nodes@.contains(id) <==> n0.contains(id) || spec_node_selected(
                        nodes@.take(i as int),
                        bx,
                        id,
                    ),
            decreases nodes@.len() - i,
        {
            let n = &nodes[i];
            if bx.contains_point(n.lon, n.lat) {
                self.nodes.insert(n.id);
            }
            proof {
                assert(nodes@.take(i + 1) =~= nodes@.take(i as int).push(nodes@[i as int]));
                assert forall|id: i64|
                    #![trigger self.nodes@.contains(id)]
                    #![trigger n0.contains(id)]
                    self.nodes@.contains(id) <==> n0.contains(id) || spec_node_selected(
                        nodes@.take(i + 1),
                        bx,
                        id,
                    ) by {
                    lemma_node_selected_push(nodes@.take(i as int), nodes@[i as int], bx, id);
                }
            }
            i = i + 1;
        }
        proof {
            assert(nodes@.take(nodes@.len() as int) =~= nodes@);
        }
    }

    /// The way stage over one record list, against the node set as it
    /// stands: select every way with a selected reference, and send its
    /// unselected references to the boundary set. Nodes and relations are
    /// untouched.
    fn scan_ways(&mut self, ways: &Vec<Way>)
        ensures
            final(self).nodes@ == old(self).nodes@,
            final(self).relations@ == old(self).relations@,
            forall|id: i64|
                #![trigger final(self).ways@.contains(id)]
                #![trigger old(self).ways@.contains(id)]
                final(self).ways@.contains(id) <==> old(self).ways@.contains(id)
                    || spec_way_selected(ways@, old(self).nodes@, id),
            forall|r: i64|
                #![trigger final(self).exnodes@.contains(r)]
                #![trigger old(self).exnodes@.contains(r)]
                final(self).exnodes@.contains(r) <==> old(self).exnodes@.contains(r)
                    || spec_boundary_ref(ways@, old(self).nodes@, r),
    {
        let ghost n1 = self.nodes@;
        let ghost w0 = self.ways@;
        let ghost x0 = self.exnodes@;
        let mut i: usize = 0;
        while i < ways.len()
            invariant
                0 <= i <= ways@.len(),
                self.nodes@ == n1,
                self.relations@ == old(self).relations@,
                forall|id: i64|
                    #![trigger self.ways@.contains(id)]
                    #![trigger w0.contains(id)]
                    self.ways@.contains(id) <==> w0.contains(id) || spec_way_selected(
                        ways@.take(i as int),
                        n1,
                        id,
                    ),
                forall|r: i64|
                    #![trigger self.exnodes@.contains(r)]
                    #![trigger x0.contains(r)]
                    self.exnodes@.contains(r) <==> x0.contains(r) || spec_boundary_ref(
                        ways@.take(i as int),
                        n1,
                        r,
                    ),
            decreases ways@.len() - i,
        {
            let ghost ws_pre = self.ways@;
            let ghost xs_pre = self.exnodes@;
            let w = &ways[i];
            let hit = way_hit_exec(w, &self.nodes);
            if hit {
                self.ways.insert(w.id);
                let ghost xs = self.exnodes@;
                let mut j: usize = 0;
                while j < w.refs.len()
                    invariant
                        0 <= j <= w.refs@.len(),
                        *w == ways@[i as int],
                        self.nodes@ == n1,
                        self.ways@ == ws_pre.insert(ways@[i as int].id),
                        self.relations@ == old(self).relations@,
                        xs == xs_pre,
                        forall|r: i64|
                            #![trigger self.exnodes@.contains(r)]
                            #![trigger xs.contains(r)]
                            self.exnodes@.contains(r) <==> xs.contains(r) || (exists|k: int|
                                0 <= k < j && (#[trigger] w.refs@[k]) == r && !n1.contains(r)),
                    decreases w.refs@.len() - j,
                {
                    if !self.nodes.contains(&w.refs[j]) {
                        self.exnodes.insert(w.refs[j]);
                    }
                    proof {
                        assert forall|r: i64|
                            #![trigger self.exnodes@.contains(r)]
                            #![trigger xs.contains(r)]
                            self.exnodes@.contains(r) <==> xs.contains(r) || (exists|k: int|
                                0 <= k < j + 1 && (#[trigger] w.refs@[k]) == r && !n1.contains(r))
                            by {
                            if self.exnodes@.contains(r) && !xs.contains(r) {
                                if !(exists|k: int|
                                    0 <= k < j && (#[trigger] w.refs@[k]) == r && !n1.contains(r)) {
                                    assert(w.refs@[j as int] == r && !n1.contains(r));
                                }
                            }
                            if (exists|k: int|
                                0 <= k < j + 1 && (#[trigger] w.refs@[k]) == r && !n1.contains(r)) {
                                let k = choose|k: int|
                                    0 <= k < j + 1 && (#[trigger] w.refs@[k]) == r && !n1.contains(
                                        r,
                                    );
                                if k < j {
                                    assert(self.exnodes@.contains(r));
                                } else {
                                    assert(w.refs@[j as int] == r);
                                }
                            }
                        }
                    }
                    j = j + 1;
                }
            }
            proof {
                assert(ways@.take(i + 1) =~= ways@.take(i as int).push(ways@[i as int]));
                if hit {
                    assert(spec_way_hit(ways@[i as int], n1));
                } else {
                    assert(!spec_way_hit(ways@[i as int], n1));
                }
                assert forall|id: i64|
                    #![trigger self.ways@.contains(id)]
                    #![trigger w0.contains(id)]
                    self.ways@.contains(id) <==> w0.contains(id) || spec_way_selected(
                        ways@.take(i + 1),
                        n1,
                        id,
                    ) by {
                    lemma_way_selected_push(ways@.take(i as int), ways@[i as int], n1, id);
                }
                assert forall|r: i64|
                    #![trigger self.exnodes@.contains(r)]
                    #![trigger x0.contains(r)]
                    self.exnodes@.contains(r) <==> x0.contains(r) || spec_boundary_ref(
                        ways@.take(i + 1),
                        n1,
                        r,
                    ) by {
                    lemma_boundary_ref_push(ways@.take(i as int), ways@[i as int], n1, r);
                }
            }
            i = i + 1;
        }
        proof {
            assert(ways@.take(ways@.len() as int) =~= ways@);
        }
    }

    /// The single relation pass over one record list, against the sets as
    /// they stand: each relation, in order, joins when a member already
    /// satisfies the filter. The other sets are untouched.
    fn scan_relations(&mut self, rels: &Vec<Relation>)
        ensures
            final(self).nodes@ == old(self).nodes@,
            final(self).ways@ == old(self).ways@,
            final(self).exnodes@ == old(self).exnodes@,
            final(self).relations@ == spec_rel_stage(
                old(self).relations@,
                rels@,
                old(self).nodes@,
                old(self).exnodes@,
                old(self).ways@,
            ),
    {
        let ghost n1 = self.nodes@;
        let ghost x1 = self.exnodes@;
        let ghost w1 = self.ways@;
        let ghost r0 = self.relations@;
        let mut i: usize = 0;
        while i < rels.len()
            invariant
                0 <= i <= rels@.len(),
                self.nodes@ == n1,
                self.ways@ == w1,
                self.exnodes@ == x1,
                self.relations@ == spec_rel_stage(r0, rels@.take(i as int), n1, x1, w1),
            decreases rels@.len() - i,
        {
            let ghost racc = self.relations@;
            let rl = &rels[i];
            if self.rel_hit(rl) {
                self.relations.insert(rl.id);
            }
            proof {
                assert(rels@.take(i + 1) =~= rels@.take(i as int).push(rels@[i as int]));
                lemma_rel_stage_push(r0, rels@.take(i as int), rels@[i as int], n1, x1, w1);
                assert(self.relations@ == spec_rel_step(racc, rels@[i as int], n1, x1, w1));
            }
            i = i + 1;
        }
        proof {
            assert(rels@.take(rels@.len() as int) =~= rels@);
        }
    }



    /// The node pass of the stream-level scan: one pass over every block's
    /// node list in order, selecting each node inside the box. The other
    /// sets are untouched.
    pub fn add_nodes_stage(&mut self, bx_in: (i32, i32, i32, i32), blocks: &Vec<PrimitiveBlock>)
        ensures
            final(self).ways@ == old(self).ways@,
            final(self).relations@ == old(self).relations@,
            final(self).exnodes@ == old(self).exnodes@,
            forall|id: i64|
                #![trigger final(self).nodes@.contains(id)]
                #![trigger old(self).nodes@.contains(id)]
                final(self).nodes@.contains(id) <==> old(self).nodes@.contains(id)
                    || spec_node_selected(
                    spec_all_nodes(blocks@),
                    Bbox { minlon: bx_in.0, minlat: bx_in.1, maxlon: bx_in.2, maxlat: bx_in.3 },
                    id,
                ),
    {
        let bx = Bbox::new(bx_in.0, bx_in.1, bx_in.2, bx_in.3);
        let ghost n0 = self.nodes@;
        let mut b: usize = 0;
        while b < blocks.len()
            invariant
                0 <= b <= blocks@.len(),
                bx == (Bbox { minlon: bx_in.0, minlat: bx_in.1, maxlon: bx_in.2, maxlat: bx_in.3 }),
                self.ways@ == old(self).ways@,
                self.relations@ == old(self).relations@,
                self.exnodes@ == old(self).exnodes@,
                forall|id: i64|
                    #![trigger self.nodes@.contains(id)]
                    #![trigger n0.contains(id)]
                    self.nodes@.contains(id) <==> n0.contains(id) || spec_node_selected(
                        spec_all_nodes(blocks@.take(b as int)),
                        bx,
                        id,
                    ),
            decreases blocks@.len() - b,
        {
            let ghost pre = spec_all_nodes(blocks@.take(b as int));
            self.scan_nodes(bx, &blocks[b].nodes);
            proof {
                assert(blocks@.take(b + 1).drop_last() =~= blocks@.take(b as int));
                assert(blocks@.take(b + 1).last() == blocks@[b as int]);
                assert(spec_all_nodes(blocks@.take(b + 1)) == pre + blocks@[b as int].nodes@);
                assert forall|id: i64|
                    #![trigger self.nodes@.contains(id)]
                    #![trigger n0.contains(id)]
                    self.nodes@.contains(id) <==> n0.contains(id) || spec_node_selected(
                        spec_all_nodes(blocks@.take(b + 1)),
                        bx,
                        id,
                    ) by {
                    lemma_node_selected_concat(pre, blocks@[b as int].nodes@, bx, id);
                }
            }
            b = b + 1;
        }
        proof {
            assert(blocks@.take(blocks@.len() as int) =~= blocks@);
        }
    }

    /// The way pass of the stream-level scan: one pass over every block's
    /// way list in order, against the node set as it stands after the
    /// completed node pass. Nodes and relations are untouched.
    pub fn add_ways_stage(&mut self, blocks: &Vec<PrimitiveBlock>)
        ensures
            final(self).nodes@ == old(self).nodes@,
            final(self).relations@ == old(self).relations@,
            forall|id: i64|
                #![trigger final(self).ways@.contains(id)]
                #![trigger old(self).ways@.contains(id)]
                final(self).ways@.contains(id) <==> old(self).ways@.contains(id)
                    || spec_way_selected(spec_all_ways(blocks@), old(self).nodes@, id),
            forall|r: i64|
                #![trigger final(self).exnodes@.contains(r)]
                #![trigger old(self).exnodes@.contains(r)]
                final(self).exnodes@.contains(r) <==> old(self).exnodes@.contains(r)
                    || spec_boundary_ref(spec_all_ways(blocks@), old(self).nodes@, r),
    {
        let ghost n1 = self.nodes@;
        let ghost w0 = self.ways@;
        let ghost x0 = self.exnodes@;
        let mut b: usize = 0;
        while b < blocks.len()
            invariant
                0 <= b <= blocks@.len(),
                self.nodes@ == n1,
                self.relations@ == old(self).relations@,
                forall|id: i64|
                    #![trigger self.ways@.contains(id)]
                    #![trigger w0.contains(id)]
                    self.ways@.contains(id) <==> w0.contains(id) || spec_way_selected(
                        spec_all_ways(blocks@.take(b as int)),
                        n1,
                        id,
                    ),
                forall|r: i64|
                    #![trigger self.exnodes@.contains(r)]
                    #![trigger x0.contains(r)]
                    self.exnodes@.contains(r) <==> x0.contains(r) || spec_boundary_ref(
                        spec_all_ways(blocks@.take(b as int)),
                        n1,
                        r,
                    ),
            decreases blocks@.len() - b,
        {
            let ghost pre = spec_all_ways(blocks@.take(b as int));
            self.scan_ways(&blocks[b].ways);
            proof {
                assert(blocks@.take(b + 1).drop_last() =~= blocks@.take(b as int));
                assert(blocks@.take(b + 1).last() == blocks@[b as int]);
                assert(spec_all_ways(blocks@.take(b + 1)) == pre + blocks@[b as int].ways@);
                assert forall|id: i64|
                    #![trigger self.ways@.contains(id)]
                    #![trigger w0.contains(id)]
                    self.ways@.contains(id) <==> w0.contains(id) || spec_way_selected(
                        spec_all_ways(blocks@.take(b + 1)),
                        n1,
                        id,
                    ) by {
                    lemma_way_selected_concat(pre, blocks@[b as int].ways@, n1, id);
                }
                assert forall|r: i64|
                    #![trigger self.exnodes@.contains(r)]
                    #![trigger x0.contains(r)]
                    self.exnodes@.contains(r) <==> x0.contains(r) || spec_boundary_ref(
                        spec_all_ways(blocks@.take(b + 1)),
                        n1,
                        r,
                    ) by {
                    lemma_boundary_ref_concat(pre, blocks@[b as int].ways@, n1, r);
                }
            }
            b = b + 1;
        }
        proof {
            assert(blocks@.take(blocks@.len() as int) =~= blocks@);
        }
    }

    /// The relation pass of the stream-level scan: one single pass over
    /// every block's relation list in order, against the completed node,
    /// boundary and way sets. The other sets are untouched.
    pub fn add_relations_stage(&mut self, blocks: &Vec<PrimitiveBlock>)
        ensures
            final(self).nodes@ == old(self).nodes@,
            final(self).ways@ == old(self).ways@,
            final(self).exnodes@ == old(self).exnodes@,
            final(self).relations@ == spec_rel_stage(
                old(self).relations@,
                spec_all_relations(blocks@),
                old(self).nodes@,
                old(self).exnodes@,
                old(self).ways@,
            ),
    {
        let ghost n1 = self.nodes@;
        let ghost x1 = self.exnodes@;
        let ghost w1 = self.ways@;
        let ghost r0 = self.relations@;
        let mut b: usize = 0;
        while b < blocks.len()
            invariant
                0 <= b <= blocks@.len(),
                self.nodes@ == n1,
                self.ways@ == w1,
                self.exnodes@ == x1,
                self.relations@ == spec_rel_stage(
                    r0,
                    spec_all_relations(blocks@.take(b as int)),
                    n1,
                    x1,
                    w1,
                ),
            decreases blocks@.len() - b,
        {
            let ghost pre = spec_all_relations(blocks@.take(b as int));
            self.scan_relations(&blocks[b].relations);
            proof {
                assert(blocks@.take(b + 1).drop_last() =~= blocks@.take(b as int));
                assert(blocks@.take(b + 1).last() == blocks@[b as int]);
                assert(spec_all_relations(blocks@.take(b + 1)) == pre
                    + blocks@[b as int].relations@);
                lemma_rel_stage_concat(r0, pre, blocks@[b as int].relations@, n1, x1, w1);
            }
            b = b + 1;
        }
        proof {
            assert(blocks@.take(blocks@.len() as int) =~= blocks@);
        }
    }

    /// The stream-level spatial scan: three ordered passes over the whole
    /// decoded block stream — all nodes first, then all ways against the
    /// completed node set, then one single relation pass against the
    /// completed sets. A way anywhere in the stream whose reference is
    /// selected by any block's node stage is selected, and an id that any
    /// node stage selects never enters the boundary set.
    pub fn add_blocks_box(&mut self, bx_in: (i32, i32, i32, i32), blocks: &Vec<PrimitiveBlock>)
        ensures
            forall|id: i64|
                #![trigger final(self).nodes@.contains(id)]
                #![trigger old(self).nodes@.contains(id)]
                final(self).nodes@.contains(id) <==> old(self).nodes@.contains(id)
                    || spec_node_selected(
                    spec_all_nodes(blocks@),
                    Bbox { minlon: bx_in.0, minlat: bx_in.1, maxlon: bx_in.2, maxlat: bx_in.3 },
                    id,
                ),
            forall|id: i64|
                #![trigger final(self).ways@.contains(id)]
                #![trigger old(self).ways@.contains(id)]
                final(self).ways@.contains(id) <==> old(self).ways@.contains(id)
                    || spec_way_selected(spec_all_ways(blocks@), final(self).nodes@, id),
            forall|r: i64|
                #![trigger final(self).exnodes@.contains(r)]
                #![trigger old(self).exnodes@.contains(r)]
                final(self).exnodes@.contains(r) <==> old(self).exnodes@.contains(r)
                    || spec_boundary_ref(spec_all_ways(blocks@), final(self).nodes@, r),
            final(self).relations@ == spec_rel_stage(
                old(self).relations@,
                spec_all_relations(blocks@),
                final(self).nodes@,
                final(self).exnodes@,
                final(self).ways@,
            ),
    {
        self.add_nodes_stage(bx_in, blocks);
        self.add_ways_stage(blocks);
        self.add_relations_stage(blocks);
    }

    /// Whether any member of the relation satisfies the filter so far.
    fn rel_hit(&self, rl: &Relation) -> (r: bool)
        ensures
            r == spec_rel_hit(*rl, self.nodes@, self.exnodes@, self.ways@, self.relations@),
    {
        let mut j: usize = 0;
        while j < rl.members.len()
            invariant
                0 <= j <= rl.members@.len(),
                forall|k: int|
                    0 <= k < j ==> !spec_member_hit(
                        #[trigger] rl.members@[k],
                        self.nodes@,
                        self.exnodes@,
                        self.ways@,
                        self.relations@,
                    ),
            decreases rl.members@.len() - j,
        {
            let m = &rl.members[j];
            if self.contains(m.mem_type, m.mem_ref) {
                return true;
            }
            j = j + 1;
        }
        false
    }
}

/// All node records of a block list, in block order.
pub open spec fn spec_all_nodes(blocks: Seq<PrimitiveBlock>) -> Seq<Node>
    decreases blocks.len(),
{
    if blocks.len() == 0 {
        Seq::empty()
    } else {
        spec_all_nodes(blocks.drop_last()) + blocks.last().nodes@
    }
}

/// All way records of a block list, in block order.
pub open spec fn spec_all_ways(blocks: Seq<PrimitiveBlock>) -> Seq<Way>
    decreases blocks.len(),
{
    if blocks.len() == 0 {
        Seq::empty()
    } else {
        spec_all_ways(blocks.drop_last()) + blocks.last().ways@
    }
}

/// All relation records of a block list, in block order.
pub open spec fn spec_all_relations(blocks: Seq<PrimitiveBlock>) -> Seq<Relation>
    decreases blocks.len(),
{
    if blocks.len() == 0 {
        Seq::empty()
    } else {
        spec_all_relations(blocks.drop_last()) + blocks.last().relations@
    }
}

/// Node selection splits over concatenation.
proof fn lemma_node_selected_concat(a: Seq<Node>, b: Seq<Node>, bx: Bbox, id: i64)
    ensures
        spec_node_selected(a + b, bx, id) <==> spec_node_selected(a, bx, id)
            || spec_node_selected(b, bx, id),
{
    if spec_node_selected(a + b, bx, id) {
        let i = choose|i: int|
            0 <= i < (a + b).len() && (#[trigger] (a + b)[i]).id == id && bx.spec_contains_point(
                (a + b)[i].lon as int,
                (a + b)[i].lat as int,
            );
        if i < a.len() {
            assert((a + b)[i] == a[i]);
        } else {
            assert((a + b)[i] == b[i - a.len()]);
        }
    }
    if spec_node_selected(a, bx, id) {
        let i = choose|i: int|
            0 <= i < a.len() && (#[trigger] a[i]).id == id && bx.spec_contains_point(
                a[i].lon as int,
                a[i].lat as int,
            );
        assert((a + b)[i] == a[i]);
    }
    if spec_node_selected(b, bx, id) {
        let i = choose|i: int|
            0 <= i < b.len() && (#[trigger] b[i]).id == id && bx.spec_contains_point(
                b[i].lon as int,
                b[i].lat as int,
            );
        assert((a + b)[a.len() + i] == b[i]);
    }
}

/// Way selection splits over concatenation.
proof fn lemma_way_selected_concat(a: Seq<Way>, b: Seq<Way>, n1: Set<i64>, id: i64)
    ensures
        spec_way_selected(a + b, n1, id) <==> spec_way_selected(a, n1, id) || spec_way_selected(
            b,
            n1,
            id,
        ),
{
    if spec_way_selected(a + b, n1, id) {
        let i = choose|i: int|
            0 <= i < (a + b).len() && (#[trigger] (a + b)[i]).id == id && spec_way_hit(
                (a + b)[i],
                n1,
            );
        if i < a.len() {
            assert((a + b)[i] == a[i]);
        } else {
            assert((a + b)[i] == b[i - a.len()]);
        }
    }
    if spec_way_selected(a, n1, id) {
        let i = choose|i: int|
            0 <= i < a.len() && (#[trigger] a[i]).id == id && spec_way_hit(a[i], n1);
        assert((a + b)[i] == a[i]);
    }
    if spec_way_selected(b, n1, id) {
        let i = choose|i: int|
            0 <= i < b.len() && (#[trigger] b[i]).id == id && spec_way_hit(b[i], n1);
        assert((a + b)[a.len() + i] == b[i]);
    }
}

/// Boundary membership splits over concatenation.
proof fn lemma_boundary_ref_concat(a: Seq<Way>, b: Seq<Way>, n1: Set<i64>, r: i64)
    ensures
        spec_boundary_ref(a + b, n1, r) <==> spec_boundary_ref(a, n1, r) || spec_boundary_ref(
            b,
            n1,
            r,
        ),
{
    if spec_boundary_ref(a + b, n1, r) {
        let (i, j) = choose|i: int, j: int|
            0 <= i < (a + b).len() && spec_way_hit((a + b)[i], n1) && 0 <= j < (a
                + b)[i].refs@.len() && (#[trigger] (a + b)[i].refs@[j]) == r && !n1.contains(r);
        if i < a.len() {
            assert((a + b)[i] == a[i]);
            assert(spec_boundary_ref(a, n1, r));
        } else {
            assert((a + b)[i] == b[i - a.len()]);
            assert(spec_boundary_ref(b, n1, r));
        }
    }
    if spec_boundary_ref(a, n1, r) {
        let (i, j) = choose|i: int, j: int|
            0 <= i < a.len() && spec_way_hit(a[i], n1) && 0 <= j < a[i].refs@.len() && (
            #[trigger] a[i].refs@[j]) == r && !n1.contains(r);
        assert((a + b)[i] == a[i]);
        assert(spec_boundary_ref(a + b, n1, r));
    }
    if spec_boundary_ref(b, n1, r) {
        let (i, j) = choose|i: int, j: int|
            0 <= i < b.len() && spec_way_hit(b[i], n1) && 0 <= j < b[i].refs@.len() && (
            #[trigger] b[i].refs@[j]) == r && !n1.contains(r);
        assert((a + b)[a.len() + i] == b[i]);
        assert(spec_boundary_ref(a + b, n1, r));
    }
}

/// The single relation pass over a concatenation is the pass over the
/// first part continued over the second.
proof fn lemma_rel_stage_concat(
    racc: Set<i64>,
    a: Seq<Relation>,
    b: Seq<Relation>,
    n: Set<i64>,
    x: Set<i64>,
    w: Set<i64>,
)
    ensures
        spec_rel_stage(racc, a + b, n, x, w) == spec_rel_stage(
            spec_rel_stage(racc, a, n, x, w),
            b,
            n,
            x,
            w,
        ),
    decreases a.len(),
{
    if a.len() == 0 {
        assert(a + b =~= b);
        assert(spec_rel_stage(racc, a, n, x, w) == racc);
    } else {
        assert((a + b)[0] == a[0]);
        assert((a + b).drop_first() =~= a.drop_first() + b);
        lemma_rel_stage_concat(spec_rel_step(racc, a[0], n, x, w), a.drop_first(), b, n, x, w);
    }
}

/// The polymorphic filter capability: either no filtering at all, or an
/// explicit frozen id-set.
pub enum IdSet {
    AcceptAll,
    Explicit(IdSetSet),
}

impl IdSet {
    /// What the filter retains for kind `t` and id `id`.
    pub open spec fn spec_contains(self, t: ElementType, id: i64) -> bool {
        match self {
            IdSet::AcceptAll => true,
            IdSet::Explicit(s) => s.spec_contains(t, id),
        }
    }

    pub fn contains(&self, t: ElementType, id: i64) -> (r: bool)
        ensures
            r == self.spec_contains(t, id),
    {
        match self {
            IdSet::AcceptAll => true,
            IdSet::Explicit(s) => s.contains(t, id),
        }
    }
}

/// A node id is selected by the scan exactly when some node of the stream
/// with that id lies inside the box: the node stage neither misses an
/// inside node nor admits an outside one. Stated for a scan started on an
/// empty filter over a record stream with distinct node ids, so it covers
/// both the per-block scan and the stream-level passes.
pub proof fn lemma_node_stage_iff(pre: IdSetSet, post: IdSetSet, bx: Bbox, nodes: Seq<Node>)
    requires
        pre.nodes@ == Set::<i64>::empty(),
        forall|id: i64|
            #![trigger post.nodes@.contains(id)]
            #![trigger spec_node_selected(nodes, bx, id)]
            post.nodes@.contains(id) <==> pre.nodes@.contains(id) || spec_node_selected(
                nodes,
                bx,
                id,
            ),
        forall|i: int, k: int|
            0 <= i < k < nodes.len() ==> (#[trigger] nodes[i]).id != (#[trigger] nodes[k]).id,
    ensures
        forall|i: int|
            0 <= i < nodes.len() ==> (post.nodes@.contains((#[trigger] nodes[i]).id)
                <==> bx.spec_contains_point(nodes[i].lon as int, nodes[i].lat as int)),
{
    assert forall|i: int| 0 <= i < nodes.len() implies (post.nodes@.contains(
        (#[trigger] nodes[i]).id,
    ) <==> bx.spec_contains_point(nodes[i].lon as int, nodes[i].lat as int)) by {
        let id = nodes[i].id;
        if post.nodes@.contains(id) {
            assert(spec_node_selected(nodes, bx, id));
            let k = choose|k: int|
                0 <= k < nodes.len() && (#[trigger] nodes[k]).id == id && bx.spec_contains_point(
                    nodes[k].lon as int,
                    nodes[k].lat as int,
                );
            assert(k == i);
        }
        if bx.spec_contains_point(nodes[i].lon as int, nodes[i].lat as int) {
            assert(spec_node_selected(nodes, bx, id));
            assert(post.nodes@.contains(id));
        }
    }
}

/// Referential completeness of the way stage: every reference of a way
/// that the scan selected is afterwards either a selected node or a
/// boundary id — no dangling references. Stated for a scan started on
/// empty way and boundary sets over a record stream with distinct way
/// ids, so it covers both the per-block scan and the stream-level passes.
pub proof fn lemma_ways_referentially_complete(pre: IdSetSet, post: IdSetSet, ways: Seq<Way>)
    requires
        pre.ways@ == Set::<i64>::empty(),
        pre.exnodes@ == Set::<i64>::empty(),
        forall|id: i64|
            #![trigger post.ways@.contains(id)]
            #![trigger spec_way_selected(ways, post.nodes@, id)]
            post.ways@.contains(id) <==> pre.ways@.contains(id) || spec_way_selected(
                ways,
                post.nodes@,
                id,
            ),
        forall|r: i64|
            #![trigger post.exnodes@.contains(r)]
            #![trigger spec_boundary_ref(ways, post.nodes@, r)]
            post.exnodes@.contains(r) <==> pre.exnodes@.contains(r) || spec_boundary_ref(
                ways,
                post.nodes@,
                r,
            ),
        forall|i: int, k: int|
            0 <= i < k < ways.len() ==> (#[trigger] ways[i]).id != (#[trigger] ways[k]).id,
    ensures
        forall|i: int, j: int|
            0 <= i < ways.len() && post.ways@.contains((#[trigger] ways[i]).id) && 0 <= j
                < ways[i].refs@.len() ==> post.nodes@.contains(#[trigger] ways[i].refs@[j])
                || post.exnodes@.contains(ways[i].refs@[j]),
{
    assert forall|i: int, j: int|
        0 <= i < ways.len() && post.ways@.contains((#[trigger] ways[i]).id) && 0 <= j
            < ways[i].refs@.len() implies post.nodes@.contains(#[trigger] ways[i].refs@[j])
        || post.exnodes@.contains(ways[i].refs@[j]) by {
        let id = ways[i].id;
        assert(spec_way_selected(ways, post.nodes@, id));
        let k = choose|k: int|
            0 <= k < ways.len() && (#[trigger] ways[k]).id == id && spec_way_hit(
                ways[k],
                post.nodes@,
            );
        assert(k == i);
        let r = ways[i].refs@[j];
        if !post.nodes@.contains(r) {
            assert(spec_boundary_ref(ways, post.nodes@, r));
            assert(post.exnodes@.contains(r));
        }
    }
}

/// Some minimal node of the list has id `id`.
pub open spec fn spec_has_mnode_id(s: Seq<MinimalNode>, id: i64) -> bool {
    exists|i: int| 0 <= i < s.len() && (#[trigger] s[i]).id == id
}

/// Some minimal way of the list has id `id`.
pub open spec fn spec_has_mway_id(s: Seq<MinimalWay>, id: i64) -> bool {
    exists|i: int| 0 <= i < s.len() && (#[trigger] s[i]).id == id
}

/// Some minimal relation of the list has id `id`.
pub open spec fn spec_has_mrel_id(s: Seq<MinimalRelation>, id: i64) -> bool {
    exists|i: int| 0 <= i < s.len() && (#[trigger] s[i]).id == id
}

proof fn lemma_has_mnode_id_push(s: Seq<MinimalNode>, n: MinimalNode, id: i64)
    ensures
        spec_has_mnode_id(s.push(n), id) <==> spec_has_mnode_id(s, id) || n.id == id,
{
    if spec_has_mnode_id(s.push(n), id) {
        let i = choose|i: int| 0 <= i < s.push(n).len() && (#[trigger] s.push(n)[i]).id == id;
        if i < s.len() {
            assert(s.push(n)[i] == s[i]);
        } else {
            assert(s.push(n)[i] == n);
        }
    }
    if spec_has_mnode_id(s, id) {
        let i = choose|i: int| 0 <= i < s.len() && (#[trigger] s[i]).id == id;
        assert(s.push(n)[i] == s[i]);
    }
    if n.id == id {
        assert(s.push(n)[s.len() as int] == n);
    }
}

proof fn lemma_has_mway_id_push(s: Seq<MinimalWay>, w: MinimalWay, id: i64)
    ensures
        spec_has_mway_id(s.push(w), id) <==> spec_has_mway_id(s, id) || w.id == id,
{
    if spec_has_mway_id(s.push(w), id) {
        let i = choose|i: int| 0 <= i < s.push(w).len() && (#[trigger] s.push(w)[i]).id == id;
        if i < s.len() {
            assert(s.push(w)[i] == s[i]);
        } else {
            assert(s.push(w)[i] == w);
        }
    }
    if spec_has_mway_id(s, id) {
        let i = choose|i: int| 0 <= i < s.len() && (#[trigger] s[i]).id == id;
        assert(s.push(w)[i] == s[i]);
    }
    if w.id == id {
        assert(s.push(w)[s.len() as int] == w);
    }
}

proof fn lemma_has_mrel_id_push(s: Seq<MinimalRelation>, rl: MinimalRelation, id: i64)
    ensures
        spec_has_mrel_id(s.push(rl), id) <==> spec_has_mrel_id(s, id) || rl.id == id,
{
    if spec_has_mrel_id(s.push(rl), id) {
        let i = choose|i: int| 0 <= i < s.push(rl).len() && (#[trigger] s.push(rl)[i]).id == id;
        if i < s.len() {
            assert(s.push(rl)[i] == s[i]);
        } else {
            assert(s.push(rl)[i] == rl);
        }
    }
    if spec_has_mrel_id(s, id) {
        let i = choose|i: int| 0 <= i < s.len() && (#[trigger] s[i]).id == id;
        assert(s.push(rl)[i] == s[i]);
    }
    if rl.id == id {
        assert(s.push(rl)[s.len() as int] == rl);
    }
}

/// Some minimal node of the list has id `id` and lies inside the box.
pub open spec fn spec_mnode_selected(nodes: Seq<MinimalNode>, bx: Bbox, id: i64) -> bool {
    exists|i: int|
        0 <= i < nodes.len() && (#[trigger] nodes[i]).id == id && bx.spec_contains_point(
            nodes[i].lon as int,
            nodes[i].lat as int,
        )
}

proof fn lemma_mnode_selected_push(s: Seq<MinimalNode>, n: MinimalNode, bx: Bbox, id: i64)
    ensures
        spec_mnode_selected(s.push(n), bx, id) <==> (spec_mnode_selected(s, bx, id) || (n.id == id
            && bx.spec_contains_point(n.lon as int, n.lat as int))),
{
    if spec_mnode_selected(s.push(n), bx, id) {
        let i = choose|i: int|
            0 <= i < s.push(n).len() && (#[trigger] s.push(n)[i]).id == id
                && bx.spec_contains_point(s.push(n)[i].lon as int, s.push(n)[i].lat as int);
        if i < s.len() {
            assert(s.push(n)[i] == s[i]);
        } else {
            assert(s.push(n)[i] == n);
        }
    }
    if spec_mnode_selected(s, bx, id) {
        let i = choose|i: int|
            0 <= i < s.len() && (#[trigger] s[i]).id == id && bx.spec_contains_point(
                s[i].lon as int,
                s[i].lat as int,
            );
        assert(s.push(n)[i] == s[i]);
    }
    if n.id == id && bx.spec_contains_point(n.lon as int, n.lat as int) {
        assert(s.push(n)[s.len() as int] == n);
    }
}

/// Whether a minimal way's packed reference list decodes.
pub open spec fn spec_mway_ok(w: MinimalWay) -> bool {
    spec_packed_ints(w.refs_data@) matches Some(vals) && spec_all_fit(vals) && spec_deltas_fit(
        vals,
    )
}

/// A minimal way's decoded reference ids, in order.
pub open spec fn spec_mway_refs(w: MinimalWay) -> Seq<i64> {
    let vals = spec_packed_ints(w.refs_data@).unwrap();
    Seq::new(vals.len(), |i: int| spec_delta_sum(vals, i) as i64)
}

/// Some decoded reference of the minimal way is already a selected node.
pub open spec fn spec_mway_hit(w: MinimalWay, n1: Set<i64>) -> bool {
    exists|j: int|
        0 <= j < spec_mway_refs(w).len() && n1.contains(#[trigger] spec_mway_refs(w)[j])
}

/// Some minimal way of the list has id `id` and a selected reference.
pub open spec fn spec_mway_selected(ways: Seq<MinimalWay>, n1: Set<i64>, id: i64) -> bool {
    exists|i: int|
        0 <= i < ways.len() && (#[trigger] ways[i]).id == id && spec_mway_hit(ways[i], n1)
}

/// `r` is a decoded reference of a selected minimal way that is not itself
/// a selected node.
pub open spec fn spec_mboundary_ref(ways: Seq<MinimalWay>, n1: Set<i64>, r: i64) -> bool {
    exists|i: int, j: int|
        0 <= i < ways.len() && spec_mway_hit(ways[i], n1) && 0 <= j < spec_mway_refs(
            ways[i],
        ).len() && (#[trigger] spec_mway_refs(ways[i])[j]) == r && !n1.contains(r)
}

proof fn lemma_mway_selected_push(s: Seq<MinimalWay>, w: MinimalWay, n1: Set<i64>, id: i64)
    ensures
        spec_mway_selected(s.push(w), n1, id) <==> (spec_mway_selected(s, n1, id) || (w.id == id
            && spec_mway_hit(w, n1))),
{
    if spec_mway_selected(s.push(w), n1, id) {
        let i = choose|i: int|
            0 <= i < s.push(w).len() && (#[trigger] s.push(w)[i]).id == id && spec_mway_hit(
                s.push(w)[i],
                n1,
            );
        if i < s.len() {
            assert(s.push(w)[i] == s[i]);
        } else {
            assert(s.push(w)[i] == w);
        }
    }
    if spec_mway_selected(s, n1, id) {
        let i = choose|i: int|
            0 <= i < s.len() && (#[trigger] s[i]).id == id && spec_mway_hit(s[i], n1);
        assert(s.push(w)[i] == s[i]);
    }
    if w.id == id && spec_mway_hit(w, n1) {
        assert(s.push(w)[s.len() as int] == w);
    }
}

proof fn lemma_mboundary_ref_push(s: Seq<MinimalWay>, w: MinimalWay, n1: Set<i64>, r: i64)
    ensures
        spec_mboundary_ref(s.push(w), n1, r) <==> (spec_mboundary_ref(s, n1, r) || (spec_mway_hit(
            w,
            n1,
        ) && (exists|j: int| 0 <= j < spec_mway_refs(w).len() && spec_mway_refs(w)[j] == r)
            && !n1.contains(r))),
{
    if spec_mboundary_ref(s.push(w), n1, r) {
        let (i, j) = choose|i: int, j: int|
            0 <= i < s.push(w).len() && spec_mway_hit(s.push(w)[i], n1) && 0 <= j
                < spec_mway_refs(s.push(w)[i]).len() && (#[trigger] spec_mway_refs(
                s.push(w)[i],
            )[j]) == r && !n1.contains(r);
        if i < s.len() {
            assert(s.push(w)[i] == s[i]);
            assert(spec_mboundary_ref(s, n1, r));
        } else {
            assert(s.push(w)[i] == w);
        }
    }
    if spec_mboundary_ref(s, n1, r) {
        let (i, j) = choose|i: int, j: int|
            0 <= i < s.len() && spec_mway_hit(s[i], n1) && 0 <= j < spec_mway_refs(s[i]).len()
                && (#[trigger] spec_mway_refs(s[i])[j]) == r && !n1.contains(r);
        assert(s.push(w)[i] == s[i]);
        assert(spec_mboundary_ref(s.push(w), n1, r));
    }
    if spec_mway_hit(w, n1) && (exists|j: int|
        0 <= j < spec_mway_refs(w).len() && spec_mway_refs(w)[j] == r) && !n1.contains(r) {
        let j = choose|j: int| 0 <= j < spec_mway_refs(w).len() && spec_mway_refs(w)[j] == r;
        assert(s.push(w)[s.len() as int] == w);
        assert(spec_mboundary_ref(s.push(w), n1, r));
    }
}

/// Whether a minimal relation's packed member lists decode.
pub open spec fn spec_mrel_ok(rl: MinimalRelation) -> bool {
    &&& spec_packed_ints(rl.refs_data@) matches Some(vals) && spec_all_fit(vals)
        && spec_deltas_fit(vals)
    &&& spec_packed_ints(rl.types_data@) matches Some(ts) && spec_all_fit(ts)
}

/// A minimal relation's decoded member ids, in order.
pub open spec fn spec_mrel_refs(rl: MinimalRelation) -> Seq<i64> {
    let vals = spec_packed_ints(rl.refs_data@).unwrap();
    Seq::new(vals.len(), |i: int| spec_delta_sum(vals, i) as i64)
}

/// A minimal relation's decoded member-type codes, in order.
pub open spec fn spec_mrel_types(rl: MinimalRelation) -> Seq<int> {
    spec_packed_ints(rl.types_data@).unwrap()
}

/// Whether one decoded member satisfies the filter built so far.
pub open spec fn spec_mmember_hit(
    t: int,
    rf: i64,
    n: Set<i64>,
    x: Set<i64>,
    w: Set<i64>,
    r: Set<i64>,
) -> bool {
    match spec_elementtype_from_int(t) {
        ElementType::Node => n.contains(rf) || x.contains(rf),
        ElementType::Way => w.contains(rf),
        ElementType::Relation => r.contains(rf),
        ElementType::Other => false,
    }
}

/// The members of a minimal relation are the type/id pairs up to the
/// shorter of its two packed lists.
pub open spec fn spec_mrel_mem_count(rl: MinimalRelation) -> int {
    if spec_mrel_types(rl).len() <= spec_mrel_refs(rl).len() {
        spec_mrel_types(rl).len() as int
    } else {
        spec_mrel_refs(rl).len() as int
    }
}

/// Whether any decoded member of the minimal relation satisfies the filter
/// built so far.
pub open spec fn spec_mrel_hit(
    rl: MinimalRelation,
    n: Set<i64>,
    x: Set<i64>,
    w: Set<i64>,
    r: Set<i64>,
) -> bool {
    exists|j: int|
        0 <= j < spec_mrel_mem_count(rl) && spec_mmember_hit(
            #[trigger] spec_mrel_types(rl)[j],
            spec_mrel_refs(rl)[j],
            n,
            x,
            w,
            r,
        )
}

/// One step of the single-pass relation stage over minimal relations.
pub open spec fn spec_mrel_step(
    racc: Set<i64>,
    rl: MinimalRelation,
    n: Set<i64>,
    x: Set<i64>,
    w: Set<i64>,
) -> Set<i64> {
    if spec_mrel_hit(rl, n, x, w, racc) {
        racc.insert(rl.id)
    } else {
        racc
    }
}

/// The single-pass relation stage over minimal relations, in order.
pub open spec fn spec_mrel_stage(
    racc: Set<i64>,
    rels: Seq<MinimalRelation>,
    n: Set<i64>,
    x: Set<i64>,
    w: Set<i64>,
) -> Set<i64>
    decreases rels.len(),
{
    if rels.len() == 0 {
        racc
    } else {
        spec_mrel_stage(spec_mrel_step(racc, rels[0], n, x, w), rels.drop_first(), n, x, w)
    }
}

proof fn lemma_mrel_stage_push(
    racc: Set<i64>,
    rels: Seq<MinimalRelation>,
    e: MinimalRelation,
    n: Set<i64>,
    x: Set<i64>,
    w: Set<i64>,
)
    ensures
        spec_mrel_stage(racc, rels.push(e), n, x, w) == spec_mrel_step(
            spec_mrel_stage(racc, rels, n, x, w),
            e,
            n,
            x,
            w,
        ),
    decreases rels.len(),
{
    if rels.len() == 0 {
        assert(rels.push(e)[0] == e);
        assert(rels.push(e).drop_first() =~= Seq::<MinimalRelation>::empty());
        assert(spec_mrel_stage(racc, rels.push(e), n, x, w) == spec_mrel_stage(
            spec_mrel_step(racc, e, n, x, w),
            Seq::<MinimalRelation>::empty(),
            n,
            x,
            w,
        ));
        assert(spec_mrel_stage(racc, rels, n, x, w) == racc);
    } else {
        assert(rels.push(e)[0] == rels[0]);
        assert(rels.push(e).drop_first() =~= rels.drop_first().push(e));
        lemma_mrel_stage_push(
            spec_mrel_step(racc, rels[0], n, x, w),
            rels.drop_first(),
            e,
            n,
            x,
            w,
        );
    }
}

/// Whether any id of the list is in `nodes`.
fn ids_hit(refs: &Vec<i64>, nodes: &HashSet<i64>) -> (r: bool)
    ensures
        r == exists|j: int| 0 <= j < refs@.len() && nodes@.contains(#[trigger] refs@[j]),
{
    let mut j: usize = 0;
    while j < refs.len()
        invariant
            0 <= j <= refs@.len(),
            forall|k: int| 0 <= k < j ==> !nodes@.contains(#[trigger] refs@[k]),
        decreases refs@.len() - j,
    {
        if nodes.contains(&refs[j]) {
            return true;
        }
        j = j + 1;
    }
    false
}

impl IdSetSet {
    /// The bulk variant over a minimal block: insert every id
    /// unconditionally.
    pub fn add_minimal_block_full(&mut self, bl: &MinimalBlock)
        ensures
            forall|id: i64|
                #![trigger final(self).nodes@.contains(id)]
                #![trigger old(self).nodes@.contains(id)]
                final(self).nodes@.contains(id) <==> old(self).nodes@.contains(id)
                    || spec_has_mnode_id(bl.nodes@, id),
            forall|id: i64|
                #![trigger final(self).ways@.contains(id)]
                #![trigger old(self).ways@.contains(id)]
                final(self).ways@.contains(id) <==> old(self).ways@.contains(id)
                    || spec_has_mway_id(bl.ways@, id),
            forall|id: i64|
                #![trigger final(self).relations@.contains(id)]
                #![trigger old(self).relations@.contains(id)]
                final(self).relations@.contains(id) <==> old(self).relations@.contains(id)
                    || spec_has_mrel_id(bl.relations@, id),
            final(self).exnodes@ == old(self).exnodes@,
    {
        let ghost n0 = self.nodes@;
        let mut i: usize = 0;
        while i < bl.nodes.len()
            invariant
                0 <= i <= bl.nodes@.len(),
                self.ways@ == old(self).ways@,
                self.relations@ == old(self).relations@,
                self.exnodes@ == old(self).exnodes@,
                forall|id: i64|
                    #![trigger self.nodes@.contains(id)]
                    #![trigger n0.contains(id)]
                    self.nodes@.contains(id) <==> n0.contains(id) || spec_has_mnode_id(
                        bl.nodes@.take(i as int),
                        id,
                    ),
            decreases bl.nodes@.len() - i,
        {
            self.nodes.insert(bl.nodes[i].id);
            proof {
                assert(bl.nodes@.take(i + 1) =~= bl.nodes@.take(i as int).push(
                    bl.nodes@[i as int],
                ));
                assert forall|id: i64|
                    #![trigger self.nodes@.contains(id)]
                    #![trigger n0.contains(id)]
                    self.nodes@.contains(id) <==> n0.contains(id) || spec_has_mnode_id(
                        bl.nodes@.take(i + 1),
                        id,
                    ) by {
                    lemma_has_mnode_id_push(bl.nodes@.take(i as int), bl.nodes@[i as int], id);
                }
            }
            i = i + 1;
        }
        proof {
            assert(bl.nodes@.take(bl.nodes@.len() as int) =~= bl.nodes@);
        }
        let ghost n1 = self.nodes@;
        let ghost w0 = self.ways@;
        let mut i: usize = 0;
        while i < bl.ways.len()
            invariant
                0 <= i <= bl.ways@.len(),
                self.nodes@ == n1,
                self.relations@ == old(self).relations@,
                self.exnodes@ == old(self).exnodes@,
                forall|id: i64|
                    #![trigger self.ways@.contains(id)]
                    #![trigger w0.contains(id)]
                    self.ways@.contains(id) <==> w0.contains(id) || spec_has_mway_id(
                        bl.ways@.take(i as int),
                        id,
                    ),
            decreases bl.ways@.len() - i,
        {
            self.ways.insert(bl.ways[i].id);
            proof {
                assert(bl.ways@.take(i + 1) =~= bl.ways@.take(i as int).push(bl.ways@[i as int]));
                assert forall|id: i64|
                    #![trigger self.ways@.contains(id)]
                    #![trigger w0.contains(id)]
                    self.ways@.contains(id) <==> w0.contains(id) || spec_has_mway_id(
                        bl.ways@.take(i + 1),
                        id,
                    ) by {
                    lemma_has_mway_id_push(bl.ways@.take(i as int), bl.ways@[i as int], id);
                }
            }
            i = i + 1;
        }
        proof {
            assert(bl.ways@.take(bl.ways@.len() as int) =~= bl.ways@);
        }
        let ghost w1 = self.ways@;
        let ghost r0 = self.relations@;
        let mut i: usize = 0;
        while i < bl.relations.len()
            invariant
                0 <= i <= bl.relations@.len(),
                self.nodes@ == n1,
                self.ways@ == w1,
                self.exnodes@ == old(self).exnodes@,
                forall|id: i64|
                    #![trigger self.relations@.contains(id)]
                    #![trigger r0.contains(id)]
                    self.relations@.contains(id) <==> r0.contains(id) || spec_has_mrel_id(
                        bl.relations@.take(i as int),
                        id,
                    ),
            decreases bl.relations@.len() - i,
        {
            self.relations.insert(bl.relations[i].id);
            proof {
                assert(bl.relations@.take(i + 1) =~= bl.relations@.take(i as int).push(
                    bl.relations@[i as int],
                ));
                assert forall|id: i64|
                    #![trigger self.relations@.contains(id)]
                    #![trigger r0.contains(id)]
                    self.relations@.contains(id) <==> r0.contains(id) || spec_has_mrel_id(
                        bl.relations@.take(i + 1),
                        id,
                    ) by {
                    lemma_has_mrel_id_push(
                        bl.relations@.take(i as int),
                        bl.relations@[i as int],
                        id,
                    );
                }
            }
            i = i + 1;
        }
        proof {
            assert(bl.relations@.take(bl.relations@.len() as int) =~= bl.relations@);
        }
    }

    /// The three-stage spatial scan over a minimal block, decoding the
    /// packed reference and member lists as it goes. A list that does not
    /// decode is a fatal value error for the whole invocation: no partial
    /// result is reported, though the sets already grown keep their
    /// entries.
    pub fn add_minimal_block_box(&mut self, bx_in: (i32, i32, i32, i32), bl: &MinimalBlock) -> (r:
        Result<(), Error>)
        ensures
            match r {
                Ok(()) => {
                    &&& forall|i: int| 0 <= i < bl.ways@.len() ==> spec_mway_ok(#[trigger] bl.ways@[i])
                    &&& forall|i: int|
                        0 <= i < bl.relations@.len() ==> spec_mrel_ok(#[trigger] bl.relations@[i])
                    &&& forall|id: i64|
                        #![trigger final(self).nodes@.contains(id)]
                        #![trigger old(self).nodes@.contains(id)]
                        final(self).nodes@.contains(id) <==> old(self).nodes@.contains(id)
                            || spec_mnode_selected(
                            bl.nodes@,
                            Bbox {
                                minlon: bx_in.0,
                                minlat: bx_in.1,
                                maxlon: bx_in.2,
                                maxlat: bx_in.3,
                            },
                            id,
                        )
                    &&& forall|id: i64|
                        #![trigger final(self).ways@.contains(id)]
                        #![trigger old(self).ways@.contains(id)]
                        final(self).ways@.contains(id) <==> old(self).ways@.contains(id)
                            || spec_mway_selected(bl.ways@, final(self).nodes@, id)
                    &&& forall|rr: i64|
                        #![trigger final(self).exnodes@.contains(rr)]
                        #![trigger old(self).exnodes@.contains(rr)]
                        final(self).exnodes@.contains(rr) <==> old(self).exnodes@.contains(rr)
                            || spec_mboundary_ref(bl.ways@, final(self).nodes@, rr)
                    &&& final(self).relations@ == spec_mrel_stage(
                        old(self).relations@,
                        bl.relations@,
                        final(self).nodes@,
                        final(self).exnodes@,
                        final(self).ways@,
                    )
                },
                Err(e) => {
                    &&& e == Error::ValueError
                    &&& !((forall|i: int|
                        0 <= i < bl.ways@.len() ==> spec_mway_ok(#[trigger] bl.ways@[i])) && (
                    forall|i: int|
                        0 <= i < bl.relations@.len() ==> spec_mrel_ok(
                            #[trigger] bl.relations@[i],
                        )))
                },
            },
    {
        let bx = Bbox::new(bx_in.0, bx_in.1, bx_in.2, bx_in.3);
        let ghost n0 = self.nodes@;
        let mut i: usize = 0;
        while i < bl.nodes.len()
            invariant
                0 <= i <= bl.nodes@.len(),
                bx == (Bbox { minlon: bx_in.0, minlat: bx_in.1, maxlon: bx_in.2, maxlat: bx_in.3 }),
                self.ways@ == old(self).ways@,
                self.relations@ == old(self).relations@,
                self.exnodes@ == old(self).exnodes@,
                forall|id: i64|
                    #![trigger self.nodes@.contains(id)]
                    #![trigger n0.contains(id)]
                    self.nodes@.contains(id) <==> n0.contains(id) || spec_mnode_selected(
                        bl.nodes@.take(i as int),
                        bx,
                        id,
                    ),
            decreases bl.nodes@.len() - i,
        {
            let n = &bl.nodes[i];
            if bx.contains_point(n.lon, n.lat) {
                self.nodes.insert(n.id);
            }
            proof {
                assert(bl.nodes@.take(i + 1) =~= bl.nodes@.take(i as int).push(
                    bl.nodes@[i as int],
                ));
                assert forall|id: i64|
                    #![trigger self.nodes@.contains(id)]
                    #![trigger n0.contains(id)]
                    self.nodes@.contains(id) <==> n0.contains(id) || spec_mnode_selected(
                        bl.nodes@.take(i + 1),
                        bx,
                        id,
                    ) by {
                    lemma_mnode_selected_push(
                        bl.nodes@.take(i as int),
                        bl.nodes@[i as int],
                        bx,
                        id,
                    );
                }
            }
            i = i + 1;
        }
        proof {
            assert(bl.nodes@.take(bl.nodes@.len() as int) =~= bl.nodes@);
        }
        let ghost n1 = self.nodes@;
        let ghost w0 = self.ways@;
        let ghost x0 = self.exnodes@;
        let mut i: usize = 0;
        while i < bl.ways.len()
            invariant
                0 <= i <= bl.ways@.len(),
                self.nodes@ == n1,
                self.relations@ == old(self).relations@,
                forall|k: int| 0 <= k < i ==> spec_mway_ok(#[trigger] bl.ways@[k]),
                forall|id: i64|
                    #![trigger self.ways@.contains(id)]
                    #![trigger w0.contains(id)]
                    self.ways@.contains(id) <==> w0.contains(id) || spec_mway_selected(
                        bl.ways@.take(i as int),
                        n1,
                        id,
                    ),
                forall|rr: i64|
                    #![trigger self.exnodes@.contains(rr)]
                    #![trigger x0.contains(rr)]
                    self.exnodes@.contains(rr) <==> x0.contains(rr) || spec_mboundary_ref(
                        bl.ways@.take(i as int),
                        n1,
                        rr,
                    ),
            decreases bl.ways@.len() - i,
        {
            let w = &bl.ways[i];
            let refs = match read_delta_packed_int(&w.refs_data) {
                Ok(v) => v,
                Err(e) => {
                    proof {
                        assert(!spec_mway_ok(bl.ways@[i as int]));
                    }
                    return Err(e);
                },
            };
            proof {
                assert(spec_mway_ok(bl.ways@[i as int]));
                assert(refs@ =~= spec_mway_refs(bl.ways@[i as int]));
            }
            let hit = ids_hit(&refs, &self.nodes);
            proof {
                assert(hit == spec_mway_hit(bl.ways@[i as int], n1));
            }
            if hit {
                self.ways.insert(w.id);
                let ghost ws_now = self.ways@;
                let ghost xs = self.exnodes@;
                let mut j: usize = 0;
                while j < refs.len()
                    invariant
                        0 <= j <= refs@.len(),
                        refs@ == spec_mway_refs(bl.ways@[i as int]),
                        i < bl.ways@.len(),
                        self.nodes@ == n1,
                        self.ways@ == ws_now,
                        self.relations@ == old(self).relations@,
                        forall|rr: i64|
                            #![trigger self.exnodes@.contains(rr)]
                            #![trigger xs.contains(rr)]
                            self.exnodes@.contains(rr) <==> xs.contains(rr) || (exists|k: int|
                                0 <= k < j && (#[trigger] refs@[k]) == rr && !n1.contains(rr)),
                    decreases refs@.len() - j,
                {
                    if !self.nodes.contains(&refs[j]) {
                        self.exnodes.insert(refs[j]);
                    }
                    proof {
                        assert forall|rr: i64|
                            #![trigger self.exnodes@.contains(rr)]
                            #![trigger xs.contains(rr)]
                            self.exnodes@.contains(rr) <==> xs.contains(rr) || (exists|k: int|
                                0 <= k < j + 1 && (#[trigger] refs@[k]) == rr && !n1.contains(rr))
                            by {
                            if self.exnodes@.contains(rr) && !xs.contains(rr) {
                                if !(exists|k: int|
                                    0 <= k < j && (#[trigger] refs@[k]) == rr && !n1.contains(
                                        rr,
                                    )) {
                                    assert(refs@[j as int] == rr && !n1.contains(rr));
                                }
                            }
                            if (exists|k: int|
                                0 <= k < j + 1 && (#[trigger] refs@[k]) == rr && !n1.contains(
                                    rr,
                                )) {
                                let k = choose|k: int|
                                    0 <= k < j + 1 && (#[trigger] refs@[k]) == rr && !n1.contains(
                                        rr,
                                    );
                                if k < j {
                                    assert(self.exnodes@.contains(rr));
                                } else {
                                    assert(refs@[j as int] == rr);
                                }
                            }
                        }
                    }
                    j = j + 1;
                }
            }
            proof {
                assert(bl.ways@.take(i + 1) =~= bl.ways@.take(i as int).push(bl.ways@[i as int]));
                assert forall|id: i64|
                    #![trigger self.ways@.contains(id)]
                    #![trigger w0.contains(id)]
                    self.ways@.contains(id) <==> w0.contains(id) || spec_mway_selected(
                        bl.ways@.take(i + 1),
                        n1,
                        id,
                    ) by {
                    lemma_mway_selected_push(bl.ways@.take(i as int), bl.ways@[i as int], n1, id);
                }
                assert forall|rr: i64|
                    #![trigger self.exnodes@.contains(rr)]
                    #![trigger x0.contains(rr)]
                    self.exnodes@.contains(rr) <==> x0.contains(rr) || spec_mboundary_ref(
                        bl.ways@.take(i + 1),
                        n1,
                        rr,
                    ) by {
                    lemma_mboundary_ref_push(bl.ways@.take(i as int), bl.ways@[i as int], n1, rr);
                }
            }
            i = i + 1;
        }
        proof {
            assert(bl.ways@.take(bl.ways@.len() as int) =~= bl.ways@);
        }
        let ghost x1 = self.exnodes@;
        let ghost w1 = self.ways@;
        let ghost r0 = self.relations@;
        let mut i: usize = 0;
        while i < bl.relations.len()
            invariant
                0 <= i <= bl.relations@.len(),
                self.nodes@ == n1,
                self.ways@ == w1,
                self.exnodes@ == x1,
                forall|k: int| 0 <= k < i ==> spec_mrel_ok(#[trigger] bl.relations@[k]),
                forall|k: int| 0 <= k < bl.ways@.len() ==> spec_mway_ok(#[trigger] bl.ways@[k]),
                self.relations@ == spec_mrel_stage(r0, bl.relations@.take(i as int), n1, x1, w1),
            decreases bl.relations@.len() - i,
        {
            let rl = &bl.relations[i];
            let refs = match read_delta_packed_int(&rl.refs_data) {
                Ok(v) => v,
                Err(e) => {
                    proof {
                        assert(!spec_mrel_ok(bl.relations@[i as int]));
                    }
                    return Err(e);
                },
            };
            let types = match read_packed_int(&rl.types_data) {
                Ok(v) => v,
                Err(e) => {
                    proof {
                        assert(!spec_mrel_ok(bl.relations@[i as int]));
                    }
                    return Err(e);
                },
            };
            proof {
                assert(spec_mrel_ok(bl.relations@[i as int]));
                assert(refs@ =~= spec_mrel_refs(bl.relations@[i as int]));
                assert(spec_ints_of(types@) =~= spec_mrel_types(bl.relations@[i as int]));
            }
            let hit = self.mrel_members_hit(&types, &refs, Ghost(bl.relations@[i as int]));
            if hit {
                self.relations.insert(rl.id);
            }
            proof {
                assert(bl.relations@.take(i + 1) =~= bl.relations@.take(i as int).push(
                    bl.relations@[i as int],
                ));
                lemma_mrel_stage_push(
                    r0,
                    bl.relations@.take(i as int),
                    bl.relations@[i as int],
                    n1,
                    x1,
                    w1,
                );
            }
            i = i + 1;
        }
        proof {
            assert(bl.relations@.take(bl.relations@.len() as int) =~= bl.relations@);
        }
        Ok(())
    }

    /// Whether any decoded member pair satisfies the filter so far.
    fn mrel_members_hit(
        &self,
        types: &Vec<u64>,
        refs: &Vec<i64>,
        Ghost(rl): Ghost<MinimalRelation>,
    ) -> (r: bool)
        requires
            spec_ints_of(types@) == spec_mrel_types(rl),
            refs@ == spec_mrel_refs(rl),
        ensures
            r == spec_mrel_hit(rl, self.nodes@, self.exnodes@, self.ways@, self.relations@),
    {
        let n = if types.len() <= refs.len() {
            types.len()
        } else {
            refs.len()
        };
        proof {
            assert(n == spec_mrel_mem_count(rl));
        }
        let mut j: usize = 0;
        while j < n
            invariant
                0 <= j <= n,
                n == spec_mrel_mem_count(rl),
                n <= types@.len(),
                n <= refs@.len(),
                spec_ints_of(types@) == spec_mrel_types(rl),
                refs@ == spec_mrel_refs(rl),
                forall|k: int|
                    0 <= k < j ==> !spec_mmember_hit(
                        #[trigger] spec_mrel_types(rl)[k],
                        spec_mrel_refs(rl)[k],
                        self.nodes@,
                        self.exnodes@,
                        self.ways@,
                        self.relations@,
                    ),
            decreases n - j,
        {
            let t = crate::elements::elementtype_from_int(types[j]);
            let hit = self.contains(t, refs[j]);
            proof {
                assert(spec_mrel_types(rl)[j as int] == types@[j as int] as int);
            }
            if hit {
                return true;
            }
            j = j + 1;
        }
        false
    }
}

} // verus!
