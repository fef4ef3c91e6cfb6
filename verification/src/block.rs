use vstd::prelude::*;

use crate::elements::{Node, Relation, Way};
use crate::error::Error;

verus! {

/// One record of any of the three kinds.
pub enum Element {
    Node(Node),
    Way(Way),
    Relation(Relation),
}

/// The node records of a mixed element list, in order.
pub open spec fn spec_nodes_of(s: Seq<Element>) -> Seq<Node>
    decreases s.len(),
{
    if s.len() == 0 {
        Seq::empty()
    } else {
        spec_nodes_of(s.drop_last()) + (match s.last() {
            Element::Node(n) => seq![n],
            _ => Seq::empty(),
        })
    }
}

/// The way records of a mixed element list, in order.
pub open spec fn spec_ways_of(s: Seq<Element>) -> Seq<Way>
    decreases s.len(),
{
    if s.len() == 0 {
        Seq::empty()
    } else {
        spec_ways_of(s.drop_last()) + (match s.last() {
            Element::Way(w) => seq![w],
            _ => Seq::empty(),
        })
    }
}

/// The relation records of a mixed element list, in order.
pub open spec fn spec_relations_of(s: Seq<Element>) -> Seq<Relation>
    decreases s.len(),
{
    if s.len() == 0 {
        Seq::empty()
    } else {
        spec_relations_of(s.drop_last()) + (match s.last() {
            Element::Relation(r) => seq![r],
            _ => Seq::empty(),
        })
    }
}

/// A decoded block: its sequence index, byte location, spatial tile key,
/// validity date range, and the ordered record lists of each kind.
pub struct PrimitiveBlock {
    pub index: i64,
    pub location: u64,
    pub quadtree: i64,
    pub start_date: i64,
    pub end_date: i64,
    pub nodes: Vec<Node>,
    pub ways: Vec<Way>,
    pub relations: Vec<Relation>,
}

/// Normalise an index that may count from the end: a negative `which` is
/// taken relative to `len`. Out-of-range indexes are index errors.
pub fn prep_which(len: usize, which: i64) -> (r: Result<usize, Error>)
    requires
        len <= i64::MAX,
    ensures
        match r {
            Ok(u) => {
                &&& -(len as int) <= which < len
                &&& u == (if which >= 0 {
                    which as int
                } else {
                    which + len
                })
            },
            Err(e) => (which >= len || which + len < 0) && e == Error::IndexError,
        },
{
    let nl = len as i64;
    if which >= nl {
        return Err(Error::IndexError);
    }
    let mut w = which;
    if w < 0 {
        w = w + nl;
    }
    if w < 0 {
        return Err(Error::IndexError);
    }
    Ok(w as usize)
}

impl PrimitiveBlock {
    /// An empty block at a given sequence index and byte location.
    pub fn new(index: i64, location: u64) -> (r: PrimitiveBlock)
        ensures
            r.index == index,
            r.location == location,
            r.quadtree == 0,
            r.start_date == 0,
            r.end_date == 0,
            r.nodes@.len() == 0,
            r.ways@.len() == 0,
            r.relations@.len() == 0,
    {
        PrimitiveBlock {
            index,
            location,
            quadtree: 0,
            start_date: 0,
            end_date: 0,
            nodes: Vec::new(),
            ways: Vec::new(),
            relations: Vec::new(),
        }
    }

    /// Build a block from a mixed record list: each record joins the list of
    /// its kind, the order within each kind following the input order.
    pub fn from_elements(
        index: i64,
        location: u64,
        quadtree: i64,
        start_date: i64,
        end_date: i64,
        elements: Vec<Element>,
    ) -> (r: PrimitiveBlock)
        ensures
            r.index == index,
            r.location == location,
            r.quadtree == quadtree,
            r.start_date == start_date,
            r.end_date == end_date,
            r.nodes@ == spec_nodes_of(elements@),
            r.ways@ == spec_ways_of(elements@),
            r.relations@ == spec_relations_of(elements@),
    {
        let mut pb = PrimitiveBlock {
            index,
            location,
            quadtree,
            start_date,
            end_date,
            nodes: Vec::new(),
            ways: Vec::new(),
            relations: Vec::new(),
        };
        let mut elements = elements;
        let ghost all: Seq<Element> = elements@;
        let ghost mut idx: int = 0;
        while elements.len() > 0
            invariant
                0 <= idx <= all.len(),
                elements@ == all.skip(idx),
                pb.nodes@ == spec_nodes_of(all.take(idx)),
                pb.ways@ == spec_ways_of(all.take(idx)),
                pb.relations@ == spec_relations_of(all.take(idx)),
                pb.index == index,
                pb.location == location,
                pb.quadtree == quadtree,
                pb.start_date == start_date,
                pb.end_date == end_date,
            decreases all.len() - idx,
        {
            proof {
                assert(all.take(idx + 1).drop_last() =~= all.take(idx));
                assert(all.take(idx + 1).last() == all[idx]);
                assert(all.skip(idx)[0] == all[idx]);
            }
            let e = elements.remove(0);
            match e {
                Element::Node(n) => pb.nodes.push(n),
                Element::Way(w) => pb.ways.push(w),
                Element::Relation(rl) => pb.relations.push(rl),
            }
            proof {
                assert(all.skip(idx).remove(0) =~= all.skip(idx + 1));
                idx = idx + 1;
            }
        }
        proof {
            assert(all.take(all.len() as int) =~= all);
        }
        pb
    }

    pub fn num_nodes(&self) -> (r: usize)
        ensures
            r == self.nodes@.len(),
    {
        self.nodes.len()
    }

    pub fn num_ways(&self) -> (r: usize)
        ensures
            r == self.ways@.len(),
    {
        self.ways.len()
    }

    pub fn num_relations(&self) -> (r: usize)
        ensures
            r == self.relations@.len(),
    {
        self.relations.len()
    }

    /// The node at position `which`, counting from the end if negative.
    pub fn node_at(&self, which: i64) -> (r: Result<&Node, Error>)
        requires
            self.nodes@.len() <= i64::MAX,
        ensures
            match r {
                Ok(n) => {
                    &&& -(self.nodes@.len() as int) <= which < self.nodes@.len()
                    &&& *n == self.nodes@[if which >= 0 {
                        which as int
                    } else {
                        which + self.nodes@.len()
                    }]
                },
                Err(e) => (which >= self.nodes@.len() || which + self.nodes@.len() < 0)
                    && e == Error::IndexError,
            },
    {
        let u = prep_which(self.nodes.len(), which)?;
        Ok(&self.nodes[u])
    }

    /// The way at position `which`, counting from the end if negative.
    pub fn way_at(&self, which: i64) -> (r: Result<&Way, Error>)
        requires
            self.ways@.len() <= i64::MAX,
        ensures
            match r {
                Ok(w) => {
                    &&& -(self.ways@.len() as int) <= which < self.ways@.len()
                    &&& *w == self.ways@[if which >= 0 {
                        which as int
                    } else {
                        which + self.ways@.len()
                    }]
                },
                Err(e) => (which >= self.ways@.len() || which + self.ways@.len() < 0)
                    && e == Error::IndexError,
            },
    {
        let u = prep_which(self.ways.len(), which)?;
        Ok(&self.ways[u])
    }

    /// The relation at position `which`, counting from the end if negative.
    pub fn relation_at(&self, which: i64) -> (r: Result<&Relation, Error>)
        requires
            self.relations@.len() <= i64::MAX,
        ensures
            match r {
                Ok(rl) => {
                    &&& -(self.relations@.len() as int) <= which < self.relations@.len()
                    &&& *rl == self.relations@[if which >= 0 {
                        which as int
                    } else {
                        which + self.relations@.len()
                    }]
                },
                Err(e) => (which >= self.relations@.len() || which + self.relations@.len() < 0)
                    && e == Error::IndexError,
            },
    {
        let u = prep_which(self.relations.len(), which)?;
        Ok(&self.relations[u])
    }
}

} // verus!
