use vstd::prelude::*;

use crate::elements::Changetype;
use crate::error::Error;

verus! {

/// Parse one base-128 variable-length integer from the front of a byte
/// stream: low seven bits per byte, least significant group first, the high
/// bit marking continuation. Yields the value and the remaining bytes, or
/// nothing when the stream ends inside a number.
pub open spec fn spec_parse_varint(data: Seq<u8>) -> Option<(int, Seq<u8>)>
    decreases data.len(),
{
    if data.len() == 0 {
        None
    } else if data[0] < 128 {
        Some((data[0] as int, data.drop_first()))
    } else {
        match spec_parse_varint(data.drop_first()) {
            None => None,
            Some((v, rest)) => Some(((data[0] - 128) + 128 * v, rest)),
        }
    }
}

proof fn lemma_parse_varint_shrinks(data: Seq<u8>)
    ensures
        spec_parse_varint(data) matches Some(pr) ==> pr.1.len() < data.len(),
        spec_parse_varint(data) matches Some(pr) ==> pr.0 >= 0,
    decreases data.len(),
{
    if data.len() > 0 && data[0] >= 128 {
        lemma_parse_varint_shrinks(data.drop_first());
    }
}

/// The whole stream decoded as a list of variable-length integers, or
/// nothing when it ends inside a number.
pub open spec fn spec_packed_ints(data: Seq<u8>) -> Option<Seq<int>>
    decreases data.len(),
    via spec_packed_ints_decreases
{
    if data.len() == 0 {
        Some(Seq::empty())
    } else {
        match spec_parse_varint(data) {
            None => None,
            Some((v, rest)) => match spec_packed_ints(rest) {
                None => None,
                Some(t) => Some(seq![v] + t),
            },
        }
    }
}

#[via_fn]
proof fn spec_packed_ints_decreases(data: Seq<u8>) {
    lemma_parse_varint_shrinks(data);
}

/// Every decoded value is representable as an unsigned machine word.
pub open spec fn spec_all_fit(vals: Seq<int>) -> bool {
    forall|i: int| 0 <= i < vals.len() ==> 0 <= #[trigger] vals[i] <= u64::MAX
}

/// The values of an unsigned decode, as plain integers.
pub open spec fn spec_ints_of(vals: Seq<u64>) -> Seq<int> {
    vals.map_values(|v: u64| v as int)
}

fn parse_one(data: &Vec<u8>, pos: usize) -> (r: Result<(u64, usize), Error>)
    requires
        pos <= data@.len(),
    ensures
        match spec_parse_varint(data@.skip(pos as int)) {
            Some(pr) => {
                if pr.0 <= u64::MAX {
                    r matches Ok(rr) && rr.0 == pr.0 && pos < rr.1 <= data@.len() && data@.skip(
                        rr.1 as int,
                    ) == pr.1
                } else {
                    r matches Err(e) && e == Error::ValueError
                }
            },
            None => r matches Err(e) && e == Error::ValueError,
        },
    decreases data@.len() - pos,
{
    if pos >= data.len() {
        proof {
            assert(data@.skip(pos as int).len() == 0);
        }
        return Err(Error::ValueError);
    }
    let b = data[pos];
    proof {
        assert(data@.skip(pos as int)[0] == data@[pos as int]);
        assert(data@.skip(pos as int).drop_first() =~= data@.skip(pos + 1));
    }
    if b < 128 {
        Ok((b as u64, pos + 1))
    } else {
        match parse_one(data, pos + 1) {
            Ok((v, p)) => {
                let w: u128 = ((b - 128) as u128) + 128u128 * (v as u128);
                if w > u64::MAX as u128 {
                    proof {
                        lemma_parse_varint_shrinks(data@.skip(pos + 1));
                    }
                    Err(Error::ValueError)
                } else {
                    Ok((w as u64, p))
                }
            },
            Err(e) => {
                proof {
                    lemma_parse_varint_shrinks(data@.skip(pos + 1));
                }
                Err(e)
            },
        }
    }
}

/// Decode a stream of unsigned packed integers. The whole stream must
/// decode and each value must fit a machine word, else the decode is
/// rejected as a value error: a malformed stream never yields a partial
/// result.
pub fn read_packed_int(data: &Vec<u8>) -> (r: Result<Vec<u64>, Error>)
    ensures
        match r {
            Ok(out) => spec_packed_ints(data@) matches Some(vals) && spec_all_fit(vals)
                && spec_ints_of(out@) == vals,
            Err(e) => e == Error::ValueError && match spec_packed_ints(data@) {
                Some(vals) => !spec_all_fit(vals),
                None => true,
            },
        },
{
    let mut out: Vec<u64> = Vec::new();
    let mut pos: usize = 0;
    proof {
        assert(data@.skip(0) =~= data@);
        assert(spec_ints_of(out@) =~= Seq::<int>::empty());
        match spec_packed_ints(data@) {
            Some(t) => {
                assert(spec_ints_of(out@) + t =~= t);
            },
            None => {},
        }
    }
    while pos < data.len()
        invariant
            0 <= pos <= data@.len(),
            match spec_packed_ints(data@.skip(pos as int)) {
                Some(t) => spec_packed_ints(data@) matches Some(vals) && vals == spec_ints_of(
                    out@,
                ) + t,
                None => spec_packed_ints(data@) is None,
            },
        decreases data@.len() - pos,
    {
        let ghost tail0 = data@.skip(pos as int);
        match parse_one(data, pos) {
            Ok((v, p)) => {
                proof {
                    lemma_parse_varint_shrinks(tail0);
                }
                out.push(v);
                proof {
                    assert(spec_ints_of(out@) =~= spec_ints_of(out@.drop_last()) + seq![
                        v as int,
                    ]);
                    match spec_packed_ints(data@.skip(p as int)) {
                        Some(t) => {
                            assert(spec_packed_ints(tail0) matches Some(tt) && tt == seq![
                                v as int,
                            ] + t);
                            assert(spec_ints_of(out@) + t =~= spec_ints_of(out@.drop_last()) + (
                            seq![v as int] + t));
                        },
                        None => {
                            assert(spec_packed_ints(tail0) is None);
                        },
                    }
                }
                pos = p;
            },
            Err(e) => {
                proof {
                    match spec_parse_varint(tail0) {
                        Some(pr) => {
                            assert(pr.0 > u64::MAX);
                            match spec_packed_ints(pr.1) {
                                Some(t) => {
                                    assert(spec_packed_ints(tail0) matches Some(tt) && tt[0]
                                        == pr.0);
                                    match spec_packed_ints(data@) {
                                        Some(vals) => {
                                            let k = spec_ints_of(out@).len() as int;
                                            assert(vals[k] == pr.0);
                                        },
                                        None => {},
                                    }
                                },
                                None => {},
                            }
                        },
                        None => {},
                    }
                }
                return Err(e);
            },
        }
    }
    proof {
        assert(data@.skip(data@.len() as int).len() == 0);
        assert(spec_ints_of(out@) + Seq::<int>::empty() =~= spec_ints_of(out@));
    }
    Ok(out)
}

/// The signed value a zigzag-coded word denotes: even words are the
/// non-negative integers in order, odd words the negative ones.
pub open spec fn spec_zigzag(v: int) -> int {
    if v % 2 == 0 {
        v / 2
    } else {
        -(v / 2) - 1
    }
}

/// The running totals of the zigzag-decoded deltas: entry `i` is the sum of
/// the first `i + 1` decoded differences.
pub open spec fn spec_delta_sum(vals: Seq<int>, i: int) -> int
    decreases i + 1,
{
    if i < 0 {
        0
    } else {
        spec_delta_sum(vals, i - 1) + spec_zigzag(vals[i])
    }
}

/// Every running total of the delta stream is a representable signed id.
pub open spec fn spec_deltas_fit(vals: Seq<int>) -> bool {
    forall|i: int| 0 <= i < vals.len() ==> i64::MIN <= #[trigger] spec_delta_sum(vals, i) <= i64::MAX
}

/// Decode a stream of delta-coded signed integers: each packed word is
/// zigzag-decoded to a difference and the differences are summed. A
/// malformed stream, or a running total outside the signed id range, is
/// rejected whole as a value error.
pub fn read_delta_packed_int(data: &Vec<u8>) -> (r: Result<Vec<i64>, Error>)
    ensures
        match r {
            Ok(out) => spec_packed_ints(data@) matches Some(vals) && spec_all_fit(vals)
                && spec_deltas_fit(vals) && out@.len() == vals.len() && (forall|i: int|
                0 <= i < vals.len() ==> out@[i] == spec_delta_sum(vals, i)),
            Err(e) => e == Error::ValueError && match spec_packed_ints(data@) {
                Some(vals) => !spec_all_fit(vals) || !spec_deltas_fit(vals),
                None => true,
            },
        },
{
    let words = read_packed_int(data)?;
    let ghost vals: Seq<int> = spec_ints_of(words@);
    let mut out: Vec<i64> = Vec::new();
    let mut cur: i64 = 0;
    let mut i: usize = 0;
    while i < words.len()
        invariant
            0 <= i <= words@.len(),
            vals == spec_ints_of(words@),
            spec_packed_ints(data@) matches Some(vs) && vs == vals,
            spec_all_fit(vals),
            out@.len() == i,
            forall|j: int| 0 <= j < i ==> out@[j] == spec_delta_sum(vals, j),
            cur == spec_delta_sum(vals, i - 1),
            forall|j: int| 0 <= j < i ==> i64::MIN <= #[trigger] spec_delta_sum(vals, j) <= i64::MAX,
        decreases words@.len() - i,
    {
        let v = words[i];
        let h = v / 2;
        let z: i64 = if v % 2 == 0 {
            h as i64
        } else {
            (-(h as i64)) - 1
        };
        proof {
            assert(vals[i as int] == v as int);
            assert(z == spec_zigzag(v as int));
        }
        let s: i128 = (cur as i128) + (z as i128);
        if s > (i64::MAX as i128) || s < (i64::MIN as i128) {
            proof {
                assert(spec_delta_sum(vals, i as int) == cur + z);
                assert(!spec_deltas_fit(vals));
            }
            return Err(Error::ValueError);
        }
        cur = s as i64;
        out.push(cur);
        i = i + 1;
    }
    Ok(out)
}

/// A node record in the minimal decoding: metadata and coordinates as plain
/// values, attributes omitted.
pub struct MinimalNode {
    pub id: i64,
    pub version: i64,
    pub timestamp: i64,
    pub changetype: Changetype,
    pub lon: i32,
    pub lat: i32,
    pub quadtree: i64,
}

/// A way record in the minimal decoding: its reference ids still in their
/// delta-packed wire form.
pub struct MinimalWay {
    pub id: i64,
    pub version: i64,
    pub timestamp: i64,
    pub changetype: Changetype,
    pub refs_data: Vec<u8>,
    pub quadtree: i64,
}

/// A relation record in the minimal decoding: member ids delta-packed and
/// member-type codes packed, as on the wire.
pub struct MinimalRelation {
    pub id: i64,
    pub version: i64,
    pub timestamp: i64,
    pub changetype: Changetype,
    pub refs_data: Vec<u8>,
    pub types_data: Vec<u8>,
    pub quadtree: i64,
}

/// A decoded block in the minimal representation.
pub struct MinimalBlock {
    pub index: i64,
    pub location: u64,
    pub quadtree: i64,
    pub start_date: i64,
    pub end_date: i64,
    pub nodes: Vec<MinimalNode>,
    pub ways: Vec<MinimalWay>,
    pub relations: Vec<MinimalRelation>,
}

impl MinimalBlock {
    /// An empty minimal block at a given sequence index and byte location.
    pub fn new(index: i64, location: u64) -> (r: MinimalBlock)
        ensures
            r.index == index,
            r.location == location,
            r.quadtree == 0,
            r.start_date == 0,
            r.end_date == 0,
            r.nodes@.len() == 0,
            r.ways@.len() == 0,
            r.relations@.len() == 0,
    {
        MinimalBlock {
            index,
            location,
            quadtree: 0,
            start_date: 0,
            end_date: 0,
            nodes: Vec::new(),
            ways: Vec::new(),
            relations: Vec::new(),
        }
    }

    pub fn num_nodes(&self) -> (r: usize)
        ensures
            r == self.nodes@.len(),
    {
        self.nodes.len()
    }

    pub fn num_ways(&self) -> (r: usize)
        ensures
            r == self.ways@.len(),
    {
        self.ways.len()
    }

    pub fn num_relations(&self) -> (r: usize)
        ensures
            r == self.relations@.len(),
    {
        self.relations.len()
    }
}

} // verus!
