use vstd::prelude::*;

use crate::block::prep_which;
use crate::error::Error;

verus! {

/// The locations of one tile's blocks inside one source file, in the order
/// the file's index lists them, each tagged with the file's id.
pub open spec fn spec_file_locs(entries: Seq<(i64, u64)>, f: usize, t: i64) -> Seq<(usize, u64)>
    decreases entries.len(),
{
    if entries.len() == 0 {
        Seq::empty()
    } else {
        spec_file_locs(entries.drop_last(), f, t) + (if entries.last().0 == t {
            seq![(f, entries.last().1)]
        } else {
            Seq::empty()
        })
    }
}

/// The locations of one tile's blocks across a base file and its layered
/// change files, oldest file first: file ids ascend along the list, so a
/// "latest wins" fold over it is well-defined.
pub open spec fn spec_tile_locs(files: Seq<Seq<(i64, u64)>>, t: i64) -> Seq<(usize, u64)>
    decreases files.len(),
{
    if files.len() == 0 {
        Seq::empty()
    } else {
        spec_tile_locs(files.drop_last(), t) + spec_file_locs(
            files.last(),
            (files.len() - 1) as usize,
            t,
        )
    }
}

/// The tile keys of an entry list.
pub open spec fn spec_has_tile(entries: Seq<(i64, Vec<(usize, u64)>)>, t: i64) -> bool {
    exists|i: int| 0 <= i < entries.len() && (#[trigger] entries[i]).0 == t
}

/// A mapping from each spatial tile key to the ordered list of
/// (source-file-id, byte-offset) pairs of that tile's blocks, spanning a
/// base snapshot file and zero or more layered change files.
pub struct TileLocationIndex {
    entries: Vec<(i64, Vec<(usize, u64)>)>,
}

impl TileLocationIndex {
    /// The ordered entry list: one entry per tile, in first-appearance
    /// order.
    pub closed spec fn spec_entries(self) -> Seq<(i64, Vec<(usize, u64)>)> {
        self.entries@
    }

    /// Each tile key appears at most once.
    pub closed spec fn wf(self) -> bool {
        forall|i: int, j: int|
            0 <= i < j < self.entries@.len() ==> (#[trigger] self.entries@[i]).0 != (
            #[trigger] self.entries@[j]).0
    }

    /// The located blocks of one tile, oldest file first; empty when the
    /// index does not know the tile.
    pub open spec fn spec_get(self, t: i64) -> Seq<(usize, u64)> {
        if spec_has_tile(self.spec_entries(), t) {
            self.spec_entries()[choose|i: int|
                0 <= i < self.spec_entries().len() && (#[trigger] self.spec_entries()[i]).0
                    == t].1@
        } else {
            Seq::empty()
        }
    }

    /// The number of tiles the index knows.
    pub fn num_tiles(&self) -> (r: usize)
        ensures
            r == self.spec_entries().len(),
    {
        self.entries.len()
    }

    /// The entry at position `which`, counting from the end if negative:
    /// the tile key and its located blocks. Out-of-range positions are
    /// index errors reported per call.
    pub fn index_at(&self, which: i64) -> (r: Result<(i64, Vec<(usize, u64)>), Error>)
        requires
            self.spec_entries().len() <= i64::MAX,
        ensures
            match r {
                Ok(p) => {
                    &&& -(self.spec_entries().len() as int) <= which < self.spec_entries().len()
                    &&& {
                        let e = self.spec_entries()[if which >= 0 {
                            which as int
                        } else {
                            which + self.spec_entries().len()
                        }];
                        p.0 == e.0 && p.1@ == e.1@
                    }
                },
                Err(e) => (which >= self.spec_entries().len() || which
                    + self.spec_entries().len() < 0) && e == Error::IndexError,
            },
    {
        let u = prep_which(self.entries.len(), which)?;
        let t = self.entries[u].0;
        let locs = copy_locs(&self.entries[u].1);
        Ok((t, locs))
    }

    /// The located blocks of one tile, or `None` when the index does not
    /// know it.
    pub fn lookup(&self, t: i64) -> (r: Option<Vec<(usize, u64)>>)
        requires
            self.wf(),
        ensures
            match r {
                Some(locs) => spec_has_tile(self.spec_entries(), t) && locs@ == self.spec_get(t),
                None => !spec_has_tile(self.spec_entries(), t),
            },
    {
        let mut i: usize = 0;
        while i < self.entries.len()
            invariant
                0 <= i <= self.entries@.len(),
                self.wf(),
                forall|j: int| 0 <= j < i ==> (#[trigger] self.entries@[j]).0 != t,
            decreases self.entries@.len() - i,
        {
            if self.entries[i].0 == t {
                let locs = copy_locs(&self.entries[i].1);
                proof {
                    let j = choose|j: int|
                        0 <= j < self.entries@.len() && (#[trigger] self.entries@[j]).0 == t;
                    assert(j == i);
                }
                return Some(locs);
            }
            i = i + 1;
        }
        None
    }

    /// Build the index from the per-file block lists, the base file first
    /// and each change file after it, oldest to newest: every (tile,
    /// offset) entry of file `f` joins the end of its tile's list, so each
    /// tile's locations carry ascending file ids.
    pub fn build(file_tiles: Vec<Vec<(i64, u64)>>) -> (r: TileLocationIndex)
        ensures
            r.wf(),
            forall|t: i64|
                r.spec_get(t) == spec_tile_locs(
                    file_tiles@.map_values(|v: Vec<(i64, u64)>| v@),
                    t,
                ),
    {
        let ghost files: Seq<Seq<(i64, u64)>> = file_tiles@.map_values(|v: Vec<(i64, u64)>| v@);
        let mut r = TileLocationIndex { entries: Vec::new() };
        proof {
            assert(files.take(0) =~= Seq::<Seq<(i64, u64)>>::empty());
            assert forall|t: i64| r.spec_get(t) == spec_tile_locs(files.take(0), t) by {
                assert(!spec_has_tile(r.spec_entries(), t));
            }
        }
        let mut f: usize = 0;
        while f < file_tiles.len()
            invariant
                0 <= f <= file_tiles@.len(),
                files == file_tiles@.map_values(|v: Vec<(i64, u64)>| v@),
                r.wf(),
                forall|t: i64| r.spec_get(t) == spec_tile_locs(files.take(f as int), t),
            decreases file_tiles@.len() - f,
        {
            let n = file_tiles[f].len();
            let ghost entries: Seq<(i64, u64)> = file_tiles@[f as int]@;
            let mut e: usize = 0;
            while e < n
                invariant
                    0 <= e <= n,
                    f < file_tiles@.len(),
                    n == entries.len(),
                    entries == file_tiles@[f as int]@,
                    files == file_tiles@.map_values(|v: Vec<(i64, u64)>| v@),
                    r.wf(),
                    forall|t: i64|
                        r.spec_get(t) == spec_tile_locs(files.take(f as int), t)
                            + spec_file_locs(entries.take(e as int), f, t),
                decreases n - e,
            {
                let t = file_tiles[f][e].0;
                let off = file_tiles[f][e].1;
                r.add_loc(t, f, off);
                proof {
                    assert(entries.take(e + 1).drop_last() =~= entries.take(e as int));
                    assert(entries.take(e + 1).last() == entries[e as int]);
                    assert forall|tt: i64|
                        r.spec_get(tt) == spec_tile_locs(files.take(f as int), tt)
                            + spec_file_locs(entries.take(e + 1), f, tt) by {
                        if tt == t {
                            assert(spec_file_locs(entries.take(e + 1), f, tt)
                                =~= spec_file_locs(entries.take(e as int), f, tt).push(
                                (f, entries[e as int].1),
                            ));
                        } else {
                            assert(spec_file_locs(entries.take(e + 1), f, tt)
                                =~= spec_file_locs(entries.take(e as int), f, tt));
                        }
                    }
                }
                e = e + 1;
            }
            proof {
                assert(entries.take(entries.len() as int) =~= entries);
                assert(files.take(f + 1).drop_last() =~= files.take(f as int));
                assert(files.take(f + 1).last() == files[f as int]);
                assert(files[f as int] == entries);
                assert(files.take(f + 1).len() - 1 == f);
                assert forall|t: i64|
                    r.spec_get(t) == spec_tile_locs(files.take(f + 1), t) by {
                    assert(spec_tile_locs(files.take(f + 1), t) == spec_tile_locs(
                        files.take(f as int),
                        t,
                    ) + spec_file_locs(entries, f, t));
                }
            }
            f = f + 1;
        }
        proof {
            assert(files.take(files.len() as int) =~= files);
        }
        r
    }

    /// Append one located block to its tile's list, creating the tile at
    /// the end of the entry list on first sight.
    fn add_loc(&mut self, t: i64, f: usize, off: u64)
        requires
            old(self).wf(),
        ensures
            final(self).wf(),
            forall|tt: i64|
                tt != t ==> final(self).spec_get(tt) == old(self).spec_get(tt),
            final(self).spec_get(t) == old(self).spec_get(t).push((f, off)),
    {
        let ghost s0 = self.entries@;
        let mut i: usize = 0;
        while i < self.entries.len()
            invariant
                0 <= i <= self.entries@.len(),
                self.entries@ == s0,
                old(self).entries@ == s0,
                self.wf(),
                forall|j: int| 0 <= j < i ==> (#[trigger] self.entries@[j]).0 != t,
            decreases self.entries@.len() - i,
        {
            if self.entries[i].0 == t {
                let loc_entry = &mut self.entries[i];
                loc_entry.1.push((f, off));
                proof {
                    assert(self.entries@ =~= s0.update(
                        i as int,
                        (s0[i as int].0, self.entries@[i as int].1),
                    ));
                    assert(self.entries@[i as int].1@ == s0[i as int].1@.push((f, off)));
                    lemma_get_update(s0, self.entries@, i as int, t, (f, off));
                }
                return ;
            }
            i = i + 1;
        }
        let mut locs: Vec<(usize, u64)> = Vec::new();
        locs.push((f, off));
        self.entries.push((t, locs));
        proof {
            assert(self.entries@.drop_last() =~= s0);
            assert(self.entries@.last().0 == t);
            lemma_get_push(s0, self.entries@, t, (f, off));
        }
    }
}

/// A copy of a location list.
fn copy_locs(v: &Vec<(usize, u64)>) -> (r: Vec<(usize, u64)>)
    ensures
        r@ == v@,
{
    let mut out: Vec<(usize, u64)> = Vec::new();
    let mut i: usize = 0;
    while i < v.len()
        invariant
            0 <= i <= v@.len(),
            out@ == v@.take(i as int),
        decreases v@.len() - i,
    {
        out.push(v[i]);
        proof {
            assert(v@.take(i + 1) =~= v@.take(i as int).push(v@[i as int]));
        }
        i = i + 1;
    }
    proof {
        assert(v@.take(v@.len() as int) =~= v@);
    }
    out
}

/// Updating the list of the unique entry holding tile `t` changes only that
/// tile's lookup.
proof fn lemma_get_update(
    s0: Seq<(i64, Vec<(usize, u64)>)>,
    s1: Seq<(i64, Vec<(usize, u64)>)>,
    i: int,
    t: i64,
    loc: (usize, u64),
)
    requires
        0 <= i < s0.len(),
        s1.len() == s0.len(),
        forall|a: int, b: int| 0 <= a < b < s0.len() ==> (#[trigger] s0[a]).0 != (#[trigger] s0[b]).0,
        s0[i].0 == t,
        s1[i].0 == t,
        s1[i].1@ == s0[i].1@.push(loc),
        forall|j: int| 0 <= j < s0.len() && j != i ==> #[trigger] s1[j] == s0[j],
    ensures
        forall|a: int, b: int| 0 <= a < b < s1.len() ==> (#[trigger] s1[a]).0 != (#[trigger] s1[b]).0,
        forall|tt: i64|
            tt != t ==> (if spec_has_tile(s1, tt) {
                s1[choose|k: int| 0 <= k < s1.len() && (#[trigger] s1[k]).0 == tt].1@
            } else {
                Seq::<(usize, u64)>::empty()
            }) == (if spec_has_tile(s0, tt) {
                s0[choose|k: int| 0 <= k < s0.len() && (#[trigger] s0[k]).0 == tt].1@
            } else {
                Seq::<(usize, u64)>::empty()
            }),
        spec_has_tile(s1, t),
        spec_has_tile(s0, t),
        s1[choose|k: int| 0 <= k < s1.len() && (#[trigger] s1[k]).0 == t].1@ == s0[choose|k: int|
            0 <= k < s0.len() && (#[trigger] s0[k]).0 == t].1@.push(loc),
{
    assert forall|a: int, b: int| 0 <= a < b < s1.len() implies (#[trigger] s1[a]).0 != (
    #[trigger] s1[b]).0 by {
        assert(s1[a].0 == s0[a].0);
        assert(s1[b].0 == s0[b].0);
    }
    assert forall|tt: i64| tt != t implies (if spec_has_tile(s1, tt) {
        s1[choose|k: int| 0 <= k < s1.len() && (#[trigger] s1[k]).0 == tt].1@
    } else {
        Seq::<(usize, u64)>::empty()
    }) == (if spec_has_tile(s0, tt) {
        s0[choose|k: int| 0 <= k < s0.len() && (#[trigger] s0[k]).0 == tt].1@
    } else {
        Seq::<(usize, u64)>::empty()
    }) by {
        assert forall|k: int| 0 <= k < s0.len() implies (#[trigger] s1[k]).0 == s0[k].0 by {}
        if spec_has_tile(s1, tt) {
            let k = choose|k: int| 0 <= k < s1.len() && (#[trigger] s1[k]).0 == tt;
            assert(s0[k].0 == tt);
            assert(spec_has_tile(s0, tt));
            let k0 = choose|k0: int| 0 <= k0 < s0.len() && (#[trigger] s0[k0]).0 == tt;
            assert(k0 == k);
            assert(k != i);
        } else if spec_has_tile(s0, tt) {
            let k = choose|k: int| 0 <= k < s0.len() && (#[trigger] s0[k]).0 == tt;
            assert(s1[k].0 == tt);
        }
    }
    assert(s1[i].0 == t);
    assert(s0[i].0 == t);
    let k1 = choose|k: int| 0 <= k < s1.len() && (#[trigger] s1[k]).0 == t;
    let k0 = choose|k: int| 0 <= k < s0.len() && (#[trigger] s0[k]).0 == t;
    assert(s1[k1].0 == s0[k1].0);
    assert(k1 == i);
    assert(k0 == i);
}

/// Appending a new tile's entry changes only that tile's lookup, from empty
/// to the single location.
proof fn lemma_get_push(
    s0: Seq<(i64, Vec<(usize, u64)>)>,
    s1: Seq<(i64, Vec<(usize, u64)>)>,
    t: i64,
    loc: (usize, u64),
)
    requires
        s1.len() == s0.len() + 1,
        forall|a: int, b: int| 0 <= a < b < s0.len() ==> (#[trigger] s0[a]).0 != (#[trigger] s0[b]).0,
        forall|j: int| 0 <= j < s0.len() ==> (#[trigger] s0[j]).0 != t,
        s1.drop_last() =~= s0,
        s1.last().0 == t,
        s1.last().1@ == seq![loc],
    ensures
        forall|a: int, b: int| 0 <= a < b < s1.len() ==> (#[trigger] s1[a]).0 != (#[trigger] s1[b]).0,
        forall|tt: i64|
            tt != t ==> (if spec_has_tile(s1, tt) {
                s1[choose|k: int| 0 <= k < s1.len() && (#[trigger] s1[k]).0 == tt].1@
            } else {
                Seq::<(usize, u64)>::empty()
            }) == (if spec_has_tile(s0, tt) {
                s0[choose|k: int| 0 <= k < s0.len() && (#[trigger] s0[k]).0 == tt].1@
            } else {
                Seq::<(usize, u64)>::empty()
            }),
        !spec_has_tile(s0, t),
        spec_has_tile(s1, t),
        s1[choose|k: int| 0 <= k < s1.len() && (#[trigger] s1[k]).0 == t].1@ == seq![loc],
{
    assert forall|j: int| 0 <= j < s0.len() implies #[trigger] s1[j] == s0[j] by {
        assert(s1.drop_last()[j] == s1[j]);
    }
    assert forall|a: int, b: int| 0 <= a < b < s1.len() implies (#[trigger] s1[a]).0 != (
    #[trigger] s1[b]).0 by {
        if b == s1.len() - 1 {
            assert(s1[a] == s0[a]);
            assert(s1[b].0 == t);
        }
    }
    assert forall|tt: i64| tt != t implies (if spec_has_tile(s1, tt) {
        s1[choose|k: int| 0 <= k < s1.len() && (#[trigger] s1[k]).0 == tt].1@
    } else {
        Seq::<(usize, u64)>::empty()
    }) == (if spec_has_tile(s0, tt) {
        s0[choose|k: int| 0 <= k < s0.len() && (#[trigger] s0[k]).0 == tt].1@
    } else {
        Seq::<(usize, u64)>::empty()
    }) by {
        if spec_has_tile(s1, tt) {
            let k = choose|k: int| 0 <= k < s1.len() && (#[trigger] s1[k]).0 == tt;
            assert(k < s1.len() - 1);
            assert(s1[k] == s0[k]);
            assert(spec_has_tile(s0, tt));
            let k0 = choose|k0: int| 0 <= k0 < s0.len() && (#[trigger] s0[k0]).0 == tt;
            assert(k0 == k);
        } else if spec_has_tile(s0, tt) {
            let k = choose|k: int| 0 <= k < s0.len() && (#[trigger] s0[k]).0 == tt;
            assert(s1[k].0 == tt);
        }
    }
    assert(s1[s1.len() - 1].0 == t);
    let k1 = choose|k: int| 0 <= k < s1.len() && (#[trigger] s1[k]).0 == t;
    assert(k1 == s1.len() - 1);
}

} // verus!
