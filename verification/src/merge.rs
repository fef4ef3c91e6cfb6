use vstd::prelude::*;

use crate::block::PrimitiveBlock;
use crate::elements::{Changetype, ElementType, Node, Relation, Way};
use crate::idset::IdSet;
use crate::minimal::{MinimalBlock, MinimalNode, MinimalRelation, MinimalWay};

verus! {

/// A record kind that folding operates on: it has an id, and its changetype
/// may mark it as a removal when a change block is applied.
pub trait FoldRecord: Sized {
    spec fn sid(self) -> i64;

    spec fn removal(self) -> bool;

    fn id(&self) -> (r: i64)
        ensures
            r == self.sid(),
    ;

    fn is_removal(&self) -> (r: bool)
        ensures
            r == self.removal(),
    ;
}

impl FoldRecord for Node {
    open spec fn sid(self) -> i64 {
        self.id
    }

    open spec fn removal(self) -> bool {
        self.changetype == Changetype::Delete || self.changetype == Changetype::Remove
    }

    fn id(&self) -> i64 {
        self.id
    }

    fn is_removal(&self) -> bool {
        match self.changetype {
            Changetype::Delete => true,
            Changetype::Remove => true,
            _ => false,
        }
    }
}

impl FoldRecord for Way {
    open spec fn sid(self) -> i64 {
        self.id
    }

    open spec fn removal(self) -> bool {
        self.changetype == Changetype::Delete || self.changetype == Changetype::Remove
    }

    fn id(&self) -> i64 {
        self.id
    }

    fn is_removal(&self) -> bool {
        match self.changetype {
            Changetype::Delete => true,
            Changetype::Remove => true,
            _ => false,
        }
    }
}

impl FoldRecord for Relation {
    open spec fn sid(self) -> i64 {
        self.id
    }

    open spec fn removal(self) -> bool {
        self.changetype == Changetype::Delete || self.changetype == Changetype::Remove
    }

    fn id(&self) -> i64 {
        self.id
    }

    fn is_removal(&self) -> bool {
        match self.changetype {
            Changetype::Delete => true,
            Changetype::Remove => true,
            _ => false,
        }
    }
}

impl FoldRecord for MinimalNode {
    open spec fn sid(self) -> i64 {
        self.id
    }

    open spec fn removal(self) -> bool {
        self.changetype == Changetype::Delete || self.changetype == Changetype::Remove
    }

    fn id(&self) -> i64 {
        self.id
    }

    fn is_removal(&self) -> bool {
        match self.changetype {
            Changetype::Delete => true,
            Changetype::Remove => true,
            _ => false,
        }
    }
}

impl FoldRecord for MinimalWay {
    open spec fn sid(self) -> i64 {
        self.id
    }

    open spec fn removal(self) -> bool {
        self.changetype == Changetype::Delete || self.changetype == Changetype::Remove
    }

    fn id(&self) -> i64 {
        self.id
    }

    fn is_removal(&self) -> bool {
        match self.changetype {
            Changetype::Delete => true,
            Changetype::Remove => true,
            _ => false,
        }
    }
}

impl FoldRecord for MinimalRelation {
    open spec fn sid(self) -> i64 {
        self.id
    }

    open spec fn removal(self) -> bool {
        self.changetype == Changetype::Delete || self.changetype == Changetype::Remove
    }

    fn id(&self) -> i64 {
        self.id
    }

    fn is_removal(&self) -> bool {
        match self.changetype {
            Changetype::Delete => true,
            Changetype::Remove => true,
            _ => false,
        }
    }
}

/// Ids strictly increase along the list.
pub open spec fn sorted_by_id<T: FoldRecord>(s: Seq<T>) -> bool {
    forall|i: int, j: int| 0 <= i < j < s.len() ==> (#[trigger] s[i]).sid() < (#[trigger] s[j]).sid()
}

/// Some record of the list has this id.
pub open spec fn has_id<T: FoldRecord>(s: Seq<T>, id: i64) -> bool {
    exists|i: int| 0 <= i < s.len() && (#[trigger] s[i]).sid() == id
}

/// The record of the list with this id.
pub open spec fn find_id<T: FoldRecord>(s: Seq<T>, id: i64) -> T {
    s[choose|i: int| 0 <= i < s.len() && (#[trigger] s[i]).sid() == id]
}

/// The id-merge of two ordered record lists, the second winning on an id
/// held by both. When `apply` is set the merge applies change semantics:
/// a second-list record marked as a removal erases its id from the result.
pub open spec fn spec_fold_records<T: FoldRecord>(a: Seq<T>, b: Seq<T>, apply: bool) -> Seq<T>
    decreases a.len() + b.len(),
{
    if a.len() == 0 && b.len() == 0 {
        Seq::empty()
    } else if b.len() == 0 {
        seq![a[0]] + spec_fold_records(a.drop_first(), b, apply)
    } else if a.len() == 0 {
        (if apply && b[0].removal() {
            Seq::empty()
        } else {
            seq![b[0]]
        }) + spec_fold_records(a, b.drop_first(), apply)
    } else if a[0].sid() < b[0].sid() {
        seq![a[0]] + spec_fold_records(a.drop_first(), b, apply)
    } else if a[0].sid() > b[0].sid() {
        (if apply && b[0].removal() {
            Seq::empty()
        } else {
            seq![b[0]]
        }) + spec_fold_records(a, b.drop_first(), apply)
    } else {
        (if apply && b[0].removal() {
            Seq::empty()
        } else {
            seq![b[0]]
        }) + spec_fold_records(a.drop_first(), b.drop_first(), apply)
    }
}

/// Whether the fold keeps id `id`: a second-list record wins unless it is a
/// removal under change semantics; a first-list record survives unless the
/// second list also holds its id.
pub open spec fn spec_fold_keeps<T: FoldRecord>(a: Seq<T>, b: Seq<T>, apply: bool, id: i64) -> bool {
    if has_id(b, id) {
        !(apply && find_id(b, id).removal())
    } else {
        has_id(a, id)
    }
}

/// The id-merge of two ordered lists is ordered, keeps exactly the ids that
/// `spec_fold_keeps` says, and for each kept id holds the second list's
/// record if that list has the id, else the first list's.
pub proof fn lemma_fold_records_props<T: FoldRecord>(a: Seq<T>, b: Seq<T>, apply: bool)
    requires
        sorted_by_id(a),
        sorted_by_id(b),
    ensures
        sorted_by_id(spec_fold_records(a, b, apply)),
        forall|id: i64|
            has_id(spec_fold_records(a, b, apply), id) <==> spec_fold_keeps(a, b, apply, id),
        forall|id: i64|
            has_id(spec_fold_records(a, b, apply), id) ==> find_id(
                spec_fold_records(a, b, apply),
                id,
            ) == (if has_id(b, id) {
                find_id(b, id)
            } else {
                find_id(a, id)
            }),
    decreases a.len() + b.len(),
{
    let r = spec_fold_records(a, b, apply);
    if a.len() == 0 && b.len() == 0 {
        assert(forall|id: i64| !has_id(a, id) && !has_id(b, id));
    } else if b.len() == 0 {
        lemma_fold_records_props(a.drop_first(), b, apply);
        lemma_head_cons(a, b, apply, a[0], true);
    } else if a.len() == 0 {
        lemma_fold_records_props(a, b.drop_first(), apply);
        if apply && b[0].removal() {
            lemma_head_skip(a, b, apply);
        } else {
            lemma_head_cons(a, b, apply, b[0], false);
        }
    } else if a[0].sid() < b[0].sid() {
        lemma_fold_records_props(a.drop_first(), b, apply);
        lemma_head_cons(a, b, apply, a[0], true);
    } else if a[0].sid() > b[0].sid() {
        lemma_fold_records_props(a, b.drop_first(), apply);
        if apply && b[0].removal() {
            lemma_head_skip(a, b, apply);
        } else {
            lemma_head_cons(a, b, apply, b[0], false);
        }
    } else {
        lemma_fold_records_props(a.drop_first(), b.drop_first(), apply);
        if apply && b[0].removal() {
            lemma_head_skip(a, b, apply);
        } else {
            lemma_head_cons(a, b, apply, b[0], false);
        }
    }
}

/// The ids present in a tail, related to the whole sorted list.
proof fn lemma_sorted_tail<T: FoldRecord>(s: Seq<T>)
    requires
        sorted_by_id(s),
        s.len() > 0,
    ensures
        sorted_by_id(s.drop_first()),
        forall|id: i64| has_id(s, id) ==> id >= s[0].sid(),
        forall|id: i64| has_id(s.drop_first(), id) ==> has_id(s, id) && id > s[0].sid(),
        forall|id: i64| has_id(s, id) && id != s[0].sid() ==> has_id(s.drop_first(), id),
        forall|id: i64|
            has_id(s.drop_first(), id) ==> find_id(s.drop_first(), id) == find_id(s, id),
        has_id(s, s[0].sid()),
        find_id(s, s[0].sid()) == s[0],
{
    let t = s.drop_first();
    assert forall|i: int, j: int| 0 <= i < j < t.len() implies (#[trigger] t[i]).sid() < (
    #[trigger] t[j]).sid() by {
        assert(t[i] == s[i + 1]);
        assert(t[j] == s[j + 1]);
    }
    assert forall|id: i64| has_id(s, id) implies id >= s[0].sid() by {
        let i = choose|i: int| 0 <= i < s.len() && (#[trigger] s[i]).sid() == id;
        if i > 0 {
            assert(s[0].sid() < s[i].sid());
        }
    }
    assert forall|id: i64| has_id(t, id) implies has_id(s, id) && id > s[0].sid() by {
        let i = choose|i: int| 0 <= i < t.len() && (#[trigger] t[i]).sid() == id;
        assert(t[i] == s[i + 1]);
        assert(s[i + 1].sid() == id);
    }
    assert forall|id: i64| has_id(s, id) && id != s[0].sid() implies has_id(t, id) by {
        let i = choose|i: int| 0 <= i < s.len() && (#[trigger] s[i]).sid() == id;
        assert(i != 0);
        assert(t[i - 1] == s[i]);
    }
    assert forall|id: i64| has_id(t, id) implies find_id(t, id) == find_id(s, id) by {
        let i = choose|i: int| 0 <= i < t.len() && (#[trigger] t[i]).sid() == id;
        let j = choose|j: int| 0 <= j < s.len() && (#[trigger] s[j]).sid() == id;
        assert(t[i] == s[i + 1]);
        assert(s[j].sid() == s[i + 1].sid());
        assert(j == i + 1);
    }
    assert(s[0].sid() == s[0].sid());
    let j = choose|j: int| 0 <= j < s.len() && (#[trigger] s[j]).sid() == s[0].sid();
    assert(j == 0);
}

/// In a sorted list each id appears at most once, so the record found for
/// an id is the record at any index holding that id.
proof fn lemma_sorted_find<T: FoldRecord>(s: Seq<T>, i: int)
    requires
        sorted_by_id(s),
        0 <= i < s.len(),
    ensures
        has_id(s, s[i].sid()),
        find_id(s, s[i].sid()) == s[i],
{
    assert(s[i].sid() == s[i].sid());
    let j = choose|j: int| 0 <= j < s.len() && (#[trigger] s[j]).sid() == s[i].sid();
    if j < i {
        assert(s[j].sid() < s[i].sid());
    } else if j > i {
        assert(s[i].sid() < s[j].sid());
    }
}

/// The first-list remainder after one fold step.
pub open spec fn tail_a<T: FoldRecord>(a: Seq<T>, b: Seq<T>, apply: bool) -> Seq<T> {
    if b.len() == 0 {
        a.drop_first()
    } else if a.len() == 0 {
        a
    } else if a[0].sid() < b[0].sid() {
        a.drop_first()
    } else if a[0].sid() > b[0].sid() {
        a
    } else {
        a.drop_first()
    }
}

/// The second-list remainder after one fold step.
pub open spec fn tail_b<T: FoldRecord>(a: Seq<T>, b: Seq<T>, apply: bool) -> Seq<T> {
    if b.len() == 0 {
        b
    } else if a.len() == 0 {
        b.drop_first()
    } else if a[0].sid() < b[0].sid() {
        b
    } else {
        b.drop_first()
    }
}

proof fn lemma_cons_views<T: FoldRecord>(r: Seq<T>, h: T, rest: Seq<T>)
    requires
        r =~= seq![h] + rest,
    ensures
        r.len() == rest.len() + 1,
        r[0] == h,
        forall|i: int| 0 <= i < rest.len() ==> r[i + 1] == #[trigger] rest[i],
        forall|id: i64| has_id(r, id) <==> id == h.sid() || has_id(rest, id),
{
    assert forall|i: int| 0 <= i < rest.len() implies r[i + 1] == #[trigger] rest[i] by {}
    assert forall|id: i64| has_id(r, id) implies id == h.sid() || has_id(rest, id) by {
        let i = choose|i: int| 0 <= i < r.len() && (#[trigger] r[i]).sid() == id;
        if i > 0 {
            assert(rest[i - 1] == r[i]);
        }
    }
    assert forall|id: i64| (id == h.sid() || has_id(rest, id)) implies has_id(r, id) by {
        if id == h.sid() {
            assert(r[0] == h);
        } else {
            let i = choose|i: int| 0 <= i < rest.len() && (#[trigger] rest[i]).sid() == id;
            assert(r[i + 1] == rest[i]);
        }
    }
}

/// When the fold keeps a head record `h`, the result is `h` followed by the
/// fold of the tails; this step preserves the three properties.
proof fn lemma_head_cons<T: FoldRecord>(a: Seq<T>, b: Seq<T>, apply: bool, h: T, from_a: bool)
    requires
        sorted_by_id(a),
        sorted_by_id(b),
        a.len() + b.len() > 0,
        spec_fold_records(a, b, apply) =~= seq![h] + spec_fold_records(
            tail_a(a, b, apply),
            tail_b(a, b, apply),
            apply,
        ),
        sorted_by_id(
            spec_fold_records(tail_a(a, b, apply), tail_b(a, b, apply), apply),
        ),
        forall|id: i64|
            has_id(spec_fold_records(tail_a(a, b, apply), tail_b(a, b, apply), apply), id)
                <==> spec_fold_keeps(tail_a(a, b, apply), tail_b(a, b, apply), apply, id),
        forall|id: i64|
            has_id(spec_fold_records(tail_a(a, b, apply), tail_b(a, b, apply), apply), id)
                ==> find_id(
                spec_fold_records(tail_a(a, b, apply), tail_b(a, b, apply), apply),
                id,
            ) == (if has_id(tail_b(a, b, apply), id) {
                find_id(tail_b(a, b, apply), id)
            } else {
                find_id(tail_a(a, b, apply), id)
            }),
        from_a ==> b.len() == 0 || (a.len() > 0 && a[0].sid() < b[0].sid()),
        from_a ==> a.len() > 0 && h == a[0],
        !from_a ==> b.len() > 0 && h == b[0] && !(apply && b[0].removal()),
        !from_a ==> a.len() == 0 || a[0].sid() >= b[0].sid(),
    ensures
        sorted_by_id(spec_fold_records(a, b, apply)),
        forall|id: i64|
            has_id(spec_fold_records(a, b, apply), id) <==> spec_fold_keeps(a, b, apply, id),
        forall|id: i64|
            has_id(spec_fold_records(a, b, apply), id) ==> find_id(
                spec_fold_records(a, b, apply),
                id,
            ) == (if has_id(b, id) {
                find_id(b, id)
            } else {
                find_id(a, id)
            }),
{
    let ta = tail_a(a, b, apply);
    let tb = tail_b(a, b, apply);
    let rest = spec_fold_records(ta, tb, apply);
    let r = spec_fold_records(a, b, apply);
    if a.len() > 0 {
        lemma_sorted_tail(a);
    }
    if b.len() > 0 {
        lemma_sorted_tail(b);
    }
    assert(r[0] == h);
    assert(r.drop_first() =~= rest);
    lemma_cons_views(r, h, rest);
    // every id in the tails, and so in their fold, exceeds h's id
    assert forall|id: i64| has_id(rest, id) implies id > h.sid() by {
        assert(spec_fold_keeps(ta, tb, apply, id));
        if has_id(tb, id) {
            if from_a {
                assert(b.len() > 0);
                assert(id >= b[0].sid());
            } else {
                assert(id > b[0].sid());
            }
        } else {
            assert(has_id(ta, id));
            if from_a {
                assert(id > a[0].sid());
            } else {
                if a.len() > 0 && a[0].sid() == b[0].sid() {
                    assert(id > a[0].sid());
                } else if a.len() > 0 {
                    assert(id >= a[0].sid());
                }
            }
        }
    }
    // sortedness
    assert forall|i: int, j: int| 0 <= i < j < r.len() implies (#[trigger] r[i]).sid() < (
    #[trigger] r[j]).sid() by {
        if i == 0 {
            assert(r[j] == rest[j - 1]);
            lemma_sorted_find(rest, j - 1);
            assert(has_id(rest, rest[j - 1].sid()));
        } else {
            assert(r[i] == rest[i - 1]);
            assert(r[j] == rest[j - 1]);
        }
    }
    // membership and keeps carry between the tails and the full lists for
    // ids other than the head id
    assert forall|id: i64| id != h.sid() implies (spec_fold_keeps(a, b, apply, id)
        <==> spec_fold_keeps(ta, tb, apply, id)) by {
        if from_a {
            assert(tb =~= b);
            assert(ta =~= a.drop_first());
        } else {
            assert(tb =~= b.drop_first());
            if a.len() > 0 && a[0].sid() == b[0].sid() {
                assert(ta =~= a.drop_first());
            } else {
                assert(ta =~= a);
            }
        }
    }
    // the head id is kept by the full fold
    assert(spec_fold_keeps(a, b, apply, h.sid())) by {
        if from_a {
            if b.len() > 0 {
                assert(!has_id(b, h.sid()));
            }
        } else {
            assert(has_id(b, h.sid()));
            assert(find_id(b, h.sid()) == b[0]);
        }
    }
    // membership
    assert forall|id: i64| has_id(r, id) implies spec_fold_keeps(a, b, apply, id) by {
        if id != h.sid() {
            assert(has_id(rest, id));
        }
    }
    assert forall|id: i64| spec_fold_keeps(a, b, apply, id) implies has_id(r, id) by {
        if id != h.sid() {
            assert(spec_fold_keeps(ta, tb, apply, id));
            assert(has_id(rest, id));
        }
    }
    // values
    assert forall|id: i64| has_id(r, id) implies find_id(r, id) == (if has_id(b, id) {
        find_id(b, id)
    } else {
        find_id(a, id)
    }) by {
        if id == h.sid() {
            lemma_sorted_find(r, 0);
            assert(find_id(r, id) == h);
            if from_a {
                if b.len() > 0 {
                    assert(!has_id(b, id));
                }
                assert(find_id(a, id) == a[0]);
            } else {
                assert(find_id(b, id) == b[0]);
            }
        } else {
            assert(has_id(rest, id));
            let i = choose|i: int| 0 <= i < rest.len() && (#[trigger] rest[i]).sid() == id;
            assert(r[i + 1] == rest[i]);
            lemma_sorted_find(r, i + 1);
            lemma_sorted_find(rest, i);
            assert(find_id(r, id) == find_id(rest, id));
            // carry the tail value facts over to the full lists
            if from_a {
                assert(tb =~= b);
                assert(ta =~= a.drop_first());
                if !has_id(b, id) {
                    assert(has_id(ta, id));
                    assert(find_id(ta, id) == find_id(a, id));
                }
            } else {
                assert(tb =~= b.drop_first());
                if has_id(b, id) {
                    assert(has_id(tb, id));
                    assert(find_id(tb, id) == find_id(b, id));
                } else {
                    if a.len() > 0 && a[0].sid() == b[0].sid() {
                        assert(ta =~= a.drop_first());
                        assert(has_id(ta, id));
                        assert(find_id(ta, id) == find_id(a, id));
                    } else {
                        assert(ta =~= a);
                    }
                }
            }
        }
    }
}

/// When the fold drops a removal-marked head of the second list, the result
/// is the fold of the remaining lists; this step preserves the properties.
proof fn lemma_head_skip<T: FoldRecord>(a: Seq<T>, b: Seq<T>, apply: bool)
    requires
        sorted_by_id(a),
        sorted_by_id(b),
        b.len() > 0,
        apply && b[0].removal(),
        a.len() == 0 || a[0].sid() >= b[0].sid(),
        spec_fold_records(a, b, apply) =~= spec_fold_records(
            tail_a(a, b, apply),
            tail_b(a, b, apply),
            apply,
        ),
        sorted_by_id(
            spec_fold_records(tail_a(a, b, apply), tail_b(a, b, apply), apply),
        ),
        forall|id: i64|
            has_id(spec_fold_records(tail_a(a, b, apply), tail_b(a, b, apply), apply), id)
                <==> spec_fold_keeps(tail_a(a, b, apply), tail_b(a, b, apply), apply, id),
        forall|id: i64|
            has_id(spec_fold_records(tail_a(a, b, apply), tail_b(a, b, apply), apply), id)
                ==> find_id(
                spec_fold_records(tail_a(a, b, apply), tail_b(a, b, apply), apply),
                id,
            ) == (if has_id(tail_b(a, b, apply), id) {
                find_id(tail_b(a, b, apply), id)
            } else {
                find_id(tail_a(a, b, apply), id)
            }),
    ensures
        sorted_by_id(spec_fold_records(a, b, apply)),
        forall|id: i64|
            has_id(spec_fold_records(a, b, apply), id) <==> spec_fold_keeps(a, b, apply, id),
        forall|id: i64|
            has_id(spec_fold_records(a, b, apply), id) ==> find_id(
                spec_fold_records(a, b, apply),
                id,
            ) == (if has_id(b, id) {
                find_id(b, id)
            } else {
                find_id(a, id)
            }),
{
    let ta = tail_a(a, b, apply);
    let tb = tail_b(a, b, apply);
    let rest = spec_fold_records(ta, tb, apply);
    let r = spec_fold_records(a, b, apply);
    if a.len() > 0 {
        lemma_sorted_tail(a);
    }
    lemma_sorted_tail(b);
    assert(tb =~= b.drop_first());
    if a.len() > 0 && a[0].sid() == b[0].sid() {
        assert(ta =~= a.drop_first());
    } else {
        assert(ta =~= a);
    }
    assert(r == rest);
    // no id of the remaining lists is the dropped head id
    assert forall|id: i64| has_id(rest, id) implies id != b[0].sid() by {
        assert(spec_fold_keeps(ta, tb, apply, id));
        if has_id(tb, id) {
            assert(id > b[0].sid());
        } else {
            assert(has_id(ta, id));
            if a.len() > 0 && a[0].sid() == b[0].sid() {
                assert(id > a[0].sid());
            } else if a.len() > 0 {
                assert(id >= a[0].sid());
            }
        }
    }
    // keeps carries between the remaining and the full lists
    assert forall|id: i64| id != b[0].sid() implies (spec_fold_keeps(a, b, apply, id)
        <==> spec_fold_keeps(ta, tb, apply, id)) by {}
    // the dropped head id is not kept by the full fold
    assert(!spec_fold_keeps(a, b, apply, b[0].sid())) by {
        assert(has_id(b, b[0].sid()));
        assert(find_id(b, b[0].sid()) == b[0]);
    }
    assert forall|id: i64| has_id(r, id) implies spec_fold_keeps(a, b, apply, id) by {
        assert(id != b[0].sid());
    }
    assert forall|id: i64| spec_fold_keeps(a, b, apply, id) implies has_id(r, id) by {
        assert(id != b[0].sid());
        assert(spec_fold_keeps(ta, tb, apply, id));
    }
    // values
    assert forall|id: i64| has_id(r, id) implies find_id(r, id) == (if has_id(b, id) {
        find_id(b, id)
    } else {
        find_id(a, id)
    }) by {
        assert(has_id(rest, id));
        assert(id != b[0].sid());
        if has_id(b, id) {
            assert(has_id(tb, id));
            assert(find_id(tb, id) == find_id(b, id));
        } else {
            assert(!has_id(tb, id));
            assert(has_id(ta, id));
            if a.len() > 0 && a[0].sid() == b[0].sid() {
                assert(find_id(ta, id) == find_id(a, id));
            }
        }
    }
}

/// The executable id-merge of two ordered record lists.
fn fold_records<T: FoldRecord>(a: Vec<T>, b: Vec<T>, apply: bool) -> (r: Vec<T>)
    ensures
        r@ == spec_fold_records(a@, b@, apply),
    decreases a@.len() + b@.len(),
{
    let mut a = a;
    let mut b = b;
    let mut out: Vec<T> = Vec::new();
    let ghost ga: Seq<T> = a@;
    let ghost gb: Seq<T> = b@;
    while a.len() > 0 || b.len() > 0
        invariant
            out@ + spec_fold_records(a@, b@, apply) == spec_fold_records(ga, gb, apply),
        decreases a@.len() + b@.len(),
    {
        let ghost pa = a@;
        let ghost pb = b@;
        let take_b: bool = if a.len() == 0 {
            true
        } else if b.len() == 0 {
            false
        } else if a[0].id() < b[0].id() {
            false
        } else {
            true
        };
        if take_b {
            let both = a.len() > 0 && a[0].id() == b[0].id();
            if both {
                let _discarded = a.remove(0);
            }
            let e = b.remove(0);
            proof {
                assert(pa.len() == 0 || pb.len() == 0 || pa[0].sid() >= pb[0].sid());
                assert(a@ =~= tail_a(pa, pb, apply));
                assert(b@ =~= tail_b(pa, pb, apply));
            }
            if !(apply && e.is_removal()) {
                out.push(e);
                proof {
                    assert(spec_fold_records(pa, pb, apply) =~= seq![pb[0]]
                        + spec_fold_records(a@, b@, apply));
                    assert(out@ + spec_fold_records(a@, b@, apply) =~= spec_fold_records(
                        ga,
                        gb,
                        apply,
                    ));
                }
            } else {
                proof {
                    assert(spec_fold_records(pa, pb, apply) =~= spec_fold_records(
                        a@,
                        b@,
                        apply,
                    ));
                }
            }
        } else {
            let e = a.remove(0);
            proof {
                assert(pb.len() == 0 || pa[0].sid() < pb[0].sid());
                assert(a@ =~= tail_a(pa, pb, apply));
                assert(b@ =~= tail_b(pa, pb, apply));
            }
            out.push(e);
            proof {
                assert(spec_fold_records(pa, pb, apply) =~= seq![pa[0]] + spec_fold_records(
                    a@,
                    b@,
                    apply,
                ));
                assert(out@ + spec_fold_records(a@, b@, apply) =~= spec_fold_records(
                    ga,
                    gb,
                    apply,
                ));
            }
        }
    }
    proof {
        assert(out@ + spec_fold_records(a@, b@, apply) =~= out@);
    }
    out
}

/// Blocks are ordered within each record kind.
pub open spec fn block_sorted(bl: PrimitiveBlock) -> bool {
    sorted_by_id(bl.nodes@) && sorted_by_id(bl.ways@) && sorted_by_id(bl.relations@)
}

/// Folding two ordered blocks keeps every record kind ordered, so the
/// ordering invariant survives both snapshot union and change application.
pub proof fn lemma_block_fold_sorted(a: PrimitiveBlock, b: PrimitiveBlock, apply: bool)
    requires
        block_sorted(a),
        block_sorted(b),
    ensures
        sorted_by_id(spec_fold_records(a.nodes@, b.nodes@, apply)),
        sorted_by_id(spec_fold_records(a.ways@, b.ways@, apply)),
        sorted_by_id(spec_fold_records(a.relations@, b.relations@, apply)),
{
    lemma_fold_records_props(a.nodes@, b.nodes@, apply);
    lemma_fold_records_props(a.ways@, b.ways@, apply);
    lemma_fold_records_props(a.relations@, b.relations@, apply);
}

/// Union of two snapshots: each record kind id-merged, the later block
/// winning on an id held by both. The result keeps the left block's index,
/// location and tile key, and spans the two blocks' date range.
pub fn combine_primitive(left: PrimitiveBlock, right: PrimitiveBlock) -> (r: PrimitiveBlock)
    ensures
        r.nodes@ == spec_fold_records(left.nodes@, right.nodes@, false),
        r.ways@ == spec_fold_records(left.ways@, right.ways@, false),
        r.relations@ == spec_fold_records(left.relations@, right.relations@, false),
        r.index == left.index,
        r.location == left.location,
        r.quadtree == left.quadtree,
        r.start_date == left.start_date,
        r.end_date == right.end_date,
{
    PrimitiveBlock {
        index: left.index,
        location: left.location,
        quadtree: left.quadtree,
        start_date: left.start_date,
        end_date: right.end_date,
        nodes: fold_records(left.nodes, right.nodes, false),
        ways: fold_records(left.ways, right.ways, false),
        relations: fold_records(left.relations, right.relations, false),
    }
}

/// Apply a change block onto a base snapshot: each record kind id-merged
/// with change semantics, so a created or modified record replaces the base
/// record of its id, and a record marked delete or remove erases it.
pub fn apply_change_primitive(base: PrimitiveBlock, diff: PrimitiveBlock) -> (r: PrimitiveBlock)
    ensures
        r.nodes@ == spec_fold_records(base.nodes@, diff.nodes@, true),
        r.ways@ == spec_fold_records(base.ways@, diff.ways@, true),
        r.relations@ == spec_fold_records(base.relations@, diff.relations@, true),
        r.index == base.index,
        r.location == base.location,
        r.quadtree == base.quadtree,
        r.start_date == base.start_date,
        r.end_date == diff.end_date,
{
    PrimitiveBlock {
        index: base.index,
        location: base.location,
        quadtree: base.quadtree,
        start_date: base.start_date,
        end_date: diff.end_date,
        nodes: fold_records(base.nodes, diff.nodes, true),
        ways: fold_records(base.ways, diff.ways, true),
        relations: fold_records(base.relations, diff.relations, true),
    }
}

/// The reconstruction law: folding a base snapshot with a change block that
/// modifies an id present in the base yields exactly one record for that id,
/// and it is the changed record, not the base one and not a duplicate.
pub proof fn lemma_reconstruction_modify<T: FoldRecord>(a: Seq<T>, b: Seq<T>, id: i64)
    requires
        sorted_by_id(a),
        sorted_by_id(b),
        has_id(a, id),
        has_id(b, id),
        !find_id(b, id).removal(),
    ensures
        has_id(spec_fold_records(a, b, true), id),
        find_id(spec_fold_records(a, b, true), id) == find_id(b, id),
        exists|i: int|
            0 <= i < spec_fold_records(a, b, true).len() && (#[trigger] spec_fold_records(
                a,
                b,
                true,
            )[i]).sid() == id && (forall|j: int|
                0 <= j < spec_fold_records(a, b, true).len() && j != i
                    ==> (#[trigger] spec_fold_records(a, b, true)[j]).sid() != id),
{
    lemma_fold_records_props(a, b, true);
    let r = spec_fold_records(a, b, true);
    assert(spec_fold_keeps(a, b, true, id));
    assert(has_id(r, id));
    let i = choose|i: int| 0 <= i < r.len() && (#[trigger] r[i]).sid() == id;
    assert forall|j: int| 0 <= j < r.len() && j != i implies (#[trigger] r[j]).sid() != id by {
        if r[j].sid() == id {
            if j < i {
                assert(r[j].sid() < r[i].sid());
            } else {
                assert(r[i].sid() < r[j].sid());
            }
        }
    }
}

/// The reconstruction law for deletions: a change record marked delete or
/// remove erases its id from the folded snapshot.
pub proof fn lemma_reconstruction_delete<T: FoldRecord>(a: Seq<T>, b: Seq<T>, id: i64)
    requires
        sorted_by_id(a),
        sorted_by_id(b),
        has_id(b, id),
        find_id(b, id).removal(),
    ensures
        !has_id(spec_fold_records(a, b, true), id),
{
    lemma_fold_records_props(a, b, true);
    assert(!spec_fold_keeps(a, b, true, id));
    assert(has_id(spec_fold_records(a, b, true), id) <==> spec_fold_keeps(a, b, true, id));
}

/// Keep only the records an id filter retains, preserving order.
pub open spec fn spec_filter_kept<T: FoldRecord>(s: Seq<T>, ids: IdSet, t: ElementType) -> Seq<T>
    decreases s.len(),
{
    if s.len() == 0 {
        Seq::empty()
    } else {
        spec_filter_kept(s.drop_last(), ids, t) + (if ids.spec_contains(t, s.last().sid()) {
            seq![s.last()]
        } else {
            Seq::empty()
        })
    }
}

fn filter_kept<T: FoldRecord>(s: Vec<T>, ids: &IdSet, t: ElementType) -> (r: Vec<T>)
    ensures
        r@ == spec_filter_kept(s@, *ids, t),
{
    let mut s = s;
    let mut out: Vec<T> = Vec::new();
    let ghost gs: Seq<T> = s@;
    let ghost mut idx: int = 0;
    while s.len() > 0
        invariant
            0 <= idx <= gs.len(),
            s@ == gs.skip(idx),
            out@ == spec_filter_kept(gs.take(idx), *ids, t),
        decreases gs.len() - idx,
    {
        proof {
            assert(gs.skip(idx)[0] == gs[idx]);
            assert(gs.take(idx + 1).drop_last() =~= gs.take(idx));
            assert(gs.take(idx + 1).last() == gs[idx]);
        }
        let e = s.remove(0);
        if ids.contains(t, e.id()) {
            out.push(e);
        }
        proof {
            assert(gs.skip(idx).remove(0) =~= gs.skip(idx + 1));
            idx = idx + 1;
        }
    }
    proof {
        assert(gs.take(gs.len() as int) =~= gs);
    }
    out
}

/// Prune a block to the records an id filter retains.
pub fn filter_block(bl: PrimitiveBlock, ids: &IdSet) -> (r: PrimitiveBlock)
    ensures
        r.nodes@ == spec_filter_kept(bl.nodes@, *ids, ElementType::Node),
        r.ways@ == spec_filter_kept(bl.ways@, *ids, ElementType::Way),
        r.relations@ == spec_filter_kept(bl.relations@, *ids, ElementType::Relation),
        r.index == bl.index,
        r.location == bl.location,
        r.quadtree == bl.quadtree,
        r.start_date == bl.start_date,
        r.end_date == bl.end_date,
{
    PrimitiveBlock {
        index: bl.index,
        location: bl.location,
        quadtree: bl.quadtree,
        start_date: bl.start_date,
        end_date: bl.end_date,
        nodes: filter_kept(bl.nodes, ids, ElementType::Node),
        ways: filter_kept(bl.ways, ids, ElementType::Way),
        relations: filter_kept(bl.relations, ids, ElementType::Relation),
    }
}

/// The folded node lists of a chronologically ordered block list, oldest
/// first, under change semantics.
pub open spec fn spec_reconstruct_nodes(blocks: Seq<PrimitiveBlock>) -> Seq<Node>
    decreases blocks.len(),
{
    if blocks.len() == 0 {
        Seq::empty()
    } else {
        spec_fold_records(spec_reconstruct_nodes(blocks.drop_last()), blocks.last().nodes@, true)
    }
}

/// As `spec_reconstruct_nodes`, for ways.
pub open spec fn spec_reconstruct_ways(blocks: Seq<PrimitiveBlock>) -> Seq<Way>
    decreases blocks.len(),
{
    if blocks.len() == 0 {
        Seq::empty()
    } else {
        spec_fold_records(spec_reconstruct_ways(blocks.drop_last()), blocks.last().ways@, true)
    }
}

/// As `spec_reconstruct_nodes`, for relations.
pub open spec fn spec_reconstruct_relations(blocks: Seq<PrimitiveBlock>) -> Seq<Relation>
    decreases blocks.len(),
{
    if blocks.len() == 0 {
        Seq::empty()
    } else {
        spec_fold_records(
            spec_reconstruct_relations(blocks.drop_last()),
            blocks.last().relations@,
            true,
        )
    }
}

/// The folded node lists of a block list with each block first pruned by
/// an id filter.
pub open spec fn spec_reconstruct_nodes_kept(blocks: Seq<PrimitiveBlock>, ids: IdSet) -> Seq<Node>
    decreases blocks.len(),
{
    if blocks.len() == 0 {
        Seq::empty()
    } else {
        spec_fold_records(
            spec_reconstruct_nodes_kept(blocks.drop_last(), ids),
            spec_filter_kept(blocks.last().nodes@, ids, ElementType::Node),
            true,
        )
    }
}

/// As `spec_reconstruct_nodes_kept`, for ways.
pub open spec fn spec_reconstruct_ways_kept(blocks: Seq<PrimitiveBlock>, ids: IdSet) -> Seq<Way>
    decreases blocks.len(),
{
    if blocks.len() == 0 {
        Seq::empty()
    } else {
        spec_fold_records(
            spec_reconstruct_ways_kept(blocks.drop_last(), ids),
            spec_filter_kept(blocks.last().ways@, ids, ElementType::Way),
            true,
        )
    }
}

/// As `spec_reconstruct_nodes_kept`, for relations.
pub open spec fn spec_reconstruct_relations_kept(
    blocks: Seq<PrimitiveBlock>,
    ids: IdSet,
) -> Seq<Relation>
    decreases blocks.len(),
{
    if blocks.len() == 0 {
        Seq::empty()
    } else {
        spec_fold_records(
            spec_reconstruct_relations_kept(blocks.drop_last(), ids),
            spec_filter_kept(blocks.last().relations@, ids, ElementType::Relation),
            true,
        )
    }
}

/// Rebuild the snapshot of one tile from its located blocks, read in
/// chronological order, by folding each onto the accumulated base with
/// change semantics. The optional id filter prunes each block as it is
/// folded, as a memory optimisation; a filter that accepts everything
/// yields the plain fold.
pub fn reconstruct(blocks: Vec<PrimitiveBlock>, ids: &IdSet, index: i64) -> (r: PrimitiveBlock)
    ensures
        r.nodes@ == spec_reconstruct_nodes_kept(blocks@, *ids),
        r.ways@ == spec_reconstruct_ways_kept(blocks@, *ids),
        r.relations@ == spec_reconstruct_relations_kept(blocks@, *ids),
        (*ids is AcceptAll) ==> {
            &&& r.nodes@ == spec_reconstruct_nodes(blocks@)
            &&& r.ways@ == spec_reconstruct_ways(blocks@)
            &&& r.relations@ == spec_reconstruct_relations(blocks@)
        },
        r.index == index,
{
    let mut acc = PrimitiveBlock::new(index, 0);
    let mut blocks = blocks;
    let ghost gb: Seq<PrimitiveBlock> = blocks@;
    let ghost mut idx: int = 0;
    while blocks.len() > 0
        invariant
            0 <= idx <= gb.len(),
            blocks@ == gb.skip(idx),
            acc.index == index,
            acc.nodes@ == spec_reconstruct_nodes_kept(gb.take(idx), *ids),
            acc.ways@ == spec_reconstruct_ways_kept(gb.take(idx), *ids),
            acc.relations@ == spec_reconstruct_relations_kept(gb.take(idx), *ids),
            (*ids is AcceptAll) ==> {
                &&& acc.nodes@ == spec_reconstruct_nodes(gb.take(idx))
                &&& acc.ways@ == spec_reconstruct_ways(gb.take(idx))
                &&& acc.relations@ == spec_reconstruct_relations(gb.take(idx))
            },
        decreases gb.len() - idx,
    {
        proof {
            assert(gb.skip(idx)[0] == gb[idx]);
            assert(gb.take(idx + 1).drop_last() =~= gb.take(idx));
            assert(gb.take(idx + 1).last() == gb[idx]);
        }
        let bl = blocks.remove(0);
        let ghost bl0 = bl;
        let bl = filter_block(bl, ids);
        proof {
            if (*ids) is AcceptAll {
                lemma_filter_accept_all(bl0.nodes@, *ids, ElementType::Node);
                lemma_filter_accept_all(bl0.ways@, *ids, ElementType::Way);
                lemma_filter_accept_all(bl0.relations@, *ids, ElementType::Relation);
            }
        }
        let idx_keep = acc.index;
        acc = apply_change_primitive(acc, bl);
        acc.index = idx_keep;
        proof {
            assert(gb.skip(idx).remove(0) =~= gb.skip(idx + 1));
            idx = idx + 1;
        }
    }
    proof {
        assert(gb.take(gb.len() as int) =~= gb);
    }
    acc
}

/// A filter that accepts everything keeps every record.
proof fn lemma_filter_accept_all<T: FoldRecord>(s: Seq<T>, ids: IdSet, t: ElementType)
    requires
        ids is AcceptAll,
        t != ElementType::Other,
    ensures
        spec_filter_kept(s, ids, t) =~= s,
    decreases s.len(),
{
    if s.len() > 0 {
        lemma_filter_accept_all(s.drop_last(), ids, t);
    }
}

/// Splitting a list before its last element keeps sortedness, and relates
/// membership and lookup over the shorter list to the whole.
proof fn lemma_snoc_props<T: FoldRecord>(x: Seq<T>, e: T)
    requires
        sorted_by_id(x.push(e)),
    ensures
        sorted_by_id(x),
        forall|id: i64| has_id(x.push(e), id) <==> has_id(x, id) || e.sid() == id,
        forall|id: i64| has_id(x, id) ==> find_id(x.push(e), id) == find_id(x, id),
        find_id(x.push(e), e.sid()) == e,
{
    assert forall|i: int, j: int| 0 <= i < j < x.len() implies (#[trigger] x[i]).sid() < (
    #[trigger] x[j]).sid() by {
        assert(x.push(e)[i] == x[i]);
        assert(x.push(e)[j] == x[j]);
    }
    assert forall|id: i64| has_id(x.push(e), id) implies has_id(x, id) || e.sid() == id by {
        let i = choose|i: int| 0 <= i < x.push(e).len() && (#[trigger] x.push(e)[i]).sid() == id;
        if i < x.len() {
            assert(x.push(e)[i] == x[i]);
        } else {
            assert(x.push(e)[i] == e);
        }
    }
    assert forall|id: i64| (has_id(x, id) || e.sid() == id) implies has_id(x.push(e), id) by {
        if has_id(x, id) {
            let i = choose|i: int| 0 <= i < x.len() && (#[trigger] x[i]).sid() == id;
            assert(x.push(e)[i] == x[i]);
        } else {
            assert(x.push(e)[x.len() as int] == e);
        }
    }
    assert forall|id: i64| has_id(x, id) implies find_id(x.push(e), id) == find_id(x, id) by {
        let i = choose|i: int| 0 <= i < x.len() && (#[trigger] x[i]).sid() == id;
        assert(x.push(e)[i] == x[i]);
        lemma_sorted_find(x, i);
        lemma_sorted_find(x.push(e), i);
    }
    assert(x.push(e)[x.len() as int] == e);
    lemma_sorted_find(x.push(e), x.len() as int);
}

/// Pruning an ordered record list by an id filter keeps it ordered, keeps
/// exactly the records whose ids the filter retains, and changes no kept
/// record.
pub proof fn lemma_filter_kept_props<T: FoldRecord>(s: Seq<T>, ids: IdSet, t: ElementType)
    requires
        sorted_by_id(s),
    ensures
        sorted_by_id(spec_filter_kept(s, ids, t)),
        forall|id: i64|
            has_id(spec_filter_kept(s, ids, t), id) <==> has_id(s, id) && ids.spec_contains(
                t,
                id,
            ),
        forall|id: i64|
            has_id(spec_filter_kept(s, ids, t), id) ==> find_id(spec_filter_kept(s, ids, t), id)
                == find_id(s, id),
    decreases s.len(),
{
    if s.len() == 0 {
    } else {
        let x = s.drop_last();
        let e = s.last();
        assert(s =~= x.push(e));
        lemma_snoc_props(x, e);
        lemma_filter_kept_props(x, ids, t);
        let fx = spec_filter_kept(x, ids, t);
        let fs = spec_filter_kept(s, ids, t);
        if ids.spec_contains(t, e.sid()) {
            assert(fs =~= fx.push(e));
            assert forall|id: i64| has_id(fx, id) implies id != e.sid() by {
                assert(has_id(x, id));
            }
            assert forall|i: int, j: int| 0 <= i < j < fx.push(e).len() implies (
            #[trigger] fx.push(e)[i]).sid() < (#[trigger] fx.push(e)[j]).sid() by {
                if j == fx.push(e).len() - 1 {
                    assert(fx.push(e)[i] == fx[i]);
                    assert(fx.push(e)[j] == e);
                    lemma_sorted_find(fx, i);
                    assert(has_id(fx, fx[i].sid()));
                    assert(has_id(x, fx[i].sid()));
                } else {
                    assert(fx.push(e)[i] == fx[i]);
                    assert(fx.push(e)[j] == fx[j]);
                }
            }
            lemma_snoc_props(fx, e);
            assert forall|id: i64| has_id(fs, id) <==> has_id(s, id) && ids.spec_contains(
                t,
                id,
            ) by {
                assert(has_id(fs, id) == has_id(fx.push(e), id));
                assert(has_id(s, id) == has_id(x.push(e), id));
                if id != e.sid() {
                    assert(has_id(fx, id) <==> has_id(x, id) && ids.spec_contains(t, id));
                }
            }
            assert forall|id: i64| has_id(fs, id) implies find_id(fs, id) == find_id(s, id) by {
                if id == e.sid() {
                    assert(find_id(fx.push(e), e.sid()) == e);
                    assert(find_id(x.push(e), e.sid()) == e);
                } else {
                    assert(has_id(fx, id));
                    assert(find_id(fx.push(e), id) == find_id(fx, id));
                    assert(find_id(fx, id) == find_id(x, id));
                    assert(has_id(x, id));
                    assert(find_id(x.push(e), id) == find_id(x, id));
                }
            }
        } else {
            assert(fs =~= fx);
            assert forall|id: i64| has_id(fs, id) <==> has_id(s, id) && ids.spec_contains(
                t,
                id,
            ) by {
                assert(has_id(fs, id) == has_id(fx, id));
                assert(has_id(fx, id) <==> has_id(x, id) && ids.spec_contains(t, id));
                assert(has_id(s, id) == has_id(x.push(e), id));
                if has_id(s, id) && ids.spec_contains(t, id) {
                    assert(id != e.sid());
                }
            }
            assert forall|id: i64| has_id(fs, id) implies find_id(fs, id) == find_id(s, id) by {
                assert(has_id(fx, id));
                assert(find_id(fx, id) == find_id(x, id));
                assert(has_id(x, id));
                assert(find_id(x.push(e), id) == find_id(x, id));
            }
        }
    }
}

/// The id filter never changes correctness: on every id the filter
/// retains, the fold of the pruned lists and the fold of the whole lists
/// agree, both on membership and on the record held. Pruning is thus only
/// a memory optimisation.
pub proof fn lemma_filtered_fold_agrees<T: FoldRecord>(
    a: Seq<T>,
    b: Seq<T>,
    apply: bool,
    ids: IdSet,
    t: ElementType,
)
    requires
        sorted_by_id(a),
        sorted_by_id(b),
    ensures
        forall|id: i64|
            ids.spec_contains(t, id) ==> (has_id(
                spec_fold_records(
                    spec_filter_kept(a, ids, t),
                    spec_filter_kept(b, ids, t),
                    apply,
                ),
                id,
            ) <==> has_id(spec_fold_records(a, b, apply), id)),
        forall|id: i64|
            ids.spec_contains(t, id) && has_id(spec_fold_records(a, b, apply), id) ==> find_id(
                spec_fold_records(
                    spec_filter_kept(a, ids, t),
                    spec_filter_kept(b, ids, t),
                    apply,
                ),
                id,
            ) == find_id(spec_fold_records(a, b, apply), id),
{
    let fa = spec_filter_kept(a, ids, t);
    let fb = spec_filter_kept(b, ids, t);
    lemma_filter_kept_props(a, ids, t);
    lemma_filter_kept_props(b, ids, t);
    lemma_fold_records_props(a, b, apply);
    lemma_fold_records_props(fa, fb, apply);
    assert forall|id: i64| ids.spec_contains(t, id) implies (has_id(
        spec_fold_records(fa, fb, apply),
        id,
    ) <==> has_id(spec_fold_records(a, b, apply), id)) by {
        assert(has_id(spec_fold_records(a, b, apply), id) <==> spec_fold_keeps(a, b, apply, id));
        assert(has_id(spec_fold_records(fa, fb, apply), id) <==> spec_fold_keeps(
            fa,
            fb,
            apply,
            id,
        ));
        assert(has_id(fb, id) <==> has_id(b, id));
        assert(has_id(fa, id) <==> has_id(a, id));
        if has_id(b, id) {
            assert(find_id(fb, id) == find_id(b, id));
        }
    }
    assert forall|id: i64|
        ids.spec_contains(t, id) && has_id(spec_fold_records(a, b, apply), id) implies find_id(
        spec_fold_records(fa, fb, apply),
        id,
    ) == find_id(spec_fold_records(a, b, apply), id) by {
        assert(has_id(spec_fold_records(a, b, apply), id) <==> spec_fold_keeps(a, b, apply, id));
        assert(has_id(spec_fold_records(fa, fb, apply), id) <==> spec_fold_keeps(
            fa,
            fb,
            apply,
            id,
        ));
        assert(has_id(fb, id) <==> has_id(b, id));
        assert(has_id(fa, id) <==> has_id(a, id));
        if has_id(b, id) {
            assert(find_id(fb, id) == find_id(b, id));
        } else {
            assert(spec_fold_keeps(a, b, apply, id));
            assert(has_id(a, id));
            assert(find_id(fa, id) == find_id(a, id));
        }
        assert(has_id(spec_fold_records(fa, fb, apply), id));
        assert(find_id(spec_fold_records(a, b, apply), id) == (if has_id(b, id) {
            find_id(b, id)
        } else {
            find_id(a, id)
        }));
        assert(find_id(spec_fold_records(fa, fb, apply), id) == (if has_id(fb, id) {
            find_id(fb, id)
        } else {
            find_id(fa, id)
        }));
    }
}

/// Union of two minimal snapshots: each record kind id-merged, the later
/// block winning on an id held by both, with the same framing choices as
/// the full-record union.
pub fn combine_minimal(left: MinimalBlock, right: MinimalBlock) -> (r: MinimalBlock)
    ensures
        r.nodes@ == spec_fold_records(left.nodes@, right.nodes@, false),
        r.ways@ == spec_fold_records(left.ways@, right.ways@, false),
        r.relations@ == spec_fold_records(left.relations@, right.relations@, false),
        r.index == left.index,
        r.location == left.location,
        r.quadtree == left.quadtree,
        r.start_date == left.start_date,
        r.end_date == right.end_date,
{
    MinimalBlock {
        index: left.index,
        location: left.location,
        quadtree: left.quadtree,
        start_date: left.start_date,
        end_date: right.end_date,
        nodes: fold_records(left.nodes, right.nodes, false),
        ways: fold_records(left.ways, right.ways, false),
        relations: fold_records(left.relations, right.relations, false),
    }
}

/// Apply a change block onto a minimal base snapshot, with the same
/// create, modify and delete semantics as the full-record fold.
pub fn apply_change_minimal(base: MinimalBlock, diff: MinimalBlock) -> (r: MinimalBlock)
    ensures
        r.nodes@ == spec_fold_records(base.nodes@, diff.nodes@, true),
        r.ways@ == spec_fold_records(base.ways@, diff.ways@, true),
        r.relations@ == spec_fold_records(base.relations@, diff.relations@, true),
        r.index == base.index,
        r.location == base.location,
        r.quadtree == base.quadtree,
        r.start_date == base.start_date,
        r.end_date == diff.end_date,
{
    MinimalBlock {
        index: base.index,
        location: base.location,
        quadtree: base.quadtree,
        start_date: base.start_date,
        end_date: diff.end_date,
        nodes: fold_records(base.nodes, diff.nodes, true),
        ways: fold_records(base.ways, diff.ways, true),
        relations: fold_records(base.relations, diff.relations, true),
    }
}

/// The folded minimal node lists of a block list with each block first
/// pruned by an id filter.
pub open spec fn spec_reconstruct_minimal_nodes_kept(
    blocks: Seq<MinimalBlock>,
    ids: IdSet,
) -> Seq<MinimalNode>
    decreases blocks.len(),
{
    if blocks.len() == 0 {
        Seq::empty()
    } else {
        spec_fold_records(
            spec_reconstruct_minimal_nodes_kept(blocks.drop_last(), ids),
            spec_filter_kept(blocks.last().nodes@, ids, ElementType::Node),
            true,
        )
    }
}

/// As `spec_reconstruct_minimal_nodes_kept`, for ways.
pub open spec fn spec_reconstruct_minimal_ways_kept(
    blocks: Seq<MinimalBlock>,
    ids: IdSet,
) -> Seq<MinimalWay>
    decreases blocks.len(),
{
    if blocks.len() == 0 {
        Seq::empty()
    } else {
        spec_fold_records(
            spec_reconstruct_minimal_ways_kept(blocks.drop_last(), ids),
            spec_filter_kept(blocks.last().ways@, ids, ElementType::Way),
            true,
        )
    }
}

/// As `spec_reconstruct_minimal_nodes_kept`, for relations.
pub open spec fn spec_reconstruct_minimal_relations_kept(
    blocks: Seq<MinimalBlock>,
    ids: IdSet,
) -> Seq<MinimalRelation>
    decreases blocks.len(),
{
    if blocks.len() == 0 {
        Seq::empty()
    } else {
        spec_fold_records(
            spec_reconstruct_minimal_relations_kept(blocks.drop_last(), ids),
            spec_filter_kept(blocks.last().relations@, ids, ElementType::Relation),
            true,
        )
    }
}

/// Rebuild one tile's minimal snapshot from its located blocks, read in
/// chronological order, folding each onto the accumulated base with change
/// semantics; the optional id filter prunes each block as it is folded. A
/// filter that accepts everything prunes nothing.
pub fn reconstruct_minimal(blocks: Vec<MinimalBlock>, ids: &IdSet, index: i64) -> (r:
    MinimalBlock)
    ensures
        r.nodes@ == spec_reconstruct_minimal_nodes_kept(blocks@, *ids),
        r.ways@ == spec_reconstruct_minimal_ways_kept(blocks@, *ids),
        r.relations@ == spec_reconstruct_minimal_relations_kept(blocks@, *ids),
        r.index == index,
{
    let mut acc = MinimalBlock::new(index, 0);
    let mut blocks = blocks;
    let ghost gb: Seq<MinimalBlock> = blocks@;
    let ghost mut idx: int = 0;
    while blocks.len() > 0
        invariant
            0 <= idx <= gb.len(),
            blocks@ == gb.skip(idx),
            acc.index == index,
            acc.nodes@ == spec_reconstruct_minimal_nodes_kept(gb.take(idx), *ids),
            acc.ways@ == spec_reconstruct_minimal_ways_kept(gb.take(idx), *ids),
            acc.relations@ == spec_reconstruct_minimal_relations_kept(gb.take(idx), *ids),
        decreases gb.len() - idx,
    {
        proof {
            assert(gb.skip(idx)[0] == gb[idx]);
            assert(gb.take(idx + 1).drop_last() =~= gb.take(idx));
            assert(gb.take(idx + 1).last() == gb[idx]);
        }
        let bl = blocks.remove(0);
        let bl = MinimalBlock {
            index: bl.index,
            location: bl.location,
            quadtree: bl.quadtree,
            start_date: bl.start_date,
            end_date: bl.end_date,
            nodes: filter_kept(bl.nodes, ids, ElementType::Node),
            ways: filter_kept(bl.ways, ids, ElementType::Way),
            relations: filter_kept(bl.relations, ids, ElementType::Relation),
        };
        let idx_keep = acc.index;
        acc = apply_change_minimal(acc, bl);
        acc.index = idx_keep;
        proof {
            assert(gb.skip(idx).remove(0) =~= gb.skip(idx + 1));
            idx = idx + 1;
        }
    }
    proof {
        assert(gb.take(gb.len() as int) =~= gb);
    }
    acc
}

} // verus!
