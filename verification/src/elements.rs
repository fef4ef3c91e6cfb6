use vstd::prelude::*;

use crate::error::Error;

verus! {

/// How a record entered the stream, used when folding a change block onto a
/// base snapshot.
#[derive(Clone, Copy, PartialEq, Eq, Structural, Debug, Hash)]
pub enum Changetype {
    Normal,
    Delete,
    Remove,
    Modify,
    Unchanged,
    Create,
}

/// The kind of record a relation member points at. `Other` is the reserved
/// fallback for an unrecognised member-type code.
#[derive(Clone, Copy, PartialEq, Eq, Structural, Debug, Hash)]
pub enum ElementType {
    Node,
    Way,
    Relation,
    Other,
}

/// Case-insensitive match of `s` against a keyword given in its lowercase
/// spelling `lo` and its uppercase spelling `up`.
pub open spec fn matches_ci(s: Seq<char>, lo: Seq<char>, up: Seq<char>) -> bool {
    s.len() == lo.len() && s.len() == up.len() && (forall|i: int|
        0 <= i < s.len() ==> s[i] == lo[i] || s[i] == up[i])
}

fn str_matches_ci(s: &str, lo: &str, up: &str) -> (r: bool)
    ensures
        r == matches_ci(s@, lo@, up@),
{
    let n = s.unicode_len();
    if n != lo.unicode_len() || n != up.unicode_len() {
        return false;
    }
    let mut i: usize = 0;
    while i < n
        invariant
            n == s@.len() == lo@.len() == up@.len(),
            0 <= i <= n,
            forall|j: int| 0 <= j < i ==> s@[j] == lo@[j] || s@[j] == up@[j],
        decreases n - i,
    {
        let c = s.get_char(i);
        if c != lo.get_char(i) && c != up.get_char(i) {
            return false;
        }
        i = i + 1;
    }
    true
}

/// The changetype denoted by `s`: the empty string, the full word in any
/// mix of case, or the single-letter alias.
pub open spec fn spec_changetype_from(s: Seq<char>) -> Option<Changetype> {
    if s.len() == 0 || matches_ci(s, "normal"@, "NORMAL"@) || matches_ci(s, "n"@, "N"@) {
        Some(Changetype::Normal)
    } else if matches_ci(s, "delete"@, "DELETE"@) || matches_ci(s, "d"@, "D"@) {
        Some(Changetype::Delete)
    } else if matches_ci(s, "remove"@, "REMOVE"@) || matches_ci(s, "r"@, "R"@) {
        Some(Changetype::Remove)
    } else if matches_ci(s, "modify"@, "MODIFY"@) || matches_ci(s, "m"@, "M"@) {
        Some(Changetype::Modify)
    } else if matches_ci(s, "unchanged"@, "UNCHANGED"@) || matches_ci(s, "u"@, "U"@) {
        Some(Changetype::Unchanged)
    } else if matches_ci(s, "create"@, "CREATE"@) || matches_ci(s, "c"@, "C"@) {
        Some(Changetype::Create)
    } else {
        None
    }
}

/// Parse a changetype. Accepts the full words and the single-letter aliases,
/// in any case; the empty string means `Normal`. Anything else is rejected.
pub fn changetype_from_str(ct: &str) -> (r: Result<Changetype, Error>)
    ensures
        match r {
            Ok(c) => spec_changetype_from(ct@) == Some(c),
            Err(e) => spec_changetype_from(ct@) is None && e == Error::ValueError,
        },
{
    if ct.unicode_len() == 0 || str_matches_ci(ct, "normal", "NORMAL") || str_matches_ci(ct, "n", "N") {
        Ok(Changetype::Normal)
    } else if str_matches_ci(ct, "delete", "DELETE") || str_matches_ci(ct, "d", "D") {
        Ok(Changetype::Delete)
    } else if str_matches_ci(ct, "remove", "REMOVE") || str_matches_ci(ct, "r", "R") {
        Ok(Changetype::Remove)
    } else if str_matches_ci(ct, "modify", "MODIFY") || str_matches_ci(ct, "m", "M") {
        Ok(Changetype::Modify)
    } else if str_matches_ci(ct, "unchanged", "UNCHANGED") || str_matches_ci(ct, "u", "U") {
        Ok(Changetype::Unchanged)
    } else if str_matches_ci(ct, "create", "CREATE") || str_matches_ci(ct, "c", "C") {
        Ok(Changetype::Create)
    } else {
        Err(Error::ValueError)
    }
}

/// The full-word spelling of a changetype, as written on output.
pub open spec fn spec_changetype_name(c: Changetype) -> Seq<char> {
    match c {
        Changetype::Normal => "normal"@,
        Changetype::Delete => "delete"@,
        Changetype::Remove => "remove"@,
        Changetype::Modify => "modify"@,
        Changetype::Unchanged => "unchanged"@,
        Changetype::Create => "create"@,
    }
}

pub fn changetype_str(c: &Changetype) -> (r: String)
    ensures
        r@ == spec_changetype_name(*c),
{
    match c {
        Changetype::Normal => String::from_str("normal"),
        Changetype::Delete => String::from_str("delete"),
        Changetype::Remove => String::from_str("remove"),
        Changetype::Modify => String::from_str("modify"),
        Changetype::Unchanged => String::from_str("unchanged"),
        Changetype::Create => String::from_str("create"),
    }
}

/// The member-type denoted by `s`: full word or single-letter alias, any case.
pub open spec fn spec_elementtype_from(s: Seq<char>) -> Option<ElementType> {
    if matches_ci(s, "node"@, "NODE"@) || matches_ci(s, "n"@, "N"@) {
        Some(ElementType::Node)
    } else if matches_ci(s, "way"@, "WAY"@) || matches_ci(s, "w"@, "W"@) {
        Some(ElementType::Way)
    } else if matches_ci(s, "relation"@, "RELATION"@) || matches_ci(s, "r"@, "R"@) {
        Some(ElementType::Relation)
    } else {
        None
    }
}

pub fn elementtype_from_str(et: &str) -> (r: Result<ElementType, Error>)
    ensures
        match r {
            Ok(t) => spec_elementtype_from(et@) == Some(t),
            Err(e) => spec_elementtype_from(et@) is None && e == Error::ValueError,
        },
{
    if str_matches_ci(et, "node", "NODE") || str_matches_ci(et, "n", "N") {
        Ok(ElementType::Node)
    } else if str_matches_ci(et, "way", "WAY") || str_matches_ci(et, "w", "W") {
        Ok(ElementType::Way)
    } else if str_matches_ci(et, "relation", "RELATION") || str_matches_ci(et, "r", "R") {
        Ok(ElementType::Relation)
    } else {
        Err(Error::ValueError)
    }
}

/// The spelling of a member type on output; the reserved fallback prints as
/// a placeholder.
pub open spec fn spec_elementtype_name(t: ElementType) -> Seq<char> {
    match t {
        ElementType::Node => "node"@,
        ElementType::Way => "way"@,
        ElementType::Relation => "relation"@,
        ElementType::Other => "???"@,
    }
}

pub fn mem_role_str(t: &ElementType) -> (r: String)
    ensures
        r@ == spec_elementtype_name(*t),
{
    match t {
        ElementType::Node => String::from_str("node"),
        ElementType::Way => String::from_str("way"),
        ElementType::Relation => String::from_str("relation"),
        ElementType::Other => String::from_str("???"),
    }
}

/// The member-type for a numeric code from a packed member list. Codes 0, 1
/// and 2 are the three record kinds; every other code maps to the reserved
/// fallback rather than raising an error.
pub open spec fn spec_elementtype_from_int(t: int) -> ElementType {
    if t == 0 {
        ElementType::Node
    } else if t == 1 {
        ElementType::Way
    } else if t == 2 {
        ElementType::Relation
    } else {
        ElementType::Other
    }
}

pub fn elementtype_from_int(t: u64) -> (r: ElementType)
    ensures
        r == spec_elementtype_from_int(t as int),
{
    if t == 0 {
        ElementType::Node
    } else if t == 1 {
        ElementType::Way
    } else if t == 2 {
        ElementType::Relation
    } else {
        ElementType::Other
    }
}

/// An ordered key/value pair of a record's attribute list.
#[derive(Clone, Debug)]
pub struct Tag {
    pub key: String,
    pub val: String,
}

impl Tag {
    pub fn new(key: String, val: String) -> (r: Tag)
        ensures
            r.key == key,
            r.val == val,
    {
        Tag { key, val }
    }
}

/// Authorship metadata shared by the three record kinds.
#[derive(Clone, Debug)]
pub struct Info {
    pub version: i64,
    pub timestamp: i64,
    pub changeset: i64,
    pub user_id: i64,
    pub user: String,
}

/// One entry of a relation's ordered member list.
#[derive(Clone, Debug)]
pub struct Member {
    pub mem_type: ElementType,
    pub mem_ref: i64,
    pub role: String,
}

/// Convert an attribute list given as plain string pairs.
pub fn tags_from_pairs(pairs: Vec<(String, String)>) -> (r: Vec<Tag>)
    ensures
        r@.len() == pairs@.len(),
        forall|i: int|
            0 <= i < r@.len() ==> (#[trigger] r@[i]).key == pairs@[i].0 && r@[i].val == pairs@[i].1,
{
    let mut res: Vec<Tag> = Vec::new();
    let mut idx: usize = 0;
    while idx < pairs.len()
        invariant
            0 <= idx <= pairs@.len(),
            res@.len() == idx,
            forall|i: int|
                0 <= i < idx ==> (#[trigger] res@[i]).key == pairs@[i].0 && res@[i].val == pairs@[i].1,
        decreases pairs@.len() - idx,
    {
        let k = pairs[idx].0.clone();
        let v = pairs[idx].1.clone();
        res.push(Tag { key: k, val: v });
        idx = idx + 1;
    }
    res
}

/// A point record: id, metadata, attributes, fixed-point coordinates and the
/// spatial tile key it was assigned to.
#[derive(Clone, Debug)]
pub struct Node {
    pub id: i64,
    pub changetype: Changetype,
    pub info: Option<Info>,
    pub tags: Vec<Tag>,
    pub lon: i32,
    pub lat: i32,
    pub quadtree: i64,
}

/// A line record: id, metadata, attributes and the ordered ids of the point
/// records it passes through.
#[derive(Clone, Debug)]
pub struct Way {
    pub id: i64,
    pub changetype: Changetype,
    pub info: Option<Info>,
    pub tags: Vec<Tag>,
    pub refs: Vec<i64>,
    pub quadtree: i64,
}

/// A grouping record: id, metadata, attributes and an ordered list of typed
/// members.
#[derive(Clone, Debug)]
pub struct Relation {
    pub id: i64,
    pub changetype: Changetype,
    pub info: Option<Info>,
    pub tags: Vec<Tag>,
    pub members: Vec<Member>,
    pub quadtree: i64,
}

impl Node {
    /// Build a node from plain values; the changetype is given in its string
    /// encoding and rejected if unrecognised.
    pub fn new(
        id: i64,
        changetype: &str,
        version: i64,
        timestamp: i64,
        changeset: i64,
        user_id: i64,
        user: &str,
        tags: Vec<(String, String)>,
        lon: i32,
        lat: i32,
        quadtree: i64,
    ) -> (r: Result<Node, Error>)
        ensures
            match r {
                Ok(n) => {
                    &&& spec_changetype_from(changetype@) == Some(n.changetype)
                    &&& n.id == id
                    &&& n.info matches Some(inf) && inf.version == version
                        && inf.timestamp == timestamp && inf.changeset == changeset
                        && inf.user_id == user_id && inf.user@ == user@
                    &&& n.tags@.len() == tags@.len()
                    &&& forall|i: int|
                        0 <= i < tags@.len() ==> n.tags@[i].key == #[trigger] tags@[i].0
                            && n.tags@[i].val == tags@[i].1
                    &&& n.lon == lon
                    &&& n.lat == lat
                    &&& n.quadtree == quadtree
                },
                Err(e) => spec_changetype_from(changetype@) is None && e == Error::ValueError,
            },
    {
        let ct = changetype_from_str(changetype)?;
        Ok(Node {
            id,
            changetype: ct,
            info: Some(
                Info {
                    version,
                    timestamp,
                    changeset,
                    user_id,
                    user: String::from_str(user),
                },
            ),
            tags: tags_from_pairs(tags),
            lon,
            lat,
            quadtree,
        })
    }
}

impl Way {
    /// Build a line record from plain values, with its ordered reference ids.
    pub fn new(
        id: i64,
        changetype: &str,
        version: i64,
        timestamp: i64,
        changeset: i64,
        user_id: i64,
        user: &str,
        tags: Vec<(String, String)>,
        refs: Vec<i64>,
        quadtree: i64,
    ) -> (r: Result<Way, Error>)
        ensures
            match r {
                Ok(w) => {
                    &&& spec_changetype_from(changetype@) == Some(w.changetype)
                    &&& w.id == id
                    &&& w.info matches Some(inf) && inf.version == version
                        && inf.timestamp == timestamp && inf.changeset == changeset
                        && inf.user_id == user_id && inf.user@ == user@
                    &&& w.tags@.len() == tags@.len()
                    &&& forall|i: int|
                        0 <= i < tags@.len() ==> w.tags@[i].key == #[trigger] tags@[i].0
                            && w.tags@[i].val == tags@[i].1
                    &&& w.refs@ == refs@
                    &&& w.quadtree == quadtree
                },
                Err(e) => spec_changetype_from(changetype@) is None && e == Error::ValueError,
            },
    {
        let ct = changetype_from_str(changetype)?;
        Ok(Way {
            id,
            changetype: ct,
            info: Some(
                Info {
                    version,
                    timestamp,
                    changeset,
                    user_id,
                    user: String::from_str(user),
                },
            ),
            tags: tags_from_pairs(tags),
            refs,
            quadtree,
        })
    }
}

impl Relation {
    /// Build a grouping record from plain values. Each member is given as a
    /// (type string, id, role) triple; an unrecognised type string is
    /// rejected.
    pub fn new(
        id: i64,
        changetype: &str,
        version: i64,
        timestamp: i64,
        changeset: i64,
        user_id: i64,
        user: &str,
        tags: Vec<(String, String)>,
        mems: Vec<(String, i64, String)>,
        quadtree: i64,
    ) -> (r: Result<Relation, Error>)
        ensures
            match r {
                Ok(rl) => {
                    &&& spec_changetype_from(changetype@) == Some(rl.changetype)
                    &&& rl.id == id
                    &&& rl.info matches Some(inf) && inf.version == version
                        && inf.timestamp == timestamp && inf.changeset == changeset
                        && inf.user_id == user_id && inf.user@ == user@
                    &&& rl.tags@.len() == tags@.len()
                    &&& forall|i: int|
                        0 <= i < tags@.len() ==> rl.tags@[i].key == #[trigger] tags@[i].0
                            && rl.tags@[i].val == tags@[i].1
                    &&& rl.members@.len() == mems@.len()
                    &&& forall|i: int|
                        0 <= i < mems@.len() ==> {
                            &&& spec_elementtype_from((#[trigger] mems@[i]).0@)
                                == Some(rl.members@[i].mem_type)
                            &&& rl.members@[i].mem_ref == mems@[i].1
                            &&& rl.members@[i].role == mems@[i].2
                        }
                    &&& rl.quadtree == quadtree
                },
                Err(e) => {
                    &&& spec_changetype_from(changetype@) is None || (exists|i: int|
                        0 <= i < mems@.len() && spec_elementtype_from(
                            (#[trigger] mems@[i]).0@,
                        ) is None)
                    &&& e == Error::ValueError
                },
            },
    {
        let ct = changetype_from_str(changetype)?;
        let mut members: Vec<Member> = Vec::new();
        let mut idx: usize = 0;
        while idx < mems.len()
            invariant
                0 <= idx <= mems@.len(),
                members@.len() == idx,
                forall|i: int|
                    0 <= i < idx ==> {
                        &&& spec_elementtype_from((#[trigger] mems@[i]).0@)
                            == Some(members@[i].mem_type)
                        &&& members@[i].mem_ref == mems@[i].1
                        &&& members@[i].role == mems@[i].2
                    },
            decreases mems@.len() - idx,
        {
            let a = mems[idx].0.clone();
            let b = mems[idx].1;
            let c = mems[idx].2.clone();
            let et = match elementtype_from_str(a.as_str()) {
                Ok(t) => t,
                Err(e) => {
                    proof {
                        assert(spec_elementtype_from((mems@[idx as int]).0@) is None);
                    }
                    return Err(e);
                },
            };
            members.push(Member { mem_type: et, mem_ref: b, role: c });
            idx = idx + 1;
        }
        Ok(Relation {
            id,
            changetype: ct,
            info: Some(
                Info {
                    version,
                    timestamp,
                    changeset,
                    user_id,
                    user: String::from_str(user),
                },
            ),
            tags: tags_from_pairs(tags),
            members,
            quadtree,
        })
    }
}

} // verus!
