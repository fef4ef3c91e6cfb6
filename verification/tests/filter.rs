use qtextract::block::PrimitiveBlock;
use qtextract::elements::{ElementType, Member, Node, Relation, Way};
use qtextract::idset::{IdSet, IdSetSet};

fn plain_node(id: i64, lon: i32, lat: i32) -> Node {
    Node {
        id,
        changetype: qtextract::elements::Changetype::Normal,
        info: None,
        tags: Vec::new(),
        lon,
        lat,
        quadtree: 0,
    }
}

fn plain_way(id: i64, refs: Vec<i64>) -> Way {
    Way {
        id,
        changetype: qtextract::elements::Changetype::Normal,
        info: None,
        tags: Vec::new(),
        refs,
        quadtree: 0,
    }
}

fn plain_relation(id: i64, members: Vec<(ElementType, i64)>) -> Relation {
    Relation {
        id,
        changetype: qtextract::elements::Changetype::Normal,
        info: None,
        tags: Vec::new(),
        members: members
            .into_iter()
            .map(|(t, r)| Member {
                mem_type: t,
                mem_ref: r,
                role: String::new(),
            })
            .collect(),
        quadtree: 0,
    }
}

fn block_of(nodes: Vec<Node>, ways: Vec<Way>, relations: Vec<Relation>) -> PrimitiveBlock {
    PrimitiveBlock {
        index: 0,
        location: 0,
        quadtree: 0,
        start_date: 0,
        end_date: 0,
        nodes,
        ways,
        relations,
    }
}

/// The concrete scenario: node A inside the box is selected, node B outside
/// is not; the way referencing both is selected and B becomes a boundary
/// id; a relation referencing the way is included; a relation referencing
/// only a relation processed after it is not (single-pass behaviour).
#[test]
fn box_scenario_single_pass() {
    let a = plain_node(1, 500, 500);
    let b = plain_node(2, 2000, 2000);
    let w = plain_way(10, vec![1, 2]);
    // R2 (id 21) references only relation R (id 20) and is processed first.
    let r2 = plain_relation(21, vec![(ElementType::Relation, 20)]);
    let r = plain_relation(20, vec![(ElementType::Way, 10)]);
    let bl = block_of(vec![a, b], vec![w], vec![r2, r]);

    let mut ids = IdSetSet::new();
    ids.add_block_box((0, 0, 1000, 1000), &bl);

    // nodes = {A}
    assert!(ids.contains(ElementType::Node, 1));
    assert!(!ids.is_exnode(1));
    // boundary = {B}: retained only for geometric completeness
    assert!(ids.is_exnode(2));
    assert!(ids.contains(ElementType::Node, 2));
    // ways = {W}
    assert!(ids.contains(ElementType::Way, 10));
    // R included, R2 not: the pass is not a fixed-point iteration
    assert!(ids.contains(ElementType::Relation, 20));
    assert!(!ids.contains(ElementType::Relation, 21));
}

/// With the iteration order reversed, a relation whose member relation was
/// inserted earlier in the same pass is included.
#[test]
fn relation_after_member_is_included() {
    let a = plain_node(1, 500, 500);
    let w = plain_way(10, vec![1]);
    let r = plain_relation(20, vec![(ElementType::Way, 10)]);
    let r2 = plain_relation(21, vec![(ElementType::Relation, 20)]);
    let bl = block_of(vec![a], vec![w], vec![r, r2]);

    let mut ids = IdSetSet::new();
    ids.add_block_box((0, 0, 1000, 1000), &bl);
    assert!(ids.contains(ElementType::Relation, 20));
    assert!(ids.contains(ElementType::Relation, 21));
}

/// A node on the box edge is inside; just past the edge is outside.
#[test]
fn box_edges_inclusive() {
    let edge = plain_node(1, 1000, 0);
    let outside = plain_node(2, 1001, 0);
    let bl = block_of(vec![edge, outside], Vec::new(), Vec::new());
    let mut ids = IdSetSet::new();
    ids.add_block_box((0, 0, 1000, 1000), &bl);
    assert!(ids.contains(ElementType::Node, 1));
    assert!(!ids.contains(ElementType::Node, 2));
}

/// A way with no reference inside the box is not selected and contributes
/// no boundary ids.
#[test]
fn unselected_way_adds_nothing() {
    let a = plain_node(1, 5000, 5000);
    let w = plain_way(10, vec![1]);
    let bl = block_of(vec![a], vec![w], Vec::new());
    let mut ids = IdSetSet::new();
    ids.add_block_box((0, 0, 1000, 1000), &bl);
    assert!(!ids.contains(ElementType::Node, 1));
    assert!(!ids.contains(ElementType::Way, 10));
    assert!(!ids.is_exnode(1));
}

/// The bulk variant inserts every id unconditionally and never fills the
/// boundary set.
#[test]
fn bulk_variant_inserts_all() {
    let bl = block_of(
        vec![plain_node(1, 9000, 9000)],
        vec![plain_way(10, vec![99])],
        vec![plain_relation(20, vec![(ElementType::Node, 1)])],
    );
    let mut ids = IdSetSet::new();
    ids.add_block_full(&bl);
    assert!(ids.contains(ElementType::Node, 1));
    assert!(ids.contains(ElementType::Way, 10));
    assert!(ids.contains(ElementType::Relation, 20));
    assert!(!ids.is_exnode(99));
}

/// Manual insertion accepts the full words and single-letter aliases in any
/// case, and rejects an unknown kind with a value error.
#[test]
fn insert_parses_kinds() {
    let mut ids = IdSetSet::new();
    ids.insert("n", 1).unwrap();
    ids.insert("Way", 2).unwrap();
    ids.insert("RELATION", 3).unwrap();
    assert!(ids.contains(ElementType::Node, 1));
    assert!(ids.contains(ElementType::Way, 2));
    assert!(ids.contains(ElementType::Relation, 3));
    assert_eq!(ids.insert("polygon", 4), Err(qtextract::error::Error::ValueError));
}

/// The reserved fallback member type never satisfies the filter.
#[test]
fn fallback_member_type_never_matches() {
    let a = plain_node(1, 0, 0);
    let r = plain_relation(20, vec![(ElementType::Other, 1)]);
    let bl = block_of(vec![a], Vec::new(), vec![r]);
    let mut ids = IdSetSet::new();
    ids.add_block_box((0, 0, 1000, 1000), &bl);
    assert!(ids.contains(ElementType::Node, 1));
    assert!(!ids.contains(ElementType::Relation, 20));
}

/// The stream-level scan runs three passes over the whole stream: a way in
/// an early block whose reference is a node of a later block is selected,
/// and that node, being selected by the completed node pass, never enters
/// the boundary set.
#[test]
fn stream_scan_selects_across_blocks() {
    // the way and its relation come before the nodes they depend on
    let early = block_of(
        Vec::new(),
        vec![plain_way(10, vec![1, 2])],
        vec![plain_relation(20, vec![(ElementType::Way, 10)])],
    );
    let late = block_of(vec![plain_node(1, 500, 500), plain_node(2, 2000, 2000)], Vec::new(), Vec::new());

    let mut ids = IdSetSet::new();
    ids.add_blocks_box((0, 0, 1000, 1000), &vec![early, late]);

    assert!(ids.set_contains(ElementType::Node, 1));
    assert!(!ids.is_exnode(1));
    assert!(ids.is_exnode(2));
    assert!(!ids.set_contains(ElementType::Node, 2));
    assert!(ids.contains(ElementType::Way, 10));
    assert!(ids.contains(ElementType::Relation, 20));
}

/// The relation pass of the stream-level scan is still a single pass in
/// stream order: a relation whose only member is a relation of a later
/// block is not included.
#[test]
fn stream_scan_relation_pass_is_single() {
    let b1 = block_of(
        vec![plain_node(1, 500, 500)],
        vec![plain_way(10, vec![1])],
        vec![plain_relation(21, vec![(ElementType::Relation, 20)])],
    );
    let b2 = block_of(Vec::new(), Vec::new(), vec![plain_relation(20, vec![(ElementType::Way, 10)])]);

    let mut ids = IdSetSet::new();
    ids.add_blocks_box((0, 0, 1000, 1000), &vec![b1, b2]);
    assert!(ids.contains(ElementType::Relation, 20));
    assert!(!ids.contains(ElementType::Relation, 21));
}

/// The boundary-style membership query consults only the named kind's own
/// set, so a boundary-only node id answers false; an unknown kind string
/// is a value error.
#[test]
fn contains_kind_is_per_set() {
    let a = plain_node(1, 500, 500);
    let b = plain_node(2, 2000, 2000);
    let w = plain_way(10, vec![1, 2]);
    let bl = block_of(vec![a, b], vec![w], Vec::new());
    let mut ids = IdSetSet::new();
    ids.add_block_box((0, 0, 1000, 1000), &bl);

    assert_eq!(ids.contains_kind("node", 1), Ok(true));
    assert_eq!(ids.contains_kind("n", 2), Ok(false));
    assert!(ids.contains(ElementType::Node, 2));
    assert_eq!(ids.contains_kind("Way", 10), Ok(true));
    assert_eq!(ids.contains_kind("relation", 10), Ok(false));
    assert_eq!(ids.contains_kind("area", 1), Err(qtextract::error::Error::ValueError));
}

/// The filter specification is validated before any work: no filter means
/// the whole world and the fast path, a four-value list is a box, and any
/// other shape is a value error.
#[test]
fn read_filter_validates() {
    let (planet_flag, planet) = qtextract::bbox::read_filter(None).unwrap();
    assert!(planet_flag);
    assert!(planet.is_planet());

    let (flag, bx) = qtextract::bbox::read_filter(Some(vec![0, 0, 1000, 1000])).unwrap();
    assert!(!flag);
    assert_eq!((bx.minlon, bx.minlat, bx.maxlon, bx.maxlat), (0, 0, 1000, 1000));

    let (wide_flag, _) = qtextract::bbox::read_filter(Some(vec![
        -1800000000,
        -900000000,
        1800000000,
        900000000,
    ]))
    .unwrap();
    assert!(wide_flag);

    assert!(qtextract::bbox::read_filter(Some(vec![1, 2, 3])).is_err());
    assert!(qtextract::bbox::read_filter(Some(vec![])).is_err());
}

/// The accept-all filter retains everything; an explicit set only what it
/// holds.
#[test]
fn idset_variants() {
    let all = IdSet::AcceptAll;
    assert!(all.contains(ElementType::Node, 12345));
    assert!(all.contains(ElementType::Relation, -7));

    let mut s = IdSetSet::new();
    s.insert("node", 5).unwrap();
    let explicit = IdSet::Explicit(s);
    assert!(explicit.contains(ElementType::Node, 5));
    assert!(!explicit.contains(ElementType::Node, 6));
    assert!(!explicit.contains(ElementType::Other, 5));
}
