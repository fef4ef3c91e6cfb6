use qtextract::elements::ElementType;
use qtextract::error::Error;
use qtextract::idset::IdSetSet;
use qtextract::merge::{apply_change_minimal, reconstruct_minimal};
use qtextract::pipeline::run_collect_minimal;
use qtextract::minimal::{
    read_delta_packed_int, read_packed_int, MinimalBlock, MinimalNode, MinimalRelation,
    MinimalWay,
};

/// Unsigned packed integers decode with exact values: one byte per small
/// number, and a two-byte continuation for three hundred.
#[test]
fn packed_int_values() {
    assert_eq!(read_packed_int(&vec![]).unwrap(), Vec::<u64>::new());
    assert_eq!(read_packed_int(&vec![1, 127]).unwrap(), vec![1, 127]);
    // 300 = 0b1010_1100 with continuation, then 0b0000_0010
    assert_eq!(read_packed_int(&vec![172, 2]).unwrap(), vec![300]);
    assert_eq!(read_packed_int(&vec![1, 172, 2, 5]).unwrap(), vec![1, 300, 5]);
}

/// A stream ending inside a number is rejected whole.
#[test]
fn truncated_varint_rejected() {
    assert_eq!(read_packed_int(&vec![128]).unwrap_err(), Error::ValueError);
    assert_eq!(read_packed_int(&vec![5, 200]).unwrap_err(), Error::ValueError);
}

/// A number too large for a machine word is rejected.
#[test]
fn oversized_varint_rejected() {
    // eleven groups of all-ones exceed sixty-four bits
    let data = vec![255, 255, 255, 255, 255, 255, 255, 255, 255, 255, 1];
    assert_eq!(read_packed_int(&data).unwrap_err(), Error::ValueError);
}

/// Delta-coded signed integers: each word zigzag-decodes to a difference
/// and the running totals are returned. Zigzag sends 20 to 10 and 5 to -3.
#[test]
fn delta_packed_values() {
    assert_eq!(read_delta_packed_int(&vec![]).unwrap(), Vec::<i64>::new());
    // differences 10, -3 give totals 10, 7
    assert_eq!(read_delta_packed_int(&vec![20, 5]).unwrap(), vec![10, 7]);
    // differences 1, 1, 1 give totals 1, 2, 3
    assert_eq!(read_delta_packed_int(&vec![2, 2, 2]).unwrap(), vec![1, 2, 3]);
    // a single negative difference
    assert_eq!(read_delta_packed_int(&vec![1]).unwrap(), vec![-1]);
}

fn mnode(id: i64, lon: i32, lat: i32) -> MinimalNode {
    MinimalNode {
        id,
        version: 1,
        timestamp: 0,
        changetype: qtextract::elements::Changetype::Normal,
        lon,
        lat,
        quadtree: 0,
    }
}

fn mway(id: i64, refs_data: Vec<u8>) -> MinimalWay {
    MinimalWay {
        id,
        version: 1,
        timestamp: 0,
        changetype: qtextract::elements::Changetype::Normal,
        refs_data,
        quadtree: 0,
    }
}

fn mrel(id: i64, refs_data: Vec<u8>, types_data: Vec<u8>) -> MinimalRelation {
    MinimalRelation {
        id,
        version: 1,
        timestamp: 0,
        changetype: qtextract::elements::Changetype::Normal,
        refs_data,
        types_data,
        quadtree: 0,
    }
}

fn mblock(
    nodes: Vec<MinimalNode>,
    ways: Vec<MinimalWay>,
    relations: Vec<MinimalRelation>,
) -> MinimalBlock {
    MinimalBlock {
        index: 0,
        location: 0,
        quadtree: 0,
        start_date: 0,
        end_date: 0,
        nodes,
        ways,
        relations,
    }
}

/// The spatial scan over a minimal block decodes the packed reference
/// lists on the fly and behaves exactly like the scan over full records:
/// the inside node is selected, the way referencing it is selected, the
/// outside reference becomes a boundary id, and the relation referencing
/// the way is included.
#[test]
fn minimal_box_scenario() {
    let a = mnode(1, 500, 500);
    let b = mnode(2, 2000, 2000);
    // way refs [1, 2]: differences 1, 1 zigzag to 2, 2
    let w = mway(10, vec![2, 2]);
    // relation member (way, 10): type code 1, ref difference 10 zigzags to 20
    let r = mrel(20, vec![20], vec![1]);
    let bl = mblock(vec![a, b], vec![w], vec![r]);

    let mut ids = IdSetSet::new();
    ids.add_minimal_block_box((0, 0, 1000, 1000), &bl).unwrap();
    assert!(ids.contains(ElementType::Node, 1));
    assert!(ids.is_exnode(2));
    assert!(ids.contains(ElementType::Way, 10));
    assert!(ids.contains(ElementType::Relation, 20));
}

/// A way whose packed reference list is malformed makes the whole scan
/// fail fast with a value error.
#[test]
fn minimal_box_decode_error_is_fatal() {
    let a = mnode(1, 500, 500);
    let w = mway(10, vec![128]);
    let bl = mblock(vec![a], vec![w], Vec::new());
    let mut ids = IdSetSet::new();
    assert_eq!(
        ids.add_minimal_block_box((0, 0, 1000, 1000), &bl),
        Err(Error::ValueError)
    );
}

/// The bulk variant over a minimal block inserts every id without reading
/// the packed lists at all.
#[test]
fn minimal_bulk_inserts_all() {
    let bl = mblock(
        vec![mnode(1, 9000, 9000)],
        vec![mway(10, vec![128])],
        vec![mrel(20, Vec::new(), Vec::new())],
    );
    let mut ids = IdSetSet::new();
    ids.add_minimal_block_full(&bl);
    assert!(ids.contains(ElementType::Node, 1));
    assert!(ids.contains(ElementType::Way, 10));
    assert!(ids.contains(ElementType::Relation, 20));
}

/// A minimal relation zips its member types and ids up to the shorter
/// list; an unknown type code maps to the reserved fallback and never
/// matches.
#[test]
fn minimal_relation_member_pairing() {
    let a = mnode(1, 0, 0);
    // member list: (unknown code 9, node 1) - the unknown code cannot match
    let r_unknown = mrel(20, vec![2], vec![9]);
    // member (node, 1) under code 0 matches
    let r_node = mrel(21, vec![2], vec![0]);
    let bl = mblock(vec![a], Vec::new(), vec![r_unknown, r_node]);
    let mut ids = IdSetSet::new();
    ids.add_minimal_block_box((0, 0, 1000, 1000), &bl).unwrap();
    assert!(!ids.contains(ElementType::Relation, 20));
    assert!(ids.contains(ElementType::Relation, 21));
}

/// The change fold over minimal blocks replaces, creates and erases by id
/// exactly as over full records.
#[test]
fn minimal_fold_and_reconstruction() {
    let base = mblock(vec![mnode(1, 10, 0), mnode(2, 20, 0)], Vec::new(), Vec::new());
    let mut diff_node = mnode(2, 222, 0);
    diff_node.changetype = qtextract::elements::Changetype::Modify;
    let mut gone = mnode(1, 0, 0);
    gone.changetype = qtextract::elements::Changetype::Delete;
    let diff = mblock(vec![gone, diff_node], Vec::new(), Vec::new());

    let out = apply_change_minimal(base, diff);
    assert_eq!(out.num_nodes(), 1);
    assert_eq!(out.nodes[0].id, 2);
    assert_eq!(out.nodes[0].lon, 222);

    let base2 = mblock(vec![mnode(1, 10, 0), mnode(2, 20, 0)], Vec::new(), Vec::new());
    let mut c = mnode(3, 30, 0);
    c.changetype = qtextract::elements::Changetype::Create;
    let change = mblock(vec![c], Vec::new(), Vec::new());
    let merged = reconstruct_minimal(vec![base2, change], &qtextract::idset::IdSet::AcceptAll, 9);
    assert_eq!(merged.index, 9);
    assert_eq!(merged.num_nodes(), 3);
    assert_eq!(merged.nodes[2].id, 3);
}

/// The minimal collect job batches and counts under its own stage name.
#[test]
fn minimal_collect_batches_and_counts() {
    let blocks: Vec<MinimalBlock> = (0..5).map(|i| MinimalBlock::new(i, 0)).collect();
    let (batches, acc) = run_collect_minimal(blocks, 2);
    assert_eq!(batches.len(), 3);
    assert_eq!(acc.get("CollectBlocksMinimalCall"), Some(5));
    assert_eq!(acc.get("CollectBlocksCall"), None);
}

/// Minimal blocks report their record counts.
#[test]
fn minimal_block_counts() {
    let bl = mblock(vec![mnode(1, 0, 0), mnode(2, 0, 0)], vec![mway(3, Vec::new())], Vec::new());
    assert_eq!(bl.num_nodes(), 2);
    assert_eq!(bl.num_ways(), 1);
    assert_eq!(bl.num_relations(), 0);
    let empty = MinimalBlock::new(5, 77);
    assert_eq!((empty.index, empty.location), (5, 77));
    assert_eq!(empty.num_nodes(), 0);
}
