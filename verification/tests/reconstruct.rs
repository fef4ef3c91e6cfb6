use qtextract::block::PrimitiveBlock;
use qtextract::elements::{Changetype, Node};
use qtextract::idset::{IdSet, IdSetSet};
use qtextract::merge::{apply_change_primitive, combine_primitive, filter_block, reconstruct};

fn node(id: i64, ct: Changetype, lon: i32) -> Node {
    Node {
        id,
        changetype: ct,
        info: None,
        tags: Vec::new(),
        lon,
        lat: 0,
        quadtree: 0,
    }
}

fn node_block(index: i64, nodes: Vec<Node>) -> PrimitiveBlock {
    PrimitiveBlock {
        index,
        location: 0,
        quadtree: 0,
        start_date: 0,
        end_date: 0,
        nodes,
        ways: Vec::new(),
        relations: Vec::new(),
    }
}

/// The reconstruction law on concrete values: folding a base snapshot with
/// a change block holding a modify for an id present in the base yields a
/// single record for that id with the changed fields, not two.
#[test]
fn modify_replaces_base_record() {
    let base = node_block(
        0,
        vec![
            node(3, Changetype::Normal, 30),
            node(5, Changetype::Normal, 50),
            node(7, Changetype::Normal, 70),
        ],
    );
    let diff = node_block(1, vec![node(5, Changetype::Modify, 555)]);
    let out = apply_change_primitive(base, diff);
    assert_eq!(out.num_nodes(), 3);
    let with_five: Vec<&Node> = out.nodes.iter().filter(|n| n.id == 5).collect();
    assert_eq!(with_five.len(), 1);
    assert_eq!(with_five[0].lon, 555);
    assert_eq!(with_five[0].changetype, Changetype::Modify);
    assert_eq!(out.nodes[0].id, 3);
    assert_eq!(out.nodes[1].id, 5);
    assert_eq!(out.nodes[2].id, 7);
}

/// A change record marked delete erases its id from the folded snapshot.
#[test]
fn delete_erases_record() {
    let base = node_block(
        0,
        vec![node(3, Changetype::Normal, 30), node(5, Changetype::Normal, 50)],
    );
    let diff = node_block(1, vec![node(3, Changetype::Delete, 0)]);
    let out = apply_change_primitive(base, diff);
    assert_eq!(out.num_nodes(), 1);
    assert_eq!(out.nodes[0].id, 5);
}

/// A change record for an id the base lacks is a creation.
#[test]
fn create_inserts_record() {
    let base = node_block(0, vec![node(5, Changetype::Normal, 50)]);
    let diff = node_block(1, vec![node(2, Changetype::Create, 20)]);
    let out = apply_change_primitive(base, diff);
    assert_eq!(out.num_nodes(), 2);
    assert_eq!(out.nodes[0].id, 2);
    assert_eq!(out.nodes[1].id, 5);
}

/// The snapshot union keeps delete-marked records as records: only change
/// semantics erase them, and on a shared id the later block wins.
#[test]
fn combine_is_union_later_wins() {
    let left = node_block(0, vec![node(1, Changetype::Normal, 10), node(2, Changetype::Normal, 20)]);
    let right = node_block(1, vec![node(2, Changetype::Normal, 222), node(9, Changetype::Delete, 90)]);
    let out = combine_primitive(left, right);
    assert_eq!(out.num_nodes(), 3);
    assert_eq!(out.nodes[0].id, 1);
    assert_eq!(out.nodes[1].id, 2);
    assert_eq!(out.nodes[1].lon, 222);
    assert_eq!(out.nodes[2].id, 9);
}

/// Reconstructing a tile folds its located blocks in chronological order.
#[test]
fn reconstruct_folds_in_order() {
    let base = node_block(0, vec![node(1, Changetype::Normal, 10), node(2, Changetype::Normal, 20)]);
    let c1 = node_block(1, vec![node(2, Changetype::Modify, 21)]);
    let c2 = node_block(2, vec![node(1, Changetype::Delete, 0), node(3, Changetype::Create, 30)]);
    let out = reconstruct(vec![base, c1, c2], &IdSet::AcceptAll, 7);
    assert_eq!(out.index, 7);
    assert_eq!(out.num_nodes(), 2);
    assert_eq!(out.nodes[0].id, 2);
    assert_eq!(out.nodes[0].lon, 21);
    assert_eq!(out.nodes[1].id, 3);
}

/// An id filter prunes records; on the ids it retains the reconstruction
/// agrees with the unfiltered run.
#[test]
fn filtered_reconstruction_agrees_on_kept_ids() {
    let base = node_block(0, vec![node(1, Changetype::Normal, 10), node(2, Changetype::Normal, 20)]);
    let c1 = node_block(1, vec![node(2, Changetype::Modify, 21)]);

    let full = reconstruct(
        vec![
            node_block(0, vec![node(1, Changetype::Normal, 10), node(2, Changetype::Normal, 20)]),
            node_block(1, vec![node(2, Changetype::Modify, 21)]),
        ],
        &IdSet::AcceptAll,
        0,
    );

    let mut keep = IdSetSet::new();
    keep.insert("node", 2).unwrap();
    let filtered = reconstruct(vec![base, c1], &IdSet::Explicit(keep), 0);

    assert_eq!(filtered.num_nodes(), 1);
    assert_eq!(filtered.nodes[0].id, 2);
    let full_two: Vec<&Node> = full.nodes.iter().filter(|n| n.id == 2).collect();
    assert_eq!(full_two[0].lon, filtered.nodes[0].lon);
}

/// Pruning a block keeps exactly the records the filter retains, in order.
#[test]
fn filter_block_prunes() {
    let bl = node_block(
        0,
        vec![node(1, Changetype::Normal, 10), node(2, Changetype::Normal, 20), node(3, Changetype::Normal, 30)],
    );
    let mut keep = IdSetSet::new();
    keep.insert("node", 1).unwrap();
    keep.insert("node", 3).unwrap();
    let out = filter_block(bl, &IdSet::Explicit(keep));
    assert_eq!(out.num_nodes(), 2);
    assert_eq!(out.nodes[0].id, 1);
    assert_eq!(out.nodes[1].id, 3);
    assert_eq!(out.num_ways(), 0);
    assert_eq!(out.num_relations(), 0);
}
