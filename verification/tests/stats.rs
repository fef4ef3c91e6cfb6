use qtextract::bbox::Bbox;
use qtextract::block::PrimitiveBlock;
use qtextract::count::{Count, CountChange};
use qtextract::elements::{Changetype, Info, Member, Node, Relation, Way};
use qtextract::progress::ProgressGate;
use qtextract::tileindex::TileLocationIndex;

fn info(ts: i64) -> Option<Info> {
    Some(Info {
        version: 1,
        timestamp: ts,
        changeset: 0,
        user_id: 0,
        user: String::new(),
    })
}

/// Counting a block yields exact totals and extremes for every kind.
#[test]
fn count_block_statistics() {
    let bl = PrimitiveBlock {
        index: 0,
        location: 0,
        quadtree: 0,
        start_date: 0,
        end_date: 0,
        nodes: vec![
            Node { id: 4, changetype: Changetype::Normal, info: info(100), tags: Vec::new(), lon: -30, lat: 7, quadtree: 0 },
            Node { id: 9, changetype: Changetype::Normal, info: info(50), tags: Vec::new(), lon: 12, lat: -2, quadtree: 0 },
        ],
        ways: vec![Way {
            id: 70,
            changetype: Changetype::Normal,
            info: info(80),
            tags: Vec::new(),
            refs: vec![9, 4, 30],
            quadtree: 0,
        }],
        relations: vec![
            Relation { id: 5, changetype: Changetype::Normal, info: info(60), tags: Vec::new(), members: Vec::new(), quadtree: 0 },
            Relation {
                id: 6,
                changetype: Changetype::Normal,
                info: info(61),
                tags: Vec::new(),
                members: vec![Member { mem_type: qtextract::elements::ElementType::Way, mem_ref: 70, role: String::new() }],
                quadtree: 0,
            },
        ],
    };
    let mut c = Count::new();
    c.add_primitive(&bl);
    assert_eq!(c.num_blocks, 1);
    assert_eq!(c.node.num, 2);
    assert_eq!((c.node.min_id, c.node.max_id), (4, 9));
    assert_eq!((c.node.min_ts, c.node.max_ts), (50, 100));
    assert_eq!((c.node.min_lon, c.node.max_lon), (-30, 12));
    assert_eq!((c.node.min_lat, c.node.max_lat), (-2, 7));
    assert_eq!(c.way.num, 1);
    assert_eq!(c.way.num_refs, 3);
    assert_eq!(c.way.max_refs_len, 3);
    assert_eq!((c.way.min_ref, c.way.max_ref), (4, 30));
    assert_eq!(c.relation.num, 2);
    assert_eq!(c.relation.num_mems, 1);
    assert_eq!(c.relation.max_mems_len, 1);
    assert_eq!(c.relation.num_empties, 1);
}

/// The change-aware counter groups each record kind's statistics by
/// changetype; a changetype never seen has no summary.
#[test]
fn count_change_groups_by_changetype() {
    let bl = PrimitiveBlock {
        index: 0,
        location: 0,
        quadtree: 0,
        start_date: 0,
        end_date: 0,
        nodes: vec![
            Node { id: 1, changetype: Changetype::Create, info: info(10), tags: Vec::new(), lon: 5, lat: 5, quadtree: 0 },
            Node { id: 2, changetype: Changetype::Delete, info: info(20), tags: Vec::new(), lon: 6, lat: 6, quadtree: 0 },
            Node { id: 3, changetype: Changetype::Create, info: info(30), tags: Vec::new(), lon: 7, lat: 7, quadtree: 0 },
        ],
        ways: vec![
            Way { id: 40, changetype: Changetype::Modify, info: info(40), tags: Vec::new(), refs: vec![1, 3], quadtree: 0 },
            Way { id: 41, changetype: Changetype::Modify, info: info(41), tags: Vec::new(), refs: vec![2], quadtree: 0 },
        ],
        relations: vec![Relation {
            id: 50,
            changetype: Changetype::Normal,
            info: info(50),
            tags: Vec::new(),
            members: Vec::new(),
            quadtree: 0,
        }],
    };
    let mut cc = CountChange::new();
    cc.add_primitive(&bl);
    assert_eq!(cc.num_blocks(), 1);
    let created = cc.get_node(Changetype::Create).unwrap();
    assert_eq!(created.num, 2);
    assert_eq!((created.min_id, created.max_id), (1, 3));
    assert_eq!((created.min_ts, created.max_ts), (10, 30));
    let deleted = cc.get_node(Changetype::Delete).unwrap();
    assert_eq!(deleted.num, 1);
    assert!(cc.get_node(Changetype::Modify).is_none());
    let modified_ways = cc.get_way(Changetype::Modify).unwrap();
    assert_eq!(modified_ways.num, 2);
    assert_eq!(modified_ways.num_refs, 3);
    assert_eq!((modified_ways.min_ref, modified_ways.max_ref), (1, 3));
    assert!(cc.get_way(Changetype::Create).is_none());
    let normal_rels = cc.get_relation(Changetype::Normal).unwrap();
    assert_eq!(normal_rels.num, 1);
    assert_eq!(normal_rels.num_empties, 1);
    assert!(cc.get_relation(Changetype::Delete).is_none());
}

/// Counting a partition of the stream in two summaries and merging them
/// gives exactly the whole stream's statistics, extremes included.
#[test]
fn count_partition_merges_to_whole() {
    let part1 = PrimitiveBlock {
        index: 0,
        location: 0,
        quadtree: 0,
        start_date: 0,
        end_date: 0,
        nodes: vec![
            Node { id: 4, changetype: Changetype::Normal, info: info(100), tags: Vec::new(), lon: -30, lat: 7, quadtree: 0 },
        ],
        ways: vec![Way { id: 70, changetype: Changetype::Normal, info: info(80), tags: Vec::new(), refs: vec![9, 4], quadtree: 0 }],
        relations: Vec::new(),
    };
    let part2 = PrimitiveBlock {
        index: 1,
        location: 0,
        quadtree: 0,
        start_date: 0,
        end_date: 0,
        nodes: vec![
            Node { id: 9, changetype: Changetype::Normal, info: info(50), tags: Vec::new(), lon: 12, lat: -2, quadtree: 0 },
        ],
        ways: vec![Way { id: 71, changetype: Changetype::Normal, info: info(81), tags: Vec::new(), refs: vec![30], quadtree: 0 }],
        relations: vec![Relation { id: 5, changetype: Changetype::Normal, info: info(60), tags: Vec::new(), members: Vec::new(), quadtree: 0 }],
    };

    let mut whole = Count::new();
    whole.add_primitive(&part1);
    whole.add_primitive(&part2);

    let mut a = Count::new();
    a.add_primitive(&part1);
    let mut b = Count::new();
    b.add_primitive(&part2);
    a.merge(&b);

    assert_eq!(a, whole);
    assert_eq!((a.node.min_id, a.node.max_id), (4, 9));
    assert_eq!((a.way.min_ref, a.way.max_ref), (4, 30));
}

/// The tile index files each located block under its tile, the base file's
/// entries before the change files', oldest to newest.
#[test]
fn tile_index_layers_in_order() {
    let base = vec![(5i64, 100u64), (7, 200)];
    let change = vec![(5i64, 300u64)];
    let idx = TileLocationIndex::build(vec![base, change]);
    assert_eq!(idx.num_tiles(), 2);
    assert_eq!(idx.lookup(5).unwrap(), vec![(0, 100), (1, 300)]);
    assert_eq!(idx.lookup(7).unwrap(), vec![(0, 200)]);
    assert!(idx.lookup(9).is_none());
}

/// The positional accessor counts from the end on a negative position and
/// reports an index error out of range.
#[test]
fn tile_index_positions() {
    let idx = TileLocationIndex::build(vec![vec![(5i64, 100u64), (7, 200)]]);
    let (t0, l0) = idx.index_at(0).unwrap();
    assert_eq!((t0, l0), (5, vec![(0, 100)]));
    let (t1, _) = idx.index_at(-1).unwrap();
    assert_eq!(t1, 7);
    assert!(idx.index_at(2).is_err());
    assert!(idx.index_at(-3).is_err());
}

/// The whole-world box contains every valid coordinate and is detected by
/// the fast-path test; an ordinary box is not.
#[test]
fn planet_box() {
    let planet = Bbox::planet();
    assert!(planet.is_planet());
    assert!(planet.contains_point(1799999999, -899999999));
    let small = Bbox::new(0, 0, 1000, 1000);
    assert!(!small.is_planet());
    assert!(small.contains_point(0, 1000));
    assert!(!small.contains_point(-1, 0));
    assert!(planet.overlaps(&small));
    let disjoint = Bbox::new(2000, 2000, 3000, 3000);
    assert!(!small.overlaps(&disjoint));
}

/// The progress gate forwards a report only after a full interval has
/// passed, remembers the latest figure either way, and flushes it on
/// finish.
#[test]
fn progress_gate_rate_limits() {
    let mut g = ProgressGate::new(2000, 0);
    assert!(!g.note_bytes(1000, 10));
    assert!(!g.note_bytes(2000, 20));
    assert!(g.note_bytes(2500, 30));
    assert!(!g.note_bytes(3000, 40));
    assert!(g.note_bytes(5000, 50));
    assert_eq!(g.finish(), 50);
}
