use qtextract::block::{Element, PrimitiveBlock};
use qtextract::elements::{
    changetype_from_str, changetype_str, elementtype_from_int, elementtype_from_str, mem_role_str,
    Changetype, ElementType, Node, Relation, Way,
};
use qtextract::error::Error;

/// The changetype string encoding accepts full words and single-letter
/// aliases in any case; the empty string is the normal changetype; anything
/// else is a value error.
#[test]
fn changetype_parsing() {
    assert_eq!(changetype_from_str(""), Ok(Changetype::Normal));
    assert_eq!(changetype_from_str("normal"), Ok(Changetype::Normal));
    assert_eq!(changetype_from_str("N"), Ok(Changetype::Normal));
    assert_eq!(changetype_from_str("Delete"), Ok(Changetype::Delete));
    assert_eq!(changetype_from_str("d"), Ok(Changetype::Delete));
    assert_eq!(changetype_from_str("REMOVE"), Ok(Changetype::Remove));
    assert_eq!(changetype_from_str("r"), Ok(Changetype::Remove));
    assert_eq!(changetype_from_str("modify"), Ok(Changetype::Modify));
    assert_eq!(changetype_from_str("m"), Ok(Changetype::Modify));
    assert_eq!(changetype_from_str("Unchanged"), Ok(Changetype::Unchanged));
    assert_eq!(changetype_from_str("u"), Ok(Changetype::Unchanged));
    assert_eq!(changetype_from_str("create"), Ok(Changetype::Create));
    assert_eq!(changetype_from_str("C"), Ok(Changetype::Create));
    assert_eq!(changetype_from_str("made-up"), Err(Error::ValueError));
    assert_eq!(changetype_from_str("nn"), Err(Error::ValueError));
}

/// Changetypes print as the full lowercase words.
#[test]
fn changetype_printing() {
    assert_eq!(changetype_str(&Changetype::Normal), "normal");
    assert_eq!(changetype_str(&Changetype::Delete), "delete");
    assert_eq!(changetype_str(&Changetype::Remove), "remove");
    assert_eq!(changetype_str(&Changetype::Modify), "modify");
    assert_eq!(changetype_str(&Changetype::Unchanged), "unchanged");
    assert_eq!(changetype_str(&Changetype::Create), "create");
}

/// Parsing and printing a changetype round-trips through the full word.
#[test]
fn changetype_round_trip() {
    for ct in [
        Changetype::Normal,
        Changetype::Delete,
        Changetype::Remove,
        Changetype::Modify,
        Changetype::Unchanged,
        Changetype::Create,
    ] {
        assert_eq!(changetype_from_str(&changetype_str(&ct)), Ok(ct));
    }
}

/// Member types parse from words and aliases; numeric codes 0, 1, 2 are
/// the three kinds and any other code maps to the reserved fallback, which
/// prints as the placeholder.
#[test]
fn elementtype_parsing() {
    assert_eq!(elementtype_from_str("node"), Ok(ElementType::Node));
    assert_eq!(elementtype_from_str("W"), Ok(ElementType::Way));
    assert_eq!(elementtype_from_str("Relation"), Ok(ElementType::Relation));
    assert_eq!(elementtype_from_str("polygon"), Err(Error::ValueError));
    assert_eq!(elementtype_from_int(0), ElementType::Node);
    assert_eq!(elementtype_from_int(1), ElementType::Way);
    assert_eq!(elementtype_from_int(2), ElementType::Relation);
    assert_eq!(elementtype_from_int(99), ElementType::Other);
    assert_eq!(mem_role_str(&ElementType::Other), "???");
    assert_eq!(mem_role_str(&ElementType::Node), "node");
}

/// Record constructors carry every plain field over and reject an unknown
/// changetype.
#[test]
fn constructors() {
    let n = Node::new(
        7,
        "c",
        2,
        1000,
        55,
        9,
        "someone",
        vec![("highway".to_string(), "path".to_string())],
        100,
        200,
        42,
    )
    .unwrap();
    assert_eq!(n.id, 7);
    assert_eq!(n.changetype, Changetype::Create);
    let inf = n.info.as_ref().unwrap();
    assert_eq!(inf.version, 2);
    assert_eq!(inf.timestamp, 1000);
    assert_eq!(inf.changeset, 55);
    assert_eq!(inf.user_id, 9);
    assert_eq!(inf.user, "someone");
    assert_eq!(n.tags.len(), 1);
    assert_eq!(n.tags[0].key, "highway");
    assert_eq!(n.tags[0].val, "path");
    assert_eq!((n.lon, n.lat, n.quadtree), (100, 200, 42));

    let w = Way::new(8, "", 1, 0, 0, 0, "", Vec::new(), vec![7, 9], 0).unwrap();
    assert_eq!(w.refs, vec![7, 9]);
    assert_eq!(w.changetype, Changetype::Normal);

    let r = Relation::new(
        9,
        "m",
        1,
        0,
        0,
        0,
        "",
        Vec::new(),
        vec![("way".to_string(), 8, "outer".to_string())],
        0,
    )
    .unwrap();
    assert_eq!(r.members.len(), 1);
    assert_eq!(r.members[0].mem_type, ElementType::Way);
    assert_eq!(r.members[0].mem_ref, 8);
    assert_eq!(r.members[0].role, "outer");

    assert!(Node::new(1, "zz", 0, 0, 0, 0, "", Vec::new(), 0, 0, 0).is_err());
    assert!(Relation::new(
        1,
        "",
        0,
        0,
        0,
        0,
        "",
        Vec::new(),
        vec![("area".to_string(), 1, String::new())],
        0
    )
    .is_err());
}

fn tiny_node(id: i64) -> Node {
    Node {
        id,
        changetype: Changetype::Normal,
        info: None,
        tags: Vec::new(),
        lon: 0,
        lat: 0,
        quadtree: 0,
    }
}

/// Building a block from a mixed record list files each record under its
/// kind, keeping the input order within each kind.
#[test]
fn from_elements_partitions() {
    let w = Way {
        id: 20,
        changetype: Changetype::Normal,
        info: None,
        tags: Vec::new(),
        refs: vec![1],
        quadtree: 0,
    };
    let r = Relation {
        id: 30,
        changetype: Changetype::Normal,
        info: None,
        tags: Vec::new(),
        members: Vec::new(),
        quadtree: 0,
    };
    let bl = PrimitiveBlock::from_elements(
        4,
        99,
        17,
        100,
        200,
        vec![
            Element::Node(tiny_node(1)),
            Element::Way(w),
            Element::Node(tiny_node(2)),
            Element::Relation(r),
        ],
    );
    assert_eq!(bl.index, 4);
    assert_eq!(bl.location, 99);
    assert_eq!(bl.quadtree, 17);
    assert_eq!((bl.start_date, bl.end_date), (100, 200));
    assert_eq!(bl.num_nodes(), 2);
    assert_eq!(bl.nodes[0].id, 1);
    assert_eq!(bl.nodes[1].id, 2);
    assert_eq!(bl.num_ways(), 1);
    assert_eq!(bl.num_relations(), 1);
}

/// Record accessors count from the end on a negative position and report
/// an index error out of range.
#[test]
fn accessors_wrap_negative_positions() {
    let bl = PrimitiveBlock {
        index: 0,
        location: 0,
        quadtree: 0,
        start_date: 0,
        end_date: 0,
        nodes: vec![tiny_node(1), tiny_node(2), tiny_node(3)],
        ways: Vec::new(),
        relations: Vec::new(),
    };
    assert_eq!(bl.node_at(0).unwrap().id, 1);
    assert_eq!(bl.node_at(2).unwrap().id, 3);
    assert_eq!(bl.node_at(-1).unwrap().id, 3);
    assert_eq!(bl.node_at(-3).unwrap().id, 1);
    assert_eq!(bl.node_at(3).unwrap_err(), Error::IndexError);
    assert_eq!(bl.node_at(-4).unwrap_err(), Error::IndexError);
    assert_eq!(bl.way_at(0).unwrap_err(), Error::IndexError);
    assert_eq!(bl.relation_at(-1).unwrap_err(), Error::IndexError);
}

/// Error kinds describe themselves.
#[test]
fn error_text() {
    assert_eq!(Error::ValueError.text(), "value error");
    assert_eq!(Error::IndexError.text(), "index error");
    assert_eq!(Error::TypeError.text(), "type error");
}
