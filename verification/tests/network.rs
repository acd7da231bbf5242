use route::elements::{BuildError, TNode, TNodeType, TWay};
use route::table::Table;

fn tagv(pairs: &[(&str, &str)]) -> Vec<(String, String)> {
    pairs.iter().map(|(k, v)| (k.to_string(), v.to_string())).collect()
}

fn node_table(ids: &[i64]) -> Table<TNode> {
    let mut t = Table::new();
    for &id in ids {
        t.insert(id, TNode::new(0, 0, Vec::new()));
    }
    t
}

#[test]
fn create_new_tnode() {
    let tags = tagv(&[("highway", "trunk"), ("oneway", "yes"), ("destination", "Plaintel")]);
    let mut p: TNode = TNode::new(486155640, -28260458, tags);

    assert_eq!(486155640, p.lat());
    assert_eq!(-28260458, p.lon());
    assert_eq!(Some(&"trunk".to_string()), p.get(&"highway".to_string()));
    assert_eq!(None, p.get(&"lanes".to_string()));
    assert_eq!(TNodeType::UnUsed, p.get_type());
    assert_eq!(TNodeType::MiddleNode, p.set_type(TNodeType::MiddleNode));
}

#[test]
fn tnode_tag_last_binding_wins() {
    let tags = tagv(&[("maxspeed", "50"), ("maxspeed", "80")]);
    let p = TNode::new(0, 0, tags);
    assert_eq!(Some(&"80".to_string()), p.get(&"maxspeed".to_string()));
}

#[test]
fn tway_new_ok() {
    let nodes = node_table(&[1, 2, 3]);
    let w = TWay::new(
        vec![1, 2, 3],
        tagv(&[("highway", "trunk_link"), ("oneway", "yes")]),
        vec![100, 60],
        &nodes,
    )
    .unwrap();
    assert_eq!(3, w.refs().len());
    assert_eq!(1, w.start());
    assert_eq!(3, w.end());
    assert_eq!(160, w.len());
    assert_eq!(&vec![100u64, 60u64], w.legs());
    assert!(w.oneway());
    assert_eq!(Some(&"trunk_link".to_string()), w.get(&"highway".to_string()));
}

#[test]
fn tway_not_oneway_without_tag() {
    let nodes = node_table(&[1, 2]);
    let w = TWay::new(vec![1, 2], tagv(&[("highway", "residential")]), vec![10], &nodes).unwrap();
    assert!(!w.oneway());
    let w2 = TWay::new(
        vec![1, 2],
        tagv(&[("highway", "residential"), ("oneway", "no")]),
        vec![10],
        &nodes,
    )
    .unwrap();
    assert!(!w2.oneway());
}

#[test]
fn tway_too_few_refs() {
    let nodes = node_table(&[1, 2]);
    assert_eq!(
        BuildError::TooFewRefs,
        TWay::new(vec![1], tagv(&[]), Vec::new(), &nodes).unwrap_err()
    );
}

#[test]
fn tway_bad_leg_count() {
    let nodes = node_table(&[1, 2]);
    assert_eq!(
        BuildError::BadLegCount,
        TWay::new(vec![1, 2], tagv(&[]), vec![1, 2], &nodes).unwrap_err()
    );
}

#[test]
fn tway_unknown_ref() {
    let nodes = node_table(&[1, 2]);
    assert_eq!(
        BuildError::UnknownRef,
        TWay::new(vec![1, 9], tagv(&[]), vec![5], &nodes).unwrap_err()
    );
}

#[test]
fn tway_length_overflow() {
    let nodes = node_table(&[1, 2, 3]);
    assert_eq!(
        BuildError::LengthOverflow,
        TWay::new(vec![1, 2, 3], tagv(&[]), vec![u64::MAX, 1], &nodes).unwrap_err()
    );
}

#[test]
fn table_insert_and_get() {
    let mut t: Table<i64> = Table::new();
    t.insert(10, 100);
    t.insert(20, 200);
    t.insert(10, 150);
    assert_eq!(2, t.len());
    assert_eq!(Some(&150), t.get(10));
    assert_eq!(Some(&200), t.get(20));
    assert_eq!(None, t.get(30));
    assert_eq!(10, t.key_at(0));
    assert_eq!(20, t.key_at(1));
}
