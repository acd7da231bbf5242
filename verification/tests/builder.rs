use route::dijkstra::simple_shortest_path;
use route::elements::{BuildError, Edge, TNodeType};
use route::reader::{ingest, NodeRecord, WayRecord};

fn tags(pairs: &[(&str, &str)]) -> Vec<(String, String)> {
    pairs.iter().map(|(k, v)| (k.to_string(), v.to_string())).collect()
}

fn nrec(id: i64, lat: i64, lon: i64) -> NodeRecord {
    NodeRecord { id, lat, lon, tags: Vec::new() }
}

fn wrec(id: i64, refs: Vec<i64>, legs: Vec<u64>, t: Vec<(String, String)>) -> WayRecord {
    WayRecord { id, refs, legs, tags: t }
}

#[test]
fn ingest_and_prune() {
    let nodes = vec![nrec(1, 10, 10), nrec(2, 20, 20), nrec(3, 30, 30), nrec(9, 90, 90)];
    let ways = vec![wrec(
        10,
        vec![1, 2, 3],
        vec![1000, 2000],
        tags(&[("highway", "residential")]),
    )];
    let mut g = ingest("demo".to_string(), nodes, ways).unwrap();
    assert_eq!(4, g.tnodes.len());
    assert_eq!(1, g.tways.len());

    g.clean();

    // the unreferenced node is gone; no UnUsed node remains; every survivor
    // lies on the way's chain
    assert_eq!(3, g.tnodes.len());
    assert!(g.tnodes.get(9).is_none());
    assert_eq!(TNodeType::EndNode, g.tnodes.get(1).unwrap().get_type());
    assert_eq!(TNodeType::MiddleNode, g.tnodes.get(2).unwrap().get_type());
    assert_eq!(TNodeType::EndNode, g.tnodes.get(3).unwrap().get_type());
    assert_eq!(&vec![10i64], g.tnodes.get(2).unwrap().ways());
    // coordinates and tags survive the pass
    assert_eq!(20, g.tnodes.get(2).unwrap().lat());
    assert_eq!(20, g.tnodes.get(2).unwrap().lon());
}

#[test]
fn endpoint_of_any_way_wins() {
    // node 2 is interior to way 10 but an endpoint of way 11: the
    // order-independent rule classifies it as an endpoint
    let nodes = vec![nrec(1, 0, 0), nrec(2, 0, 0), nrec(3, 0, 0), nrec(4, 0, 0)];
    let ways = vec![
        wrec(10, vec![1, 2, 3], vec![1, 1], tags(&[("highway", "residential")])),
        wrec(11, vec![2, 4], vec![1], tags(&[("highway", "residential")])),
    ];
    let mut g = ingest("demo".to_string(), nodes, ways).unwrap();
    g.clean();
    assert_eq!(TNodeType::EndNode, g.tnodes.get(2).unwrap().get_type());
    assert_eq!(&vec![10i64, 11], g.tnodes.get(2).unwrap().ways());
}

#[test]
fn admission_rule() {
    let nodes = vec![nrec(1, 0, 0), nrec(2, 0, 0)];
    let ways = vec![
        wrec(20, vec![1, 2], vec![5], tags(&[("highway", "residential")])),
        wrec(21, vec![1, 2], vec![5], tags(&[("highway", "footway")])),
        wrec(22, vec![1, 2], vec![5], tags(&[("waterway", "river")])),
        wrec(23, vec![1, 2], vec![5], tags(&[("highway", "primary"), ("access", "no")])),
        wrec(24, vec![1, 2], vec![5], tags(&[("highway", "primary"), ("access", "yes")])),
    ];
    let g = ingest("demo".to_string(), nodes, ways).unwrap();
    assert!(g.tways.get(20).is_some());
    assert!(g.tways.get(21).is_none());
    assert!(g.tways.get(22).is_none());
    assert!(g.tways.get(23).is_none());
    assert!(g.tways.get(24).is_some());
}

#[test]
fn ingest_rejects_dangling_ref() {
    let nodes = vec![nrec(1, 0, 0)];
    let ways = vec![wrec(20, vec![1, 2], vec![5], tags(&[("highway", "residential")]))];
    assert_eq!(BuildError::UnknownRef, ingest("demo".to_string(), nodes, ways).unwrap_err());
}

#[test]
fn ingest_skips_broken_unadmitted_way() {
    // a way the admission rule rejects is dropped silently even when broken
    let nodes = vec![nrec(1, 0, 0)];
    let ways = vec![wrec(20, vec![1, 2], vec![5], tags(&[("highway", "footway")]))];
    let g = ingest("demo".to_string(), nodes, ways).unwrap();
    assert_eq!(0, g.tways.len());
}

#[test]
fn build_directed_two_way() {
    // a two-way way yields exactly one forward and one reverse arc per leg;
    // residential roads run at 50 km/h: 1000 mm take 18*1000/(5*50) = 72 ms
    let nodes = vec![nrec(1, 0, 0), nrec(2, 0, 0), nrec(3, 0, 0)];
    let ways = vec![wrec(
        10,
        vec![1, 2, 3],
        vec![1000, 2000],
        tags(&[("highway", "residential")]),
    )];
    let g = ingest("demo".to_string(), nodes, ways).unwrap();
    let d = g.get_directed();
    assert_eq!(3, d.len());
    assert_eq!(
        &vec![Edge { node: 2, distance: 1000, time: 72 }],
        d.get(1).unwrap()
    );
    assert_eq!(
        &vec![
            Edge { node: 1, distance: 1000, time: 72 },
            Edge { node: 3, distance: 2000, time: 144 },
        ],
        d.get(2).unwrap()
    );
    assert_eq!(
        &vec![Edge { node: 2, distance: 2000, time: 144 }],
        d.get(3).unwrap()
    );
}

#[test]
fn build_directed_oneway() {
    let nodes = vec![nrec(1, 0, 0), nrec(2, 0, 0), nrec(3, 0, 0)];
    let ways = vec![wrec(
        10,
        vec![1, 2, 3],
        vec![1000, 2000],
        tags(&[("highway", "motorway"), ("oneway", "yes")]),
    )];
    let g = ingest("demo".to_string(), nodes, ways).unwrap();
    let d = g.get_directed();
    // motorways run at 130 km/h: 18*1000/650 = 27 ms (rounded down)
    assert_eq!(2, d.len());
    assert_eq!(
        &vec![Edge { node: 2, distance: 1000, time: 27 }],
        d.get(1).unwrap()
    );
    assert_eq!(
        &vec![Edge { node: 3, distance: 2000, time: 55 }],
        d.get(2).unwrap()
    );
    assert!(d.get(3).is_none());
}

#[test]
fn maxspeed_overrides_class() {
    let nodes = vec![nrec(1, 0, 0), nrec(2, 0, 0)];
    let ways = vec![wrec(
        10,
        vec![1, 2],
        vec![1000],
        tags(&[("highway", "residential"), ("maxspeed", "100"), ("oneway", "yes")]),
    )];
    let g = ingest("demo".to_string(), nodes, ways).unwrap();
    let d = g.get_directed();
    // 18*1000/(5*100) = 36 ms
    assert_eq!(&vec![Edge { node: 2, distance: 1000, time: 36 }], d.get(1).unwrap());
}

#[test]
fn unparseable_maxspeed_falls_back() {
    let nodes = vec![nrec(1, 0, 0), nrec(2, 0, 0)];
    let ways = vec![wrec(
        10,
        vec![1, 2],
        vec![1000],
        tags(&[("highway", "secondary"), ("maxspeed", "50 mph"), ("oneway", "yes")]),
    )];
    let g = ingest("demo".to_string(), nodes, ways).unwrap();
    let d = g.get_directed();
    // the table speed of a secondary road is 80 km/h: 18*1000/400 = 45 ms
    assert_eq!(&vec![Edge { node: 2, distance: 1000, time: 45 }], d.get(1).unwrap());
}

#[test]
fn zero_maxspeed_falls_back() {
    let nodes = vec![nrec(1, 0, 0), nrec(2, 0, 0)];
    let ways = vec![wrec(
        10,
        vec![1, 2],
        vec![1000],
        tags(&[("highway", "residential"), ("maxspeed", "0"), ("oneway", "yes")]),
    )];
    let g = ingest("demo".to_string(), nodes, ways).unwrap();
    let d = g.get_directed();
    // 0 km/h is refused; the residential table speed of 50 km/h stands
    assert_eq!(&vec![Edge { node: 2, distance: 1000, time: 72 }], d.get(1).unwrap());
}

#[test]
fn maxspeed_changes_time_route() {
    // same geometry both ways round a square; the slow way loses under the
    // time metric only
    let nodes = vec![nrec(1, 0, 0), nrec(2, 0, 0), nrec(3, 0, 0)];
    let ways = vec![
        wrec(10, vec![1, 3], vec![3000], tags(&[("highway", "residential"), ("maxspeed", "5")])),
        wrec(11, vec![1, 2], vec![2000], tags(&[("highway", "residential"), ("maxspeed", "90")])),
        wrec(12, vec![2, 3], vec![2000], tags(&[("highway", "residential"), ("maxspeed", "90")])),
    ];
    let g = ingest("demo".to_string(), nodes, ways).unwrap();
    let d = g.get_directed();
    // by distance the direct way wins; by time the detour wins
    assert_eq!(Some(3000), route::dijkstra::simple_shortest_path(&d, 1, 3));
    let by_time = route::dijkstra::shortest_path("time", &d, 1, 3).unwrap();
    assert_eq!(3, by_time.len());
    assert_eq!(2, by_time[1].1);
    assert_eq!(3, by_time.last().unwrap().1);
}

#[test]
fn build_directed_idempotent() {
    let nodes = vec![nrec(1, 0, 0), nrec(2, 0, 0), nrec(3, 0, 0), nrec(4, 0, 0)];
    let ways = vec![
        wrec(10, vec![1, 2, 3], vec![10, 20], tags(&[("highway", "primary")])),
        wrec(11, vec![3, 4], vec![30], tags(&[("highway", "trunk"), ("oneway", "yes")])),
        wrec(12, vec![4, 1], vec![40], tags(&[("highway", "residential")])),
    ];
    let g = ingest("demo".to_string(), nodes, ways).unwrap();
    let a = g.get_directed();
    let b = g.get_directed();
    assert_eq!(a.len(), b.len());
    for i in 0..a.len() {
        assert_eq!(a.key_at(i), b.key_at(i));
        assert_eq!(a.val_at(i), b.val_at(i));
    }
}

#[test]
fn end_to_end_route() {
    // a small triangle: the direct leg is longer than the detour
    let nodes = vec![nrec(1, 0, 0), nrec(2, 0, 0), nrec(3, 0, 0)];
    let ways = vec![
        wrec(10, vec![1, 3], vec![5000], tags(&[("highway", "residential")])),
        wrec(11, vec![1, 2], vec![1000], tags(&[("highway", "residential")])),
        wrec(12, vec![2, 3], vec![1000], tags(&[("highway", "residential")])),
    ];
    let mut g = ingest("demo".to_string(), nodes, ways).unwrap();
    g.clean();
    let d = g.get_directed();
    assert_eq!(Some(2000), simple_shortest_path(&d, 1, 3));
    assert_eq!(Some(2000), simple_shortest_path(&d, 3, 1));
}
