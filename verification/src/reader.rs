use crate::elements::{clone_i64s, clone_tags, clone_u64s, tag_lookup, tag_of, BuildError, TNode, TWay};
use crate::graphe::Graph;
use crate::table::Table;
use vstd::prelude::*;

verus! {

/// A raw node record handed in by the map-data reader: identifier,
/// coordinates in 1e-7 degree units, and tags.
pub struct NodeRecord {
    pub id: i64,
    pub lat: i64,
    pub lon: i64,
    pub tags: Vec<(String, String)>,
}

/// A raw way record: identifier, ordered node references, the measured
/// length of each leg between consecutive references in millimeters, and
/// tags.
pub struct WayRecord {
    pub id: i64,
    pub refs: Vec<i64>,
    pub legs: Vec<u64>,
    pub tags: Vec<(String, String)>,
}

/// The "highway" classes that make a way routable.
pub open spec fn routable_class(hw: Option<Seq<char>>) -> bool {
    ||| hw == Some("motorway"@)
    ||| hw == Some("trunk"@)
    ||| hw == Some("primary"@)
    ||| hw == Some("secondary"@)
    ||| hw == Some("tertiary"@)
    ||| hw == Some("residential"@)
    ||| hw == Some("motorway_link"@)
    ||| hw == Some("trunk_link"@)
    ||| hw == Some("primary_link"@)
    ||| hw == Some("secondary_link"@)
    ||| hw == Some("tertiary_link"@)
}

/// The admission rule: a way enters the network iff its "highway" tag holds
/// a routable class and its "access" tag, when present, is "yes".
pub open spec fn admitted(tags: Seq<(String, String)>) -> bool {
    &&& routable_class(tag_of(tags, "highway"@))
    &&& match tag_of(tags, "access"@) {
        Some(v) => v == "yes"@,
        None => true,
    }
}

/// The last node record bound to `id`, as repeated registration would
/// resolve it.
pub open spec fn node_rec_of(rs: Seq<NodeRecord>, id: i64) -> Option<NodeRecord>
    decreases rs.len(),
{
    if rs.len() == 0 {
        None
    } else if rs.last().id == id {
        Some(rs.last())
    } else {
        node_rec_of(rs.drop_last(), id)
    }
}

/// The last admitted way record bound to `id`.
pub open spec fn way_rec_of(rs: Seq<WayRecord>, id: i64) -> Option<WayRecord>
    decreases rs.len(),
{
    if rs.len() == 0 {
        None
    } else if rs.last().id == id && admitted(rs.last().tags@) {
        Some(rs.last())
    } else {
        way_rec_of(rs.drop_last(), id)
    }
}


/// `way_check`, stated over the raw records alone: a node reference is
/// known iff some node record carries it.
pub open spec fn rec_check(r: Seq<i64>, legs: Seq<u64>, nodes: Seq<NodeRecord>) -> Option<
    BuildError,
> {
    if r.len() < 2 {
        Some(BuildError::TooFewRefs)
    } else if legs.len() + 1 != r.len() {
        Some(BuildError::BadLegCount)
    } else if exists|i: int| #![auto] 0 <= i < r.len() && node_rec_of(nodes, r[i]) is None {
        Some(BuildError::UnknownRef)
    } else if crate::elements::sum_u64(legs) > u64::MAX {
        Some(BuildError::LengthOverflow)
    } else {
        None
    }
}


/// The outcome of running the ways, in order, against the recorded nodes:
/// the refusal of the first admitted way that `rec_check` refuses, `None`
/// when every admitted way passes.
pub open spec fn build_outcome(ws: Seq<WayRecord>, nodes: Seq<NodeRecord>) -> Option<BuildError>
    decreases ws.len(),
{
    if ws.len() == 0 {
        None
    } else {
        match build_outcome(ws.drop_last(), nodes) {
            Some(e) => Some(e),
            None => {
                if admitted(ws.last().tags@) {
                    rec_check(ws.last().refs@, ws.last().legs@, nodes)
                } else {
                    None
                }
            },
        }
    }
}

/// A refusal among the first ways settles the whole outcome.
proof fn lemma_outcome_prefix(ws: Seq<WayRecord>, nodes: Seq<NodeRecord>, i: int)
    requires
        0 <= i <= ws.len(),
        build_outcome(ws.take(i), nodes) is Some,
    ensures
        build_outcome(ws, nodes) == build_outcome(ws.take(i), nodes),
    decreases ws.len() - i,
{
    if i < ws.len() {
        assert(ws.take(i + 1).drop_last() =~= ws.take(i));
        lemma_outcome_prefix(ws, nodes, i + 1);
    } else {
        assert(ws.take(i) =~= ws);
    }
}

/// Against a node table that holds exactly the recorded nodes, `way_check`
/// and `rec_check` agree.
proof fn lemma_check_agree(r: Seq<i64>, legs: Seq<u64>, t: &Table<TNode>, nodes: Seq<NodeRecord>)
    requires
        forall|id: i64| #[trigger] t.has(id) == (node_rec_of(nodes, id) is Some),
    ensures
        crate::elements::way_check(r, legs, t) == rec_check(r, legs, nodes),
{
    if exists|i: int| #![auto] 0 <= i < r.len() && !t.has(r[i]) {
        let i = choose|i: int| #![auto] 0 <= i < r.len() && !t.has(r[i]);
        assert(node_rec_of(nodes, r[i]) is None);
    }
    if exists|i: int| #![auto] 0 <= i < r.len() && node_rec_of(nodes, r[i]) is None {
        let i = choose|i: int| #![auto] 0 <= i < r.len() && node_rec_of(nodes, r[i]) is None;
        assert(!t.has(r[i]));
    }
}

/// Decide the admission rule on a tag list.
pub fn admitted_exec(tags: &Vec<(String, String)>) -> (r: bool)
    ensures
        r == admitted(tags@),
{
    let hk: String = "highway".to_owned();
    let routable: bool = match tag_lookup(tags, &hk) {
        Some(v) => {
            ||| *v == "motorway".to_owned()
            ||| *v == "trunk".to_owned()
            ||| *v == "primary".to_owned()
            ||| *v == "secondary".to_owned()
            ||| *v == "tertiary".to_owned()
            ||| *v == "residential".to_owned()
            ||| *v == "motorway_link".to_owned()
            ||| *v == "trunk_link".to_owned()
            ||| *v == "primary_link".to_owned()
            ||| *v == "secondary_link".to_owned()
            ||| *v == "tertiary_link".to_owned()
        },
        None => false,
    };
    let ak: String = "access".to_owned();
    let accessible: bool = match tag_lookup(tags, &ak) {
        Some(v) => *v == "yes".to_owned(),
        None => true,
    };
    routable && accessible
}

/// Register one raw node: a fresh `UnUsed` node is inserted under its
/// identifier, replacing any earlier node registered under it.
pub fn register_tnode(rec: &NodeRecord, tnodes: &mut Table<TNode>)
    requires
        old(tnodes).wf(),
    ensures
        final(tnodes).wf(),
        final(tnodes).has(rec.id),
        final(tnodes).val_of(rec.id).lat() == rec.lat,
        final(tnodes).val_of(rec.id).lon() == rec.lon,
        final(tnodes).val_of(rec.id).spec_tags() == rec.tags@,
        final(tnodes).val_of(rec.id).get_type() == crate::elements::TNodeType::UnUsed,
        final(tnodes).val_of(rec.id).spec_ways() =~= Seq::<i64>::empty(),
        forall|other: i64| other != rec.id ==> final(tnodes).has(other) == old(tnodes).has(other),
        forall|other: i64|
            other != rec.id && old(tnodes).has(other) ==> final(tnodes).val_of(other) == old(
                tnodes,
            ).val_of(other),
{
    let p = TNode::new(rec.lat, rec.lon, clone_tags(&rec.tags));
    tnodes.insert(rec.id, p);
}

/// Run the admission rule on one raw way and, when it is admitted, build
/// and insert the way. A rejected way is dropped silently; an admitted way
/// that `way_check` refuses is the error returned.
pub fn register_tway(rec: WayRecord, tways: &mut Table<TWay>, tnodes: &Table<TNode>) -> (r: Result<
    (),
    BuildError,
>)
    requires
        old(tways).wf(),
    ensures
        final(tways).wf(),
        match r {
            Ok(_) => {
                &&& admitted(rec.tags@) ==> {
                    &&& crate::elements::way_check(rec.refs@, rec.legs@, tnodes) is None
                    &&& final(tways).has(rec.id)
                    &&& final(tways).val_of(rec.id).spec_refs() == rec.refs@
                    &&& final(tways).val_of(rec.id).spec_legs() == rec.legs@
                    &&& final(tways).val_of(rec.id).spec_tags() == rec.tags@
                    &&& final(tways).val_of(rec.id).wf()
                    &&& forall|other: i64|
                        other != rec.id ==> final(tways).has(other) == old(tways).has(other)
                    &&& forall|other: i64|
                        other != rec.id && old(tways).has(other) ==> final(tways).val_of(other)
                            == old(tways).val_of(other)
                }
                &&& !admitted(rec.tags@) ==> *final(tways) == *old(tways)
            },
            Err(e) => {
                &&& admitted(rec.tags@)
                &&& crate::elements::way_check(rec.refs@, rec.legs@, tnodes) == Some(e)
                &&& *final(tways) == *old(tways)
            },
        },
{
    let WayRecord { id, refs, legs, tags } = rec;
    if admitted_exec(&tags) {
        match TWay::new(refs, tags, legs, tnodes) {
            Ok(w) => {
                tways.insert(id, w);
                Ok(())
            },
            Err(e) => Err(e),
        }
    } else {
        Ok(())
    }
}

/// Build a network from raw records. Every node is registered; every way
/// runs the admission rule against the complete node table, in order. The
/// first admitted way that `way_check` refuses aborts the build: no partial
/// network is returned.
pub fn ingest(filename: String, nodes: Vec<NodeRecord>, ways: Vec<WayRecord>) -> (r: Result<
    Graph,
    BuildError,
>)
    ensures
        match r {
            Ok(g) => {
                &&& g.wf()
                &&& g.spec_filename() == filename@
                &&& forall|id: i64| #[trigger]
                    g.tnodes.has(id) == (node_rec_of(nodes@, id) is Some)
                &&& forall|id: i64| #[trigger]
                    g.tnodes.has(id) ==> {
                        &&& g.tnodes.val_of(id).lat() == node_rec_of(nodes@, id).unwrap().lat
                        &&& g.tnodes.val_of(id).lon() == node_rec_of(nodes@, id).unwrap().lon
                        &&& g.tnodes.val_of(id).spec_tags() == node_rec_of(
                            nodes@,
                            id,
                        ).unwrap().tags@
                        &&& g.tnodes.val_of(id).get_type()
                            == crate::elements::TNodeType::UnUsed
                    }
                &&& forall|id: i64| #[trigger]
                    g.tways.has(id) == (way_rec_of(ways@, id) is Some)
                &&& forall|id: i64| #[trigger]
                    g.tways.has(id) ==> {
                        &&& g.tways.val_of(id).spec_refs() == way_rec_of(
                            ways@,
                            id,
                        ).unwrap().refs@
                        &&& g.tways.val_of(id).spec_legs() == way_rec_of(
                            ways@,
                            id,
                        ).unwrap().legs@
                        &&& g.tways.val_of(id).spec_tags() == way_rec_of(
                            ways@,
                            id,
                        ).unwrap().tags@
                        &&& g.tways.val_of(id).wf()
                    }
                &&& forall|j: int|
                    0 <= j < ways@.len() && admitted(ways@[j].tags@) ==> rec_check(
                        ways@[j].refs@,
                        ways@[j].legs@,
                        nodes@,
                    ) is None
                &&& build_outcome(ways@, nodes@) is None
            },
            Err(e) => build_outcome(ways@, nodes@) == Some(e),
        },
{
    let mut tnodes: Table<TNode> = Table::new();
    let n = nodes.len();
    let mut i: usize = 0;
    proof {
        assert(nodes@.take(0) =~= Seq::<NodeRecord>::empty());
    }
    while i < n
        invariant
            i <= n,
            n == nodes@.len(),
            tnodes.wf(),
            forall|id: i64| #[trigger]
                tnodes.has(id) == (node_rec_of(nodes@.take(i as int), id) is Some),
            forall|id: i64| #[trigger]
                tnodes.has(id) ==> {
                    &&& tnodes.val_of(id).lat() == node_rec_of(
                        nodes@.take(i as int),
                        id,
                    ).unwrap().lat
                    &&& tnodes.val_of(id).lon() == node_rec_of(
                        nodes@.take(i as int),
                        id,
                    ).unwrap().lon
                    &&& tnodes.val_of(id).spec_tags() == node_rec_of(
                        nodes@.take(i as int),
                        id,
                    ).unwrap().tags@
                    &&& tnodes.val_of(id).get_type() == crate::elements::TNodeType::UnUsed
                },
        decreases n - i,
    {
        let rec = vec_node_at(&nodes, i);
        register_tnode(rec, &mut tnodes);
        proof {
            assert(nodes@.take(i as int + 1).drop_last() =~= nodes@.take(i as int));
            assert(nodes@.take(i as int + 1).last() == nodes@[i as int]);
        }
        i = i + 1;
    }
    proof {
        assert(nodes@.take(n as int) =~= nodes@);
    }
    let mut tways: Table<TWay> = Table::new();
    let ghost ws0 = ways@;
    let m = ways.len();
    let mut j: usize = 0;
    proof {
        assert(ws0.take(0) =~= Seq::<WayRecord>::empty());
    }
    while j < m
        invariant
            j <= m,
            m == ws0.len(),
            ws0 == ways@,
            tnodes.wf(),
            forall|id: i64| #[trigger] tnodes.has(id) == (node_rec_of(nodes@, id) is Some),
            tways.wf(),
            forall|q: int|
                0 <= q < j && admitted(ws0[q].tags@) ==> rec_check(
                    ws0[q].refs@,
                    ws0[q].legs@,
                    nodes@,
                ) is None,
            build_outcome(ws0.take(j as int), nodes@) is None,
            forall|id: i64| #[trigger]
                tways.has(id) == (way_rec_of(ws0.take(j as int), id) is Some),
            forall|id: i64| #[trigger]
                tways.has(id) ==> {
                    &&& tways.val_of(id).spec_refs() == way_rec_of(
                        ws0.take(j as int),
                        id,
                    ).unwrap().refs@
                    &&& tways.val_of(id).spec_legs() == way_rec_of(
                        ws0.take(j as int),
                        id,
                    ).unwrap().legs@
                    &&& tways.val_of(id).spec_tags() == way_rec_of(
                        ws0.take(j as int),
                        id,
                    ).unwrap().tags@
                    &&& tways.val_of(id).wf()
                },
        decreases m - j,
    {
        let wr = vec_way_at(&ways, j);
        let rec = WayRecord {
            id: wr.id,
            refs: clone_i64s(&wr.refs),
            legs: clone_u64s(&wr.legs),
            tags: clone_tags(&wr.tags),
        };
        proof {
            assert(rec.id == ws0[j as int].id);
            assert(rec.refs@ == ws0[j as int].refs@);
            assert(rec.legs@ == ws0[j as int].legs@);
            assert(rec.tags@ == ws0[j as int].tags@);
            lemma_check_agree(rec.refs@, rec.legs@, &tnodes, nodes@);
        }
        match register_tway(rec, &mut tways, &tnodes) {
            Ok(_) => {},
            Err(e) => {
                proof {
                    assert(admitted(ws0[j as int].tags@));
                    assert(rec_check(ws0[j as int].refs@, ws0[j as int].legs@, nodes@) == Some(
                        e,
                    ));
                    assert(ws0.take(j as int + 1).drop_last() =~= ws0.take(j as int));
                    assert(ws0.take(j as int + 1).last() == ws0[j as int]);
                    assert(build_outcome(ws0.take(j as int + 1), nodes@) == Some(e));
                    lemma_outcome_prefix(ws0, nodes@, j as int + 1);
                }
                return Err(e);
            },
        }
        proof {
            assert(ws0.take(j as int + 1).drop_last() =~= ws0.take(j as int));
            assert(ws0.take(j as int + 1).last() == ws0[j as int]);
        }
        j = j + 1;
    }
    proof {
        assert(ws0.take(m as int) =~= ws0);
        assert forall|q: int| 0 <= q < tways.v().len() implies tways.v()[q].wf() by {
            let id = tways.k()[q];
            assert(tways.k().contains(id));
            assert(tways.has(id));
            let c = tways.idx_of(id);
            assert(0 <= c < tways.k().len() && tways.k()[c] == id);
            assert(c == q);
            assert(tways.val_of(id).wf());
        }
    }
    Ok(Graph::new(filename, tnodes, tways))
}

/// Borrow one raw node record.
fn vec_node_at(v: &Vec<NodeRecord>, i: usize) -> (r: &NodeRecord)
    requires
        i < v@.len(),
    ensures
        *r == v@[i as int],
{
    &v[i]
}

/// Borrow one raw way record.
fn vec_way_at(v: &Vec<WayRecord>, i: usize) -> (r: &WayRecord)
    requires
        i < v@.len(),
    ensures
        *r == v@[i as int],
{
    &v[i]
}

} // verus!
