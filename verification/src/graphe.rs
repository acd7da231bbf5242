use crate::elements::{ids_contain, tag_lookup, tag_of, Edge, TNode, TNodeType, TWay};
use crate::table::Table;
use vstd::prelude::*;
use vstd::string::StrSliceExecFns;

verus! {


/// One step of decimal accumulation: extend value `st` by digit `c`; a
/// non-digit or a value beyond `u32::MAX` gives up.
pub open spec fn parse_step(st: Option<u32>, c: char) -> Option<u32> {
    match st {
        None => None,
        Some(a) => {
            if 48 <= c as u32 && c as u32 <= 57 && a * 10 + (c as u32 - 48) <= u32::MAX {
                Some((a * 10 + (c as u32 - 48)) as u32)
            } else {
                None
            }
        },
    }
}

pub open spec fn parse_scan(s: Seq<char>) -> Option<u32>
    decreases s.len(),
{
    if s.len() == 0 {
        Some(0u32)
    } else {
        parse_step(parse_scan(s.drop_last()), s.last())
    }
}

/// The value of a non-empty string of decimal digits, most significant
/// first; `None` on any other character or a value that does not fit `u32`.
pub open spec fn parse_u32(s: Seq<char>) -> Option<u32> {
    if s.len() == 0 {
        None
    } else {
        parse_scan(s)
    }
}

/// Parse a decimal `u32`, exactly as `parse_u32` describes.
pub fn parse_u32_exec(s: &String) -> (r: Option<u32>)
    ensures
        r == parse_u32(s@),
{
    let n = s.as_str().unicode_len();
    if n == 0 {
        return None;
    }
    let mut st: Option<u32> = Some(0);
    let mut i: usize = 0;
    proof {
        assert(s@.take(0) =~= Seq::<char>::empty());
    }
    while i < n
        invariant
            i <= n,
            n == s@.len(),
            st == parse_scan(s@.take(i as int)),
        decreases n - i,
    {
        let c = s.as_str().get_char(i);
        let cv = c as u32;
        st = match st {
            None => None,
            Some(a) => {
                if 48 <= cv && cv <= 57 {
                    let d: u32 = cv - 48;
                    if a <= (u32::MAX - d) / 10 {
                        Some(a * 10 + d)
                    } else {
                        None
                    }
                } else {
                    None
                }
            },
        };
        proof {
            assert(s@.take(i as int + 1).drop_last() =~= s@.take(i as int));
            assert(s@.take(i as int + 1).last() == s@[i as int]);
        }
        i = i + 1;
    }
    proof {
        assert(s@.take(n as int) =~= s@);
    }
    st
}

/// The table speed of a "highway" class, km/h; 30 km/h for an unknown or
/// absent class.
pub open spec fn class_speed(hw: Option<Seq<char>>) -> u32 {
    if hw == Some("motorway"@) {
        130
    } else if hw == Some("trunk"@) || hw == Some("primary"@) {
        110
    } else if hw == Some("secondary"@) {
        80
    } else if hw == Some("primary_link"@) || hw == Some("trunk_link"@) {
        70
    } else if hw == Some("road"@) || hw == Some("tertiary_link"@) || hw == Some(
        "secondary_link"@,
    ) || hw == Some("residential"@) || hw == Some("unclassified"@) || hw == Some("tertiary"@) {
        50
    } else {
        30
    }
}

/// The traversal speed of a way, km/h: a "maxspeed" tag that parses to a
/// positive integer overrides the "highway" class table. A zero,
/// fractional or otherwise unparseable value falls back to the table, so
/// the speed is always positive and the time weights stay defined.
pub open spec fn way_speed(tags: Seq<(String, String)>) -> u32 {
    match tag_of(tags, "maxspeed"@) {
        Some(v) => match parse_u32(v) {
            Some(ms) => if ms >= 1 {
                ms
            } else {
                class_speed(tag_of(tags, "highway"@))
            },
            None => class_speed(tag_of(tags, "highway"@)),
        },
        None => class_speed(tag_of(tags, "highway"@)),
    }
}

/// Compute `way_speed`; always at least 1 km/h.
pub fn way_speed_exec(tags: &Vec<(String, String)>) -> (r: u32)
    ensures
        r == way_speed(tags@),
        r >= 1,
{
    let hk: String = "highway".to_owned();
    let table: u32 = match tag_lookup(tags, &hk) {
        Some(v) => {
            if *v == "motorway".to_owned() {
                130
            } else if *v == "trunk".to_owned() || *v == "primary".to_owned() {
                110
            } else if *v == "secondary".to_owned() {
                80
            } else if *v == "primary_link".to_owned() || *v == "trunk_link".to_owned() {
                70
            } else if *v == "road".to_owned() || *v == "tertiary_link".to_owned() || *v
                == "secondary_link".to_owned() || *v == "residential".to_owned() || *v
                == "unclassified".to_owned() || *v == "tertiary".to_owned() {
                50
            } else {
                30
            }
        },
        None => 30,
    };
    let mk: String = "maxspeed".to_owned();
    match tag_lookup(tags, &mk) {
        Some(v) => match parse_u32_exec(v) {
            Some(ms) => if ms >= 1 {
                ms
            } else {
                table
            },
            None => table,
        },
        None => table,
    }
}

/// Travel time in milliseconds over `d` millimeters at `speed` km/h: one
/// km/h is 5/18 mm per ms, so the time is 18·d / (5·speed), saturated at
/// `u64::MAX` and rounded towards zero.
pub open spec fn leg_time(d: u64, speed: u32) -> u64
    recommends
        speed >= 1,
{
    if (d * 18) / (5 * speed) > u64::MAX {
        u64::MAX
    } else {
        ((d * 18) / (5 * speed)) as u64
    }
}

/// Compute `leg_time`.
pub fn leg_time_exec(d: u64, speed: u32) -> (t: u64)
    requires
        speed >= 1,
    ensures
        t == leg_time(d, speed),
{
    let num: u128 = (d as u128) * 18;
    let den: u128 = 5 * (speed as u128);
    let q: u128 = num / den;
    if q > u64::MAX as u128 {
        u64::MAX
    } else {
        q as u64
    }
}

/// Node `n` is the first or last reference of some way.
pub open spec fn end_of_any(ws: Seq<TWay>, n: i64) -> bool {
    exists|j: int|
        0 <= j < ws.len() && ws[j].spec_refs().len() > 0 && (ws[j].spec_refs().first() == n
            || ws[j].spec_refs().last() == n)
}

/// Node `n` appears in the reference chain of some way.
pub open spec fn used_by_any(ws: Seq<TWay>, n: i64) -> bool {
    exists|j: int| 0 <= j < ws.len() && ws[j].spec_refs().contains(n)
}

/// Order-independent classification of node `n` against the ways: the first
/// or last reference of any way makes it `EndNode`, any other referenced
/// node is `MiddleNode`, an unreferenced node stays `UnUsed`.
pub open spec fn node_class(ws: Seq<TWay>, n: i64) -> TNodeType {
    if end_of_any(ws, n) {
        TNodeType::EndNode
    } else if used_by_any(ws, n) {
        TNodeType::MiddleNode
    } else {
        TNodeType::UnUsed
    }
}

/// The identifiers, in table order, of the ways whose chains reference `n`.
pub open spec fn backrefs(ks: Seq<i64>, ws: Seq<TWay>, n: i64) -> Seq<i64>
    decreases ws.len(),
{
    if ws.len() == 0 || ks.len() != ws.len() {
        Seq::empty()
    } else {
        backrefs(ks.drop_last(), ws.drop_last(), n) + (
        if ws.last().spec_refs().contains(n) {
            seq![ks.last()]
        } else {
            Seq::empty()
        })
    }
}

/// The keys that survive the pruning pass, kept in table order: those
/// that some way references.
pub open spec fn kept_keys(ks: Seq<i64>, ws: Seq<TWay>) -> Seq<i64>
    decreases ks.len(),
{
    if ks.len() == 0 {
        Seq::empty()
    } else {
        kept_keys(ks.drop_last(), ws) + (
        if used_by_any(ws, ks.last()) {
            seq![ks.last()]
        } else {
            Seq::empty()
        })
    }
}

/// A way end is in particular a referenced node.
pub proof fn lemma_end_is_used(ws: Seq<TWay>, n: i64)
    requires
        end_of_any(ws, n),
    ensures
        used_by_any(ws, n),
{
    let q = choose|q: int| #![auto]
        0 <= q < ws.len() && ws[q].spec_refs().len() > 0 && (ws[q].spec_refs().first() == n
            || ws[q].spec_refs().last() == n);
    let r = ws[q].spec_refs();
    if r.first() == n {
        assert(r[0] == n);
        assert(r.contains(n));
    } else {
        assert(r[r.len() - 1] == n);
        assert(r.contains(n));
    }
}


/// Scanning one more way extends the end-of-way predicate by exactly that way.
proof fn lemma_end_step(ws: Seq<TWay>, j: int, n: i64)
    requires
        0 <= j < ws.len(),
    ensures
        end_of_any(ws.take(j + 1), n) <==> (end_of_any(ws.take(j), n) || (ws[j].spec_refs().len()
            > 0 && (ws[j].spec_refs().first() == n || ws[j].spec_refs().last() == n))),
{
    let a = ws.take(j);
    let b = ws.take(j + 1);
    if end_of_any(a, n) {
        let q = choose|q: int| #![auto]
            0 <= q < a.len() && a[q].spec_refs().len() > 0 && (a[q].spec_refs().first() == n
                || a[q].spec_refs().last() == n);
        assert(b[q] == a[q]);
        assert(end_of_any(b, n));
    }
    if ws[j].spec_refs().len() > 0 && (ws[j].spec_refs().first() == n || ws[j].spec_refs().last()
        == n) {
        assert(b[j] == ws[j]);
        assert(end_of_any(b, n));
    }
    if end_of_any(b, n) && !end_of_any(a, n) {
        let q = choose|q: int| #![auto]
            0 <= q < b.len() && b[q].spec_refs().len() > 0 && (b[q].spec_refs().first() == n
                || b[q].spec_refs().last() == n);
        if q < j {
            assert(a[q] == b[q]);
            assert(end_of_any(a, n));
        } else {
            assert(b[q] == ws[j]);
        }
    }
}

/// Scanning one more way extends the used-by predicate by exactly that way.
proof fn lemma_used_step(ws: Seq<TWay>, j: int, n: i64)
    requires
        0 <= j < ws.len(),
    ensures
        used_by_any(ws.take(j + 1), n) <==> (used_by_any(ws.take(j), n)
            || ws[j].spec_refs().contains(n)),
{
    let a = ws.take(j);
    let b = ws.take(j + 1);
    if used_by_any(a, n) {
        let q = choose|q: int| #![auto] 0 <= q < a.len() && a[q].spec_refs().contains(n);
        assert(b[q] == a[q]);
        assert(used_by_any(b, n));
    }
    if ws[j].spec_refs().contains(n) {
        assert(b[j] == ws[j]);
        assert(used_by_any(b, n));
    }
    if used_by_any(b, n) && !used_by_any(a, n) {
        let q = choose|q: int| #![auto] 0 <= q < b.len() && b[q].spec_refs().contains(n);
        if q < j {
            assert(a[q] == b[q]);
            assert(used_by_any(a, n));
        } else {
            assert(b[q] == ws[j]);
        }
    }
}

/// Membership in a one-longer prefix.
proof fn lemma_take_contains_step(ks: Seq<i64>, j: int, x: i64)
    requires
        0 <= j < ks.len(),
    ensures
        ks.take(j + 1).contains(x) <==> (ks.take(j).contains(x) || ks[j] == x),
{
    let a = ks.take(j);
    let b = ks.take(j + 1);
    if a.contains(x) {
        let q = choose|q: int| #![auto] 0 <= q < a.len() && a[q] == x;
        assert(b[q] == x);
    }
    if ks[j] == x {
        assert(b[j] == x);
    }
    if b.contains(x) && !a.contains(x) {
        let q = choose|q: int| #![auto] 0 <= q < b.len() && b[q] == x;
        if q < j {
            assert(a[q] == x);
        } else {
            assert(b[q] == ks[j]);
        }
    }
}

/// An element of a prefix has an index below the cut.
proof fn lemma_take_contains_index(ks: Seq<i64>, i: int, x: i64)
    requires
        0 <= i <= ks.len(),
        ks.take(i).contains(x),
    ensures
        exists|q: int| #![auto] 0 <= q < i && ks[q] == x,
{
    let q = choose|q: int| #![auto] 0 <= q < ks.take(i).len() && ks.take(i)[q] == x;
    assert(ks[q] == x);
}



/// Borrow one entry of a length list.
fn vec_u64_at(v: &Vec<u64>, i: usize) -> (x: &u64)
    requires
        i < v@.len(),
    ensures
        *x == v@[i as int],
{
    &v[i]
}

/// Borrow one entry of an identifier list.
fn vec_i64_at(v: &Vec<i64>, i: usize) -> (x: &i64)
    requires
        i < v@.len(),
    ensures
        *x == v@[i as int],
{
    &v[i]
}

/// Whether the arc listing holds an entry for source node `k`.
pub open spec fn assoc_has(m: Seq<(i64, Seq<Edge>)>, k: i64) -> bool {
    exists|i: int| #![auto] 0 <= i < m.len() && m[i].0 == k
}

/// The position of source node `k` in the arc listing.
pub open spec fn assoc_idx(m: Seq<(i64, Seq<Edge>)>, k: i64) -> int {
    choose|i: int| #![auto] 0 <= i < m.len() && m[i].0 == k
}

/// Source nodes of an arc listing are pairwise distinct.
pub open spec fn assoc_wf(m: Seq<(i64, Seq<Edge>)>) -> bool {
    forall|i: int, j: int| 0 <= i < j < m.len() ==> m[i].0 != m[j].0
}

/// The outgoing arcs of node `k`, empty when `k` has no entry.
pub open spec fn arcs_at(m: Seq<(i64, Seq<Edge>)>, k: i64) -> Seq<Edge> {
    if assoc_has(m, k) {
        m[assoc_idx(m, k)].1
    } else {
        Seq::empty()
    }
}

/// Append arc `e` to the entry of source `k`, creating the entry at the end
/// of the listing when `k` has none.
pub open spec fn push_arc(m: Seq<(i64, Seq<Edge>)>, k: i64, e: Edge) -> Seq<(i64, Seq<Edge>)> {
    if assoc_has(m, k) {
        m.update(assoc_idx(m, k), (k, m[assoc_idx(m, k)].1.push(e)))
    } else {
        m.push((k, seq![e]))
    }
}

/// What `push_arc` does, entry by entry.
pub proof fn lemma_push_arc_at(m: Seq<(i64, Seq<Edge>)>, k: i64, e: Edge)
    requires
        assoc_wf(m),
    ensures
        assoc_wf(push_arc(m, k, e)),
        arcs_at(push_arc(m, k, e), k) == arcs_at(m, k).push(e),
        forall|k2: i64| k2 != k ==> arcs_at(push_arc(m, k, e), k2) == arcs_at(m, k2),
        assoc_has(push_arc(m, k, e), k),
        forall|k2: i64| k2 != k ==> assoc_has(push_arc(m, k, e), k2) == assoc_has(m, k2),
{
    let p = push_arc(m, k, e);
    if assoc_has(m, k) {
        let i = assoc_idx(m, k);
        assert(0 <= i < m.len() && m[i].0 == k);
        assert(p[i].0 == k);
        assert(assoc_has(p, k));
        let i2 = assoc_idx(p, k);
        assert(0 <= i2 < p.len() && p[i2].0 == k);
        assert(forall|j: int| 0 <= j < m.len() && j != i ==> p[j] == m[j]);
        assert(i2 == i);
        assert(arcs_at(p, k) == arcs_at(m, k).push(e));
        assert forall|k2: i64| k2 != k implies arcs_at(p, k2) == arcs_at(m, k2) by {
            if assoc_has(m, k2) {
                let w = assoc_idx(m, k2);
                assert(0 <= w < m.len() && m[w].0 == k2);
                assert(w != i);
                assert(p[w].0 == k2);
                assert(assoc_has(p, k2));
                let w2 = assoc_idx(p, k2);
                assert(0 <= w2 < p.len() && p[w2].0 == k2);
                assert(w2 != i);
                assert(p[w2] == m[w2]);
                assert(w2 == w);
            } else {
                if assoc_has(p, k2) {
                    let w2 = assoc_idx(p, k2);
                    assert(0 <= w2 < p.len() && p[w2].0 == k2);
                    assert(w2 != i);
                    assert(m[w2].0 == k2);
                    assert(assoc_has(m, k2));
                }
            }
        }
    } else {
        assert(forall|j: int| 0 <= j < m.len() ==> m[j].0 != k);
        assert(p.last().0 == k);
        assert(p[m.len() as int].0 == k);
        assert(assoc_has(p, k));
        let i2 = assoc_idx(p, k);
        assert(0 <= i2 < p.len() && p[i2].0 == k);
        assert(i2 == m.len());
        assert(arcs_at(p, k) =~= Seq::<Edge>::empty().push(e));
        assert(arcs_at(m, k) =~= Seq::<Edge>::empty());
        assert forall|k2: i64| k2 != k implies arcs_at(p, k2) == arcs_at(m, k2)
            && assoc_has(p, k2) == assoc_has(m, k2) by {
            if assoc_has(m, k2) {
                let w = assoc_idx(m, k2);
                assert(0 <= w < m.len() && m[w].0 == k2);
                assert(p[w].0 == k2);
                assert(assoc_has(p, k2));
                let w2 = assoc_idx(p, k2);
                assert(0 <= w2 < p.len() && p[w2].0 == k2);
                assert(w2 != m.len());
                assert(m[w2].0 == k2);
                assert(w2 == w);
            } else {
                if assoc_has(p, k2) {
                    let w2 = assoc_idx(p, k2);
                    assert(0 <= w2 < p.len() && p[w2].0 == k2);
                    assert(w2 != m.len());
                    assert(m[w2].0 == k2);
                    assert(assoc_has(m, k2));
                }
            }
        }
    }
}

/// The forward arc of leg `i` of way `w`.
pub open spec fn fwd_arc(w: TWay, i: int) -> Edge {
    Edge {
        node: w.spec_refs()[i + 1],
        distance: w.spec_legs()[i],
        time: leg_time(w.spec_legs()[i], way_speed(w.spec_tags())),
    }
}

/// The reverse arc of leg `i` of way `w`.
pub open spec fn rev_arc(w: TWay, i: int) -> Edge {
    Edge {
        node: w.spec_refs()[i],
        distance: w.spec_legs()[i],
        time: leg_time(w.spec_legs()[i], way_speed(w.spec_tags())),
    }
}

/// Record leg `i` of way `w`: the forward arc always, the reverse arc too
/// unless the way is one-way.
pub open spec fn leg_arcs(m: Seq<(i64, Seq<Edge>)>, w: TWay, i: int) -> Seq<(i64, Seq<Edge>)> {
    let m1 = push_arc(m, w.spec_refs()[i], fwd_arc(w, i));
    if w.oneway_spec() {
        m1
    } else {
        push_arc(m1, w.spec_refs()[i + 1], rev_arc(w, i))
    }
}

/// The listing after recording the first `i` legs of way `w` on top of `m`.
pub open spec fn way_arcs_upto(m: Seq<(i64, Seq<Edge>)>, w: TWay, i: int) -> Seq<(i64, Seq<Edge>)>
    decreases i,
{
    if i <= 0 {
        m
    } else {
        leg_arcs(way_arcs_upto(m, w, i - 1), w, i - 1)
    }
}

/// The listing after recording the first `i` ways completely.
pub open spec fn arcs_upto(ws: Seq<TWay>, i: int) -> Seq<(i64, Seq<Edge>)>
    decreases i,
{
    if i <= 0 {
        Seq::empty()
    } else {
        way_arcs_upto(arcs_upto(ws, i - 1), ws[i - 1], ws[i - 1].spec_legs().len() as int)
    }
}

/// The directed search graph derived from the ways: every leg of every way
/// as a forward arc, plus a reverse arc for two-way ways.
pub open spec fn directed_view(ws: Seq<TWay>) -> Seq<(i64, Seq<Edge>)> {
    arcs_upto(ws, ws.len() as int)
}

/// The arc listing a table holds.
pub open spec fn arcs_view(t: Table<Vec<Edge>>) -> Seq<(i64, Seq<Edge>)> {
    Seq::new(t.k().len(), |i: int| (t.k()[i], t.v()[i]@))
}

/// Append arc `e` to the table entry of source `k`, exactly as `push_arc`.
fn add_arc(g: &mut Table<Vec<Edge>>, k: i64, e: Edge)
    requires
        old(g).wf(),
    ensures
        final(g).wf(),
        arcs_view(*final(g)) == push_arc(arcs_view(*old(g)), k, e),
{
    let ghost m0 = arcs_view(*g);
    proof {
        assert forall|i: int, j: int| 0 <= i < j < m0.len() implies m0[i].0 != m0[j].0 by {}
    }
    match g.get_index(k) {
        Some(i) => {
            proof {
                assert(m0[i as int].0 == k);
                assert(assoc_has(m0, k));
                let c = assoc_idx(m0, k);
                assert(0 <= c < m0.len() && m0[c].0 == k);
                assert(c == i as int);
            }
            let sl = g.val_at(i).len();
            let mut nv: Vec<Edge> = Vec::new();
            let mut j: usize = 0;
            while j < sl
                invariant
                    j <= sl,
                    i < g.v().len(),
                    sl == g.v()[i as int]@.len(),
                    nv@ =~= g.v()[i as int]@.take(j as int),
                decreases sl - j,
            {
                let x: Edge = *vec_edge_at(g.val_at(i), j);
                nv.push(x);
                proof {
                    assert(nv@ =~= g.v()[i as int]@.take(j as int + 1));
                }
                j = j + 1;
            }
            proof {
                assert(g.v()[i as int]@.take(sl as int) =~= g.v()[i as int]@);
            }
            nv.push(e);
            let ghost pre = *g;
            g.set_at(i, nv);
            proof {
                assert(arcs_view(*g) =~= push_arc(m0, k, e));
            }
        },
        None => {
            proof {
                if assoc_has(m0, k) {
                    let c = assoc_idx(m0, k);
                    assert(0 <= c < m0.len() && m0[c].0 == k);
                    assert(g.k()[c] == k);
                    assert(g.has(k));
                    assert(false);
                }
            }
            let mut nv: Vec<Edge> = Vec::new();
            nv.push(e);
            g.insert(k, nv);
            proof {
                assert(arcs_view(*g) =~= push_arc(m0, k, e));
            }
        },
    }
}

/// Borrow one arc of an arc list.
fn vec_edge_at(v: &Vec<Edge>, i: usize) -> (e: &Edge)
    requires
        i < v@.len(),
    ensures
        *e == v@[i as int],
{
    &v[i]
}


/// The number of arcs a listing holds.
pub open spec fn arcs_count(m: Seq<(i64, Seq<Edge>)>) -> int
    decreases m.len(),
{
    if m.len() == 0 {
        0
    } else {
        arcs_count(m.drop_last()) + m.last().1.len()
    }
}

/// The number of arcs the ways are expected to produce: one per leg of a
/// one-way way, two per leg of a two-way way.
pub open spec fn expected_arcs(ws: Seq<TWay>) -> int
    decreases ws.len(),
{
    if ws.len() == 0 {
        0
    } else {
        expected_arcs(ws.drop_last()) + ws.last().spec_legs().len() * (
        if ws.last().oneway_spec() {
            1int
        } else {
            2int
        })
    }
}

proof fn lemma_count_update(m: Seq<(i64, Seq<Edge>)>, i: int, p: (i64, Seq<Edge>))
    requires
        0 <= i < m.len(),
        p.1.len() == m[i].1.len() + 1,
    ensures
        arcs_count(m.update(i, p)) == arcs_count(m) + 1,
    decreases m.len(),
{
    if i == m.len() - 1 {
        assert(m.update(i, p).drop_last() =~= m.drop_last());
        assert(m.update(i, p).last() == p);
    } else {
        assert(m.update(i, p).drop_last() =~= m.drop_last().update(i, p));
        assert(m.update(i, p).last() == m.last());
        lemma_count_update(m.drop_last(), i, p);
    }
}

proof fn lemma_count_push_arc(m: Seq<(i64, Seq<Edge>)>, k: i64, e: Edge)
    requires
        assoc_wf(m),
    ensures
        arcs_count(push_arc(m, k, e)) == arcs_count(m) + 1,
{
    if assoc_has(m, k) {
        let i = assoc_idx(m, k);
        assert(0 <= i < m.len() && m[i].0 == k);
        lemma_count_update(m, i, (k, m[i].1.push(e)));
    } else {
        let p = m.push((k, seq![e]));
        assert(p.drop_last() =~= m);
        assert(p.last().1.len() == 1);
    }
}

proof fn lemma_count_leg(m: Seq<(i64, Seq<Edge>)>, w: TWay, i: int)
    requires
        assoc_wf(m),
    ensures
        assoc_wf(leg_arcs(m, w, i)),
        arcs_count(leg_arcs(m, w, i)) == arcs_count(m) + (
        if w.oneway_spec() {
            1int
        } else {
            2int
        }),
{
    let a = w.spec_refs()[i];
    let b = w.spec_refs()[i + 1];
    lemma_push_arc_at(m, a, fwd_arc(w, i));
    lemma_count_push_arc(m, a, fwd_arc(w, i));
    if !w.oneway_spec() {
        let m1 = push_arc(m, a, fwd_arc(w, i));
        lemma_push_arc_at(m1, b, rev_arc(w, i));
        lemma_count_push_arc(m1, b, rev_arc(w, i));
    }
}

proof fn lemma_count_way(m: Seq<(i64, Seq<Edge>)>, w: TWay, i: int)
    requires
        assoc_wf(m),
        0 <= i,
    ensures
        assoc_wf(way_arcs_upto(m, w, i)),
        arcs_count(way_arcs_upto(m, w, i)) == arcs_count(m) + i * (
        if w.oneway_spec() {
            1int
        } else {
            2int
        }),
    decreases i,
{
    if i > 0 {
        lemma_count_way(m, w, i - 1);
        lemma_count_leg(way_arcs_upto(m, w, i - 1), w, i - 1);
    }
}

proof fn lemma_count_ways(ws: Seq<TWay>, i: int)
    requires
        0 <= i <= ws.len(),
    ensures
        assoc_wf(arcs_upto(ws, i)),
        arcs_count(arcs_upto(ws, i)) == expected_arcs(ws.take(i)),
    decreases i,
{
    if i == 0 {
        assert(ws.take(0) =~= Seq::<TWay>::empty());
    } else {
        lemma_count_ways(ws, i - 1);
        lemma_count_way(arcs_upto(ws, i - 1), ws[i - 1], ws[i - 1].spec_legs().len() as int);
        assert(ws.take(i).drop_last() =~= ws.take(i - 1));
        assert(ws.take(i).last() == ws[i - 1]);
    }
}

/// Every leg of every way produces exactly two arcs, one per direction, or
/// exactly one when the way is one-way: the derived graph holds exactly
/// `expected_arcs` arcs in all, and its source nodes are pairwise distinct.
pub proof fn lemma_arc_count(ws: Seq<TWay>)
    ensures
        assoc_wf(directed_view(ws)),
        arcs_count(directed_view(ws)) == expected_arcs(ws),
{
    lemma_count_ways(ws, ws.len() as int);
    assert(ws.take(ws.len() as int) =~= ws);
}

proof fn lemma_mono_leg(m: Seq<(i64, Seq<Edge>)>, w: TWay, i: int, k: i64, e: Edge)
    requires
        assoc_wf(m),
        arcs_at(m, k).contains(e),
    ensures
        assoc_wf(leg_arcs(m, w, i)),
        arcs_at(leg_arcs(m, w, i), k).contains(e),
{
    let a = w.spec_refs()[i];
    let b = w.spec_refs()[i + 1];
    lemma_push_arc_at(m, a, fwd_arc(w, i));
    let m1 = push_arc(m, a, fwd_arc(w, i));
    if k == a {
        assert(arcs_at(m1, k) == arcs_at(m, k).push(fwd_arc(w, i)));
        let q = choose|q: int| #![auto] 0 <= q < arcs_at(m, k).len() && arcs_at(m, k)[q] == e;
        assert(arcs_at(m1, k)[q] == e);
    }
    assert(arcs_at(m1, k).contains(e));
    if !w.oneway_spec() {
        lemma_push_arc_at(m1, b, rev_arc(w, i));
        let m2 = push_arc(m1, b, rev_arc(w, i));
        if k == b {
            assert(arcs_at(m2, k) == arcs_at(m1, k).push(rev_arc(w, i)));
            let q = choose|q: int| #![auto]
                0 <= q < arcs_at(m1, k).len() && arcs_at(m1, k)[q] == e;
            assert(arcs_at(m2, k)[q] == e);
        }
        assert(arcs_at(m2, k).contains(e));
    }
}

proof fn lemma_mono_way_from(m: Seq<(i64, Seq<Edge>)>, w: TWay, i0: int, i2: int, k: i64, e: Edge)
    requires
        assoc_wf(m),
        0 <= i0 <= i2,
        arcs_at(way_arcs_upto(m, w, i0), k).contains(e),
        assoc_wf(way_arcs_upto(m, w, i0)),
    ensures
        assoc_wf(way_arcs_upto(m, w, i2)),
        arcs_at(way_arcs_upto(m, w, i2), k).contains(e),
    decreases i2 - i0,
{
    if i2 > i0 {
        lemma_mono_way_from(m, w, i0, i2 - 1, k, e);
        lemma_mono_leg(way_arcs_upto(m, w, i2 - 1), w, i2 - 1, k, e);
    }
}

proof fn lemma_wf_way(m: Seq<(i64, Seq<Edge>)>, w: TWay, i: int)
    requires
        assoc_wf(m),
    ensures
        assoc_wf(way_arcs_upto(m, w, i)),
    decreases i,
{
    if i > 0 {
        lemma_wf_way(m, w, i - 1);
        let a = w.spec_refs()[i - 1];
        let b = w.spec_refs()[i];
        lemma_push_arc_at(way_arcs_upto(m, w, i - 1), a, fwd_arc(w, i - 1));
        if !w.oneway_spec() {
            lemma_push_arc_at(
                push_arc(way_arcs_upto(m, w, i - 1), a, fwd_arc(w, i - 1)),
                b,
                rev_arc(w, i - 1),
            );
        }
    }
}

proof fn lemma_mono_ways(ws: Seq<TWay>, i1: int, i2: int, k: i64, e: Edge)
    requires
        0 <= i1 <= i2 <= ws.len(),
        arcs_at(arcs_upto(ws, i1), k).contains(e),
    ensures
        arcs_at(arcs_upto(ws, i2), k).contains(e),
    decreases i2 - i1,
{
    lemma_count_ways(ws, i1);
    if i2 > i1 {
        lemma_mono_ways(ws, i1, i2 - 1, k, e);
        lemma_count_ways(ws, i2 - 1);
        lemma_mono_way_from(
            arcs_upto(ws, i2 - 1),
            ws[i2 - 1],
            0,
            ws[i2 - 1].spec_legs().len() as int,
            k,
            e,
        );
    }
}

/// Leg `i` of way `wi` puts its forward arc in the entry of the leg's start
/// node and, unless the way is one-way, its reverse arc in the entry of the
/// leg's end node of the derived graph.
pub proof fn lemma_leg_arcs_present(ws: Seq<TWay>, wi: int, i: int)
    requires
        0 <= wi < ws.len(),
        0 <= i < ws[wi].spec_legs().len(),
    ensures
        arcs_at(directed_view(ws), ws[wi].spec_refs()[i]).contains(fwd_arc(ws[wi], i)),
        !ws[wi].oneway_spec() ==> arcs_at(directed_view(ws), ws[wi].spec_refs()[i + 1]).contains(
            rev_arc(ws[wi], i),
        ),
{
    let w = ws[wi];
    let base = arcs_upto(ws, wi);
    lemma_count_ways(ws, wi);
    lemma_wf_way(base, w, i);
    let mpre = way_arcs_upto(base, w, i);
    let a = w.spec_refs()[i];
    let b = w.spec_refs()[i + 1];
    lemma_push_arc_at(mpre, a, fwd_arc(w, i));
    let m1 = push_arc(mpre, a, fwd_arc(w, i));
    assert(arcs_at(m1, a) == arcs_at(mpre, a).push(fwd_arc(w, i)));
    assert(arcs_at(m1, a).last() == fwd_arc(w, i));
    assert(arcs_at(m1, a).contains(fwd_arc(w, i)));
    if w.oneway_spec() {
        assert(leg_arcs(mpre, w, i) == m1);
        assert(assoc_wf(m1));
        lemma_mono_way_from(base, w, i + 1, w.spec_legs().len() as int, a, fwd_arc(w, i));
        lemma_mono_ways(ws, wi + 1, ws.len() as int, a, fwd_arc(w, i));
    } else {
        lemma_push_arc_at(m1, b, rev_arc(w, i));
        let m2 = push_arc(m1, b, rev_arc(w, i));
        assert(arcs_at(m2, b) == arcs_at(m1, b).push(rev_arc(w, i)));
        assert(arcs_at(m2, b).last() == rev_arc(w, i));
        assert(arcs_at(m2, b).contains(rev_arc(w, i)));
        if a == b {
            let s1 = arcs_at(m1, a);
            let q = choose|q: int| #![auto] 0 <= q < s1.len() && s1[q] == fwd_arc(w, i);
            assert(arcs_at(m2, a)[q] == fwd_arc(w, i));
        }
        assert(arcs_at(m2, a).contains(fwd_arc(w, i)));
        assert(leg_arcs(mpre, w, i) == m2);
        assert(assoc_wf(m2));
        lemma_mono_way_from(base, w, i + 1, w.spec_legs().len() as int, a, fwd_arc(w, i));
        lemma_mono_way_from(base, w, i + 1, w.spec_legs().len() as int, b, rev_arc(w, i));
        lemma_mono_ways(ws, wi + 1, ws.len() as int, a, fwd_arc(w, i));
        lemma_mono_ways(ws, wi + 1, ws.len() as int, b, rev_arc(w, i));
    }
}

/// Deriving the directed graph is deterministic: two derivations from the
/// same unmodified network list exactly the same arcs, in the same order.
pub proof fn lemma_get_directed_idempotent(
    g1: Table<Vec<Edge>>,
    g2: Table<Vec<Edge>>,
    ws: Seq<TWay>,
)
    requires
        arcs_view(g1) == directed_view(ws),
        arcs_view(g2) == directed_view(ws),
    ensures
        arcs_view(g1) == arcs_view(g2),
{
}

/// The network: the node and way tables extracted from one source file.
#[derive(Debug)]
pub struct Graph {
    pub filename: String,
    pub tnodes: Table<TNode>,
    pub tways: Table<TWay>,
}

impl Graph {
    pub open spec fn spec_filename(&self) -> Seq<char> {
        self.filename@
    }

    /// Well-formed: both tables are well-formed and every way is.
    pub open spec fn wf(&self) -> bool {
        &&& self.tnodes.wf()
        &&& self.tways.wf()
        &&& forall|j: int| 0 <= j < self.tways.v().len() ==> self.tways.v()[j].wf()
    }

    pub fn new(f: String, ip: Table<TNode>, ib: Table<TWay>) -> (g: Self)
        ensures
            g.spec_filename() == f@,
            g.tnodes == ip,
            g.tways == ib,
    {
        Self { filename: f, tnodes: ip, tways: ib }
    }

    pub fn filename(&self) -> (f: &String)
        ensures
            f@ == self.spec_filename(),
    {
        &self.filename
    }


    /// Derive the directed search graph: for every way, each leg becomes a
    /// forward arc carrying its measured length and the way's travel time,
    /// and a reverse arc too when the way is not one-way. Arcs of distinct
    /// ways between the same nodes are all kept.
    pub fn get_directed(&self) -> (g: Table<Vec<Edge>>)
        requires
            self.wf(),
        ensures
            g.wf(),
            arcs_view(g) == directed_view(self.tways.v()),
    {
        let ghost ws = self.tways.v();
        let mut graph: Table<Vec<Edge>> = Table::new();
        proof {
            assert(arcs_view(graph) =~= arcs_upto(ws, 0));
        }
        let m = self.tways.len();
        let mut wi: usize = 0;
        while wi < m
            invariant
                self.wf(),
                ws == self.tways.v(),
                wi <= m,
                m == self.tways.k().len(),
                graph.wf(),
                arcs_view(graph) == arcs_upto(ws, wi as int),
            decreases m - wi,
        {
            let w = self.tways.val_at(wi);
            let speed = way_speed_exec(w.tags());
            let ow = w.oneway();
            let nl = w.legs().len();
            let ghost base = arcs_upto(ws, wi as int);
            let mut i: usize = 0;
            while i < nl
                invariant
                    self.wf(),
                    ws == self.tways.v(),
                    wi < m,
                    m == self.tways.k().len(),
                    w == &ws[wi as int],
                    speed == way_speed(w.spec_tags()),
                    ow == w.oneway_spec(),
                    i <= nl,
                    nl == w.spec_legs().len(),
                    w.wf(),
                    base == arcs_upto(ws, wi as int),
                    graph.wf(),
                    arcs_view(graph) == way_arcs_upto(base, ws[wi as int], i as int),
                decreases nl - i,
            {
                let d: u64 = *vec_u64_at(w.legs(), i);
                let t = leg_time_exec(d, speed);
                let a: i64 = *vec_i64_at(w.refs(), i);
                let b: i64 = *vec_i64_at(w.refs(), i + 1);
                add_arc(&mut graph, a, Edge { node: b, distance: d, time: t });
                if !ow {
                    add_arc(&mut graph, b, Edge { node: a, distance: d, time: t });
                }
                proof {
                    assert(arcs_view(graph) == leg_arcs(
                        way_arcs_upto(base, ws[wi as int], i as int),
                        ws[wi as int],
                        i as int,
                    ));
                    assert(arcs_view(graph) == way_arcs_upto(base, ws[wi as int], i as int + 1));
                }
                i = i + 1;
            }
            proof {
                assert(arcs_view(graph) == arcs_upto(ws, wi as int + 1));
            }
            wi = wi + 1;
        }
        graph
    }

    /// The classification and pruning pass: reclassify every node from the
    /// ways that reference it, record those ways on the node, and drop every
    /// node no way references. Afterwards no `UnUsed` node remains and every
    /// surviving node lies on the chain of at least one way.
    pub fn clean(&mut self)
        requires
            old(self).wf(),
        ensures
            final(self).wf(),
            final(self).tways == old(self).tways,
            final(self).spec_filename() == old(self).spec_filename(),
            final(self).tnodes.k() == kept_keys(old(self).tnodes.k(), old(self).tways.v()),
            forall|id: i64| #[trigger]
                final(self).tnodes.has(id) <==> old(self).tnodes.has(id) && used_by_any(
                    old(self).tways.v(),
                    id,
                ),
            forall|id: i64| #[trigger]
                final(self).tnodes.has(id) ==> {
                    &&& final(self).tnodes.val_of(id).lat() == old(self).tnodes.val_of(id).lat()
                    &&& final(self).tnodes.val_of(id).lon() == old(self).tnodes.val_of(id).lon()
                    &&& final(self).tnodes.val_of(id).spec_tags() == old(self).tnodes.val_of(
                        id,
                    ).spec_tags()
                    &&& final(self).tnodes.val_of(id).get_type() == node_class(
                        old(self).tways.v(),
                        id,
                    )
                    &&& final(self).tnodes.val_of(id).get_type() != TNodeType::UnUsed
                    &&& final(self).tnodes.val_of(id).spec_ways() == backrefs(
                        old(self).tways.k(),
                        old(self).tways.v(),
                        id,
                    )
                },
    {
        let ghost g0 = *self;
        let n = self.tnodes.len();
        let mut out: Table<TNode> = Table::new();
        let mut i: usize = 0;
        proof {
            assert(g0.tnodes.k().take(0) =~= Seq::<i64>::empty());
            assert(out.k() =~= kept_keys(g0.tnodes.k().take(0), g0.tways.v()));
        }
        while i < n
            invariant
                *self == g0,
                g0.wf(),
                i <= n,
                n == g0.tnodes.k().len(),
                out.wf(),
                out.k() == kept_keys(g0.tnodes.k().take(i as int), g0.tways.v()),
                forall|id: i64| #[trigger]
                    out.has(id) ==> g0.tnodes.k().take(i as int).contains(id),
                forall|q: int|
                    0 <= q < i ==> (out.has(#[trigger] g0.tnodes.k()[q]) <==> used_by_any(
                        g0.tways.v(),
                        g0.tnodes.k()[q],
                    )),
                forall|id: i64| #[trigger]
                    out.has(id) ==> {
                        &&& out.val_of(id).lat() == g0.tnodes.val_of(id).lat()
                        &&& out.val_of(id).lon() == g0.tnodes.val_of(id).lon()
                        &&& out.val_of(id).spec_tags() == g0.tnodes.val_of(id).spec_tags()
                        &&& out.val_of(id).get_type() == node_class(g0.tways.v(), id)
                        &&& out.val_of(id).get_type() != TNodeType::UnUsed
                        &&& out.val_of(id).spec_ways() == backrefs(
                            g0.tways.k(),
                            g0.tways.v(),
                            id,
                        )
                    },
            decreases n - i,
        {
            let id = self.tnodes.key_at(i);
            let m = self.tways.len();
            let mut isend = false;
            let mut ismid = false;
            let mut br: Vec<i64> = Vec::new();
            let mut j: usize = 0;
            proof {
                assert(g0.tways.v().take(0) =~= Seq::<TWay>::empty());
                assert(g0.tways.k().take(0) =~= Seq::<i64>::empty());
            }
            while j < m
                invariant
                    *self == g0,
                    g0.wf(),
                    j <= m,
                    m == g0.tways.k().len(),
                    isend == end_of_any(g0.tways.v().take(j as int), id),
                    ismid == used_by_any(g0.tways.v().take(j as int), id),
                    br@ == backrefs(g0.tways.k().take(j as int), g0.tways.v().take(j as int), id),
                decreases m - j,
            {
                let ghost wst = g0.tways.v();
                let ghost kst = g0.tways.k();
                let ghost jj = j as int;
                let ghost isend0 = isend;
                let ghost ismid0 = ismid;
                let ghost br0 = br@;
                let w = self.tways.val_at(j);
                let this_mid = ids_contain(w.refs(), id);
                let this_end = w.start() == id || w.end() == id;
                if this_mid {
                    br.push(self.tways.key_at(j));
                    ismid = true;
                }
                if this_end {
                    isend = true;
                }
                proof {
                    lemma_end_step(wst, jj, id);
                    lemma_used_step(wst, jj, id);
                    assert(wst[jj].wf());
                    assert(this_end == (wst[jj].spec_refs().len() > 0 && (
                    wst[jj].spec_refs().first() == id || wst[jj].spec_refs().last() == id)));
                    assert(isend == end_of_any(wst.take(jj + 1), id));
                    assert(ismid == used_by_any(wst.take(jj + 1), id));
                    assert(wst.take(jj + 1).drop_last() =~= wst.take(jj));
                    assert(kst.take(jj + 1).drop_last() =~= kst.take(jj));
                    assert(wst.take(jj + 1).last() == wst[jj]);
                    assert(kst.take(jj + 1).last() == kst[jj]);
                    if this_mid {
                        assert(br@ =~= br0 + seq![kst[jj]]);
                    } else {
                        assert(br@ =~= br0 + Seq::<i64>::empty());
                    }
                    assert(br@ == backrefs(kst.take(jj + 1), wst.take(jj + 1), id));
                }
                j = j + 1;
            }
            proof {
                assert(g0.tways.v().take(m as int) =~= g0.tways.v());
                assert(g0.tways.k().take(m as int) =~= g0.tways.k());
            }
            let ghost out0 = out;
            let ghost kn = g0.tnodes.k();
            if ismid {
                let t = if isend {
                    TNodeType::EndNode
                } else {
                    TNodeType::MiddleNode
                };
                let node = self.tnodes.val_at(i).reclassified(t, br);
                proof {
                    if out.has(id) {
                        lemma_take_contains_index(kn, i as int, id);
                        let q = choose|q: int| #![auto] 0 <= q < i && kn[q] == id;
                        assert(kn[q] == id && kn[i as int] == id && q < i);
                        assert(false);
                    }
                }
                out.insert(id, node);
                proof {
                    if isend {
                        assert(node_class(g0.tways.v(), id) == TNodeType::EndNode);
                    } else {
                        assert(node_class(g0.tways.v(), id) == TNodeType::MiddleNode);
                    }
                }
            } else {
                proof {
                    if isend {
                        lemma_end_is_used(g0.tways.v(), id);
                        assert(false);
                    }
                    if out.has(id) {
                        lemma_take_contains_index(kn, i as int, id);
                        let q = choose|q: int| #![auto] 0 <= q < i && kn[q] == id;
                        assert(kn[q] == id && kn[i as int] == id && q < i);
                        assert(false);
                    }
                }
            }
            proof {
                assert(kn.take(i as int + 1).drop_last() =~= kn.take(i as int));
                assert(kn.take(i as int + 1).last() == kn[i as int]);
                let ghost kk = kept_keys(kn.take(i as int), g0.tways.v());
                if ismid {
                    assert(out.k() =~= kk + seq![id]);
                } else {
                    assert(out.k() =~= kk + Seq::<i64>::empty());
                }
                assert(out.k() == kept_keys(kn.take(i as int + 1), g0.tways.v()));
                assert forall|id2: i64| #[trigger] out.has(id2) implies kn.take(
                    i as int + 1,
                ).contains(id2) by {
                    lemma_take_contains_step(kn, i as int, id2);
                    if !out0.has(id2) {
                        assert(id2 == id);
                    }
                }
                assert forall|q: int| 0 <= q < i + 1 implies (out.has(#[trigger] kn[q])
                    <==> used_by_any(g0.tways.v(), kn[q])) by {
                    if q < i {
                        assert(kn[q] != id);
                    } else {
                        assert(kn[q] == id);
                    }
                }
            }
            i = i + 1;
        }
        proof {
            assert(g0.tnodes.k().take(n as int) =~= g0.tnodes.k());
        }
        self.tnodes = out;
        proof {
            assert forall|id: i64| #[trigger]
                self.tnodes.has(id) <==> g0.tnodes.has(id) && used_by_any(
                    g0.tways.v(),
                    id,
                ) by {
                if self.tnodes.has(id) {
                    assert(g0.tnodes.k().take(n as int).contains(id));
                    assert(g0.tnodes.has(id));
                }
                if g0.tnodes.has(id) {
                    let q = choose|q: int| #![auto]
                        0 <= q < g0.tnodes.k().len() && g0.tnodes.k()[q] == id;
                    assert(out.has(g0.tnodes.k()[q]) <==> used_by_any(g0.tways.v(), id));
                }
            }
        }
    }
}

} // verus!
