use crate::table::Table;
use vstd::prelude::*;

verus! {

/// Classification of a node relative to the ways that reference it.
#[derive(Debug, Clone, Copy, PartialEq, Eq, Structural)]
pub enum TNodeType {
    UnUsed,
    EndNode,
    MiddleNode,
}

/// The value bound to key `k` in a tag list, the last binding winning, as a
/// hash-map built by repeated insertion would resolve it.
pub open spec fn tag_of(s: Seq<(String, String)>, k: Seq<char>) -> Option<Seq<char>>
    decreases s.len(),
{
    if s.len() == 0 {
        None
    } else if s.last().0@ == k {
        Some(s.last().1@)
    } else {
        tag_of(s.drop_last(), k)
    }
}

/// A node of the network: a vertex with coordinates, tags, a classification,
/// and the identifiers of the ways that reference it. Coordinates are in
/// units of 1e-7 degree.
#[derive(Debug, Clone)]
pub struct TNode {
    lat: i64,
    lon: i64,
    tags: Vec<(String, String)>,
    ntype: TNodeType,
    ways: Vec<i64>,
}

impl TNode {
    /// A fresh node: classified `UnUsed`, no way references yet.
    pub fn new(lat: i64, lon: i64, t: Vec<(String, String)>) -> (n: Self)
        ensures
            n.lat() == lat,
            n.lon() == lon,
            n.spec_tags() == t@,
            n.get_type() == TNodeType::UnUsed,
            n.spec_ways() =~= Seq::<i64>::empty(),
    {
        Self { lat, lon, tags: t, ntype: TNodeType::UnUsed, ways: Vec::new() }
    }

    pub closed spec fn spec_lat(&self) -> i64 {
        self.lat
    }

    pub closed spec fn spec_lon(&self) -> i64 {
        self.lon
    }

    pub closed spec fn spec_tags(&self) -> Seq<(String, String)> {
        self.tags@
    }

    pub closed spec fn spec_ways(&self) -> Seq<i64> {
        self.ways@
    }

    pub closed spec fn spec_type(&self) -> TNodeType {
        self.ntype
    }

    /// Latitude in units of 1e-7 degree.
    #[verifier::when_used_as_spec(spec_lat)]
    pub fn lat(&self) -> (r: i64)
        ensures
            r == self.spec_lat(),
    {
        self.lat
    }

    /// Longitude in units of 1e-7 degree.
    #[verifier::when_used_as_spec(spec_lon)]
    pub fn lon(&self) -> (r: i64)
        ensures
            r == self.spec_lon(),
    {
        self.lon
    }

    pub fn tags(&self) -> (t: &Vec<(String, String)>)
        ensures
            t@ == self.spec_tags(),
    {
        &self.tags
    }

    /// Identifiers of the ways that reference this node (filled by the
    /// classification pass).
    pub fn ways(&self) -> (w: &Vec<i64>)
        ensures
            w@ == self.spec_ways(),
    {
        &self.ways
    }

    /// The value of tag `s`, if bound.
    pub fn get(&self, s: &String) -> (r: Option<&String>)
        ensures
            match r {
                Some(v) => tag_of(self.spec_tags(), s@) == Some(v@),
                None => tag_of(self.spec_tags(), s@) is None,
            },
    {
        tag_lookup(&self.tags, s)
    }

    #[verifier::when_used_as_spec(spec_type)]
    pub fn get_type(&self) -> (r: TNodeType)
        ensures
            r == self.spec_type(),
    {
        self.ntype
    }

    /// Reclassify the node, returning the new classification.
    pub fn set_type(&mut self, n: TNodeType) -> (r: TNodeType)
        ensures
            r == n,
            final(self).get_type() == n,
            final(self).lat() == old(self).lat(),
            final(self).lon() == old(self).lon(),
            final(self).spec_tags() == old(self).spec_tags(),
            final(self).spec_ways() == old(self).spec_ways(),
    {
        self.ntype = n;
        self.ntype
    }

    /// Record that way `id` references this node.
    pub fn add_way(&mut self, id: i64)
        ensures
            final(self).spec_ways() == old(self).spec_ways().push(id),
            final(self).get_type() == old(self).get_type(),
            final(self).lat() == old(self).lat(),
            final(self).lon() == old(self).lon(),
            final(self).spec_tags() == old(self).spec_tags(),
    {
        self.ways.push(id);
    }

    /// A copy of this node carrying a new classification and new way
    /// references, coordinates and tags kept.
    pub fn reclassified(&self, t: TNodeType, ways: Vec<i64>) -> (n: TNode)
        ensures
            n.lat() == self.lat(),
            n.lon() == self.lon(),
            n.spec_tags() == self.spec_tags(),
            n.get_type() == t,
            n.spec_ways() == ways@,
    {
        TNode { lat: self.lat, lon: self.lon, tags: clone_tags(&self.tags), ntype: t, ways }
    }
}

/// A directed, weighted arc of the derived search graph: target node,
/// distance weight in millimeters, time weight in milliseconds.
#[derive(Debug, Clone, Copy, PartialEq, Eq, Structural)]
pub struct Edge {
    pub node: i64,
    pub distance: u64,
    pub time: u64,
}

/// Why constructing a way was refused; any of these aborts the build of the
/// network that the way belongs to.
#[derive(Debug, Clone, Copy, PartialEq, Eq, Structural)]
pub enum BuildError {
    /// The way references fewer than two nodes.
    TooFewRefs,
    /// The leg-length list does not hold one entry per consecutive node pair.
    BadLegCount,
    /// The way references a node that is not in the node table.
    UnknownRef,
    /// The total length does not fit in a `u64` count of millimeters.
    LengthOverflow,
}

pub open spec fn sum_u64(s: Seq<u64>) -> int
    decreases s.len(),
{
    if s.len() == 0 {
        0
    } else {
        sum_u64(s.drop_last()) + s.last()
    }
}

/// A prefix never sums to more than the whole list.
pub proof fn lemma_sum_prefix(s: Seq<u64>, i: int)
    requires
        0 <= i <= s.len(),
    ensures
        sum_u64(s.take(i)) <= sum_u64(s),
    decreases s.len(),
{
    if i == s.len() {
        assert(s.take(i) =~= s);
    } else {
        assert(s.drop_last().take(i) =~= s.take(i));
        lemma_sum_prefix(s.drop_last(), i);
    }
}

/// What refuses a way built from references `r`, leg lengths `legs` and the
/// node table `nodes`; `None` when the way is acceptable.
pub open spec fn way_check(r: Seq<i64>, legs: Seq<u64>, nodes: &Table<TNode>) -> Option<
    BuildError,
> {
    if r.len() < 2 {
        Some(BuildError::TooFewRefs)
    } else if legs.len() + 1 != r.len() {
        Some(BuildError::BadLegCount)
    } else if exists|i: int| 0 <= i < r.len() && !nodes.has(r[i]) {
        Some(BuildError::UnknownRef)
    } else if sum_u64(legs) > u64::MAX {
        Some(BuildError::LengthOverflow)
    } else {
        None
    }
}

/// A way of the network: an ordered chain of node references with tags, the
/// measured length of each leg between consecutive nodes (millimeters), and
/// the precomputed total length.
#[derive(Debug, Clone)]
pub struct TWay {
    refs: Vec<i64>,
    tags: Vec<(String, String)>,
    legs: Vec<u64>,
    len: u64,
}

impl TWay {
    pub closed spec fn spec_refs(&self) -> Seq<i64> {
        self.refs@
    }

    pub closed spec fn spec_tags(&self) -> Seq<(String, String)> {
        self.tags@
    }

    pub closed spec fn spec_legs(&self) -> Seq<u64> {
        self.legs@
    }

    pub closed spec fn spec_len(&self) -> u64 {
        self.len
    }

    /// Well-formed: at least two references, one leg per consecutive pair,
    /// total length equal to the sum of the legs.
    pub open spec fn wf(&self) -> bool {
        &&& self.spec_refs().len() >= 2
        &&& self.spec_legs().len() + 1 == self.spec_refs().len()
        &&& self.spec_len() == sum_u64(self.spec_legs())
    }

    /// One-way: the tag "oneway" is bound to "yes".
    pub open spec fn oneway_spec(&self) -> bool {
        tag_of(self.spec_tags(), "oneway"@) == Some("yes"@)
    }

    /// Build a way, refusing it per `way_check`: every referenced node must
    /// already exist, a chain needs at least two nodes and exactly one
    /// measured leg per consecutive pair, and the total length must fit.
    pub fn new(r: Vec<i64>, t: Vec<(String, String)>, legs: Vec<u64>, nodes: &Table<TNode>) -> (w:
        Result<TWay, BuildError>)
        ensures
            match w {
                Ok(way) => {
                    &&& way_check(r@, legs@, nodes) is None
                    &&& way.spec_refs() == r@
                    &&& way.spec_tags() == t@
                    &&& way.spec_legs() == legs@
                    &&& way.spec_len() == sum_u64(legs@)
                    &&& way.wf()
                    &&& forall|i: int| 0 <= i < r@.len() ==> nodes.has(r@[i])
                },
                Err(e) => way_check(r@, legs@, nodes) == Some(e),
            },
    {
        if r.len() < 2 {
            return Err(BuildError::TooFewRefs);
        }
        if legs.len() != r.len() - 1 {
            return Err(BuildError::BadLegCount);
        }
        let n = r.len();
        let mut i: usize = 0;
        while i < n
            invariant
                i <= n,
                n == r@.len(),
                r@.len() >= 2,
                legs@.len() + 1 == r@.len(),
                forall|j: int| 0 <= j < i ==> nodes.has(r@[j]),
            decreases n - i,
        {
            if nodes.get_index(r[i]).is_none() {
                proof {
                    assert(!nodes.has(r@[i as int]));
                }
                return Err(BuildError::UnknownRef);
            }
            i = i + 1;
        }
        let m = legs.len();
        let mut total: u64 = 0;
        let mut j: usize = 0;
        proof {
            assert(legs@.take(0) =~= Seq::<u64>::empty());
        }
        while j < m
            invariant
                j <= m,
                m == legs@.len(),
                r@.len() >= 2,
                m + 1 == r@.len(),
                forall|q: int| 0 <= q < r@.len() ==> nodes.has(r@[q]),
                total == sum_u64(legs@.take(j as int)),
            decreases m - j,
        {
            proof {
                assert(legs@.take(j as int + 1).drop_last() =~= legs@.take(j as int));
                assert(legs@.take(j as int + 1).last() == legs@[j as int]);
            }
            if legs[j] > u64::MAX - total {
                proof {
                    lemma_sum_prefix(legs@, j as int + 1);
                }
                return Err(BuildError::LengthOverflow);
            }
            total = total + legs[j];
            j = j + 1;
        }
        proof {
            assert(legs@.take(m as int) =~= legs@);
        }
        Ok(TWay { refs: r, tags: t, legs, len: total })
    }

    pub fn refs(&self) -> (r: &Vec<i64>)
        ensures
            r@ == self.spec_refs(),
    {
        &self.refs
    }

    pub fn tags(&self) -> (t: &Vec<(String, String)>)
        ensures
            t@ == self.spec_tags(),
    {
        &self.tags
    }

    /// The measured leg lengths, one per consecutive node pair, millimeters.
    pub fn legs(&self) -> (l: &Vec<u64>)
        ensures
            l@ == self.spec_legs(),
    {
        &self.legs
    }

    /// The first node of the chain.
    pub fn start(&self) -> (id: i64)
        requires
            self.spec_refs().len() >= 1,
        ensures
            id == self.spec_refs().first(),
    {
        self.refs[0]
    }

    /// The last node of the chain.
    pub fn end(&self) -> (id: i64)
        requires
            self.spec_refs().len() >= 1,
        ensures
            id == self.spec_refs().last(),
    {
        self.refs[self.refs.len() - 1]
    }

    /// Total length in millimeters.
    pub fn len(&self) -> (d: u64)
        ensures
            d == self.spec_len(),
    {
        self.len
    }

    /// Whether the way may be traversed in one direction only.
    pub fn oneway(&self) -> (r: bool)
        ensures
            r == self.oneway_spec(),
    {
        let key: String = "oneway".to_owned();
        match tag_lookup(&self.tags, &key) {
            Some(v) => *v == "yes".to_owned(),
            None => false,
        }
    }

    /// The value of tag `s`, if bound.
    pub fn get(&self, s: &String) -> (r: Option<&String>)
        ensures
            match r {
                Some(v) => tag_of(self.spec_tags(), s@) == Some(v@),
                None => tag_of(self.spec_tags(), s@) is None,
            },
    {
        tag_lookup(&self.tags, s)
    }
}



/// Whether an identifier list holds `x`.
pub fn ids_contain(v: &Vec<i64>, x: i64) -> (r: bool)
    ensures
        r == v@.contains(x),
{
    let n = v.len();
    let mut i: usize = 0;
    while i < n
        invariant
            i <= n,
            n == v@.len(),
            forall|j: int| 0 <= j < i ==> v@[j] != x,
        decreases n - i,
    {
        if v[i] == x {
            return true;
        }
        i = i + 1;
    }
    false
}


/// Duplicate an identifier list.
pub fn clone_i64s(v: &Vec<i64>) -> (r: Vec<i64>)
    ensures
        r@ == v@,
{
    let n = v.len();
    let mut r: Vec<i64> = Vec::new();
    let mut i: usize = 0;
    while i < n
        invariant
            i <= n,
            n == v@.len(),
            r@ =~= v@.take(i as int),
        decreases n - i,
    {
        r.push(v[i]);
        proof {
            assert(r@ =~= v@.take(i as int + 1));
        }
        i = i + 1;
    }
    proof {
        assert(v@.take(n as int) =~= v@);
    }
    r
}

/// Duplicate a length list.
pub fn clone_u64s(v: &Vec<u64>) -> (r: Vec<u64>)
    ensures
        r@ == v@,
{
    let n = v.len();
    let mut r: Vec<u64> = Vec::new();
    let mut i: usize = 0;
    while i < n
        invariant
            i <= n,
            n == v@.len(),
            r@ =~= v@.take(i as int),
        decreases n - i,
    {
        r.push(v[i]);
        proof {
            assert(r@ =~= v@.take(i as int + 1));
        }
        i = i + 1;
    }
    proof {
        assert(v@.take(n as int) =~= v@);
    }
    r
}

/// Duplicate a tag list, pair by pair.
pub fn clone_tags(t: &Vec<(String, String)>) -> (r: Vec<(String, String)>)
    ensures
        r@ == t@,
{
    let n = t.len();
    let mut r: Vec<(String, String)> = Vec::new();
    let mut i: usize = 0;
    while i < n
        invariant
            i <= n,
            n == t@.len(),
            r@ =~= t@.take(i as int),
        decreases n - i,
    {
        r.push((t[i].0.clone(), t[i].1.clone()));
        proof {
            assert(r@ =~= t@.take(i as int + 1));
        }
        i = i + 1;
    }
    proof {
        assert(t@.take(n as int) =~= t@);
    }
    r
}

/// Scan a tag list for key `s`, from the most recent binding backwards, so
/// that the result is exactly `tag_of`.
pub fn tag_lookup<'a>(tags: &'a Vec<(String, String)>, s: &String) -> (r: Option<&'a String>)
    ensures
        match r {
            Some(v) => tag_of(tags@, s@) == Some(v@),
            None => tag_of(tags@, s@) is None,
        },
{
    let mut i: usize = tags.len();
    proof {
        assert(tags@.take(i as int) =~= tags@);
    }
    while i > 0
        invariant
            i <= tags@.len(),
            tag_of(tags@, s@) == tag_of(tags@.take(i as int), s@),
        decreases i,
    {
        i = i - 1;
        proof {
            assert(tags@.take(i as int + 1).drop_last() =~= tags@.take(i as int));
            assert(tags@.take(i as int + 1).last() == tags@[i as int]);
        }
        if tags[i].0 == *s {
            return Some(&tags[i].1);
        }
    }
    None
}

} // verus!
