use vstd::prelude::*;

verus! {

/// An association table from `i64` identifiers to values, kept as a pair of
/// parallel vectors with pairwise-distinct keys. It stands in for a hash map
/// so that lookup results and iteration order are fully determined by the
/// table's contents.
#[derive(Debug)]
pub struct Table<V> {
    keys: Vec<i64>,
    vals: Vec<V>,
}

impl<V> Table<V> {
    /// The key sequence, in insertion order.
    pub closed spec fn k(&self) -> Seq<i64> {
        self.keys@
    }

    /// The value sequence, parallel to `k()`.
    pub closed spec fn v(&self) -> Seq<V> {
        self.vals@
    }

    /// Well-formed: parallel vectors of equal length, keys pairwise distinct.
    pub open spec fn wf(&self) -> bool {
        &&& self.k().len() == self.v().len()
        &&& forall|i: int, j: int| 0 <= i < j < self.k().len() ==> self.k()[i] != self.k()[j]
    }

    /// Whether `id` is a key of the table.
    pub open spec fn has(&self, id: i64) -> bool {
        self.k().contains(id)
    }

    /// The position of `id` among the keys (meaningful when `has(id)` and `wf()`).
    pub open spec fn idx_of(&self, id: i64) -> int {
        choose|i: int| 0 <= i < self.k().len() && self.k()[i] == id
    }

    /// The value stored under `id` (meaningful when `has(id)` and `wf()`).
    pub open spec fn val_of(&self, id: i64) -> V {
        self.v()[self.idx_of(id)]
    }

    pub fn new() -> (t: Self)
        ensures
            t.wf(),
            t.k() =~= Seq::<i64>::empty(),
            t.v() =~= Seq::<V>::empty(),
    {
        Table { keys: Vec::new(), vals: Vec::new() }
    }

    pub fn len(&self) -> (n: usize)
        ensures
            n == self.k().len(),
    {
        self.keys.len()
    }

    /// Scan for `id`; the returned index is the first occurrence.
    pub fn get_index(&self, id: i64) -> (r: Option<usize>)
        ensures
            match r {
                Some(i) => {
                    &&& i < self.k().len()
                    &&& self.k()[i as int] == id
                    &&& forall|j: int| 0 <= j < i ==> self.k()[j] != id
                    &&& self.has(id)
                },
                None => !self.has(id),
            },
    {
        let n = self.keys.len();
        let mut i: usize = 0;
        while i < n
            invariant
                i <= n,
                n == self.k().len(),
                forall|j: int| 0 <= j < i ==> self.k()[j] != id,
            decreases n - i,
        {
            if self.keys[i] == id {
                return Some(i);
            }
            i = i + 1;
        }
        None
    }

    pub fn get(&self, id: i64) -> (r: Option<&V>)
        requires
            self.wf(),
        ensures
            match r {
                Some(v) => self.has(id) && *v == self.val_of(id),
                None => !self.has(id),
            },
    {
        match self.get_index(id) {
            Some(i) => {
                proof {
                    let c = self.idx_of(id);
                    assert(self.k()[i as int] == id);
                    assert(0 <= c < self.k().len() && self.k()[c] == id);
                    assert(c == i as int);
                }
                Some(&self.vals[i])
            },
            None => None,
        }
    }

    pub fn key_at(&self, i: usize) -> (id: i64)
        requires
            i < self.k().len(),
        ensures
            id == self.k()[i as int],
    {
        self.keys[i]
    }

    pub fn val_at(&self, i: usize) -> (v: &V)
        requires
            i < self.v().len(),
        ensures
            *v == self.v()[i as int],
    {
        &self.vals[i]
    }

    pub fn set_at(&mut self, i: usize, v: V)
        requires
            i < old(self).v().len(),
        ensures
            final(self).k() == old(self).k(),
            final(self).v() == old(self).v().update(i as int, v),
    {
        self.vals.set(i, v);
    }

    /// Insert or replace: a present key keeps its position and gets the new
    /// value; an absent key is appended.
    pub fn insert(&mut self, id: i64, v: V)
        requires
            old(self).wf(),
        ensures
            final(self).wf(),
            old(self).has(id) ==> {
                &&& final(self).k() == old(self).k()
                &&& final(self).v() == old(self).v().update(old(self).idx_of(id), v)
            },
            !old(self).has(id) ==> {
                &&& final(self).k() == old(self).k().push(id)
                &&& final(self).v() == old(self).v().push(v)
            },
            final(self).has(id),
            final(self).val_of(id) == v,
            forall|other: i64| other != id ==> final(self).has(other) == old(self).has(other),
            forall|other: i64|
                other != id && old(self).has(other)
                    ==> final(self).val_of(other) == old(self).val_of(other),
    {
        let ghost pre = *self;
        match self.get_index(id) {
            Some(i) => {
                proof {
                    let c = pre.idx_of(id);
                    assert(0 <= c < pre.k().len() && pre.k()[c] == id);
                    assert(c == i as int);
                }
                self.vals.set(i, v);
                proof {
                    lemma_table_frame(pre, *self, id, i as int);
                }
            },
            None => {
                self.keys.push(id);
                self.vals.push(v);
                proof {
                    assert(self.k().last() == id);
                    assert(self.has(id));
                    let c = self.idx_of(id);
                    assert(0 <= c < self.k().len() && self.k()[c] == id);
                    assert(c == self.k().len() - 1);
                    assert forall|other: i64| other != id implies
                        #[trigger] self.has(other) == pre.has(other) by {
                        if pre.has(other) {
                            let w = choose|w: int|
                                0 <= w < pre.k().len() && pre.k()[w] == other;
                            assert(self.k()[w] == other);
                        }
                        if self.has(other) {
                            let w = choose|w: int|
                                0 <= w < self.k().len() && self.k()[w] == other;
                            assert(w < pre.k().len());
                            assert(pre.k()[w] == other);
                        }
                    }
                    assert forall|other: i64| other != id && pre.has(other) implies
                        #[trigger] self.val_of(other) == pre.val_of(other) by {
                        let w = self.idx_of(other);
                        let w0 = pre.idx_of(other);
                        assert(0 <= w0 < pre.k().len() && pre.k()[w0] == other);
                        assert(self.k()[w0] == other);
                        assert(0 <= w < self.k().len() && self.k()[w] == other);
                        assert(w < pre.k().len());
                        assert(w == w0);
                    }
                }
            },
        }
    }
}

/// After replacing the value at the position of key `id`, every other key
/// still maps to its old value.
proof fn lemma_table_frame<V>(pre: Table<V>, post: Table<V>, id: i64, i: int)
    requires
        pre.wf(),
        0 <= i < pre.k().len(),
        pre.k()[i] == id,
        post.k() == pre.k(),
        post.v().len() == pre.v().len(),
        forall|j: int| 0 <= j < pre.v().len() && j != i ==> post.v()[j] == pre.v()[j],
    ensures
        post.wf(),
        post.has(id),
        post.val_of(id) == post.v()[i],
        forall|other: i64| other != id ==> post.has(other) == pre.has(other),
        forall|other: i64|
            other != id && pre.has(other) ==> post.val_of(other) == pre.val_of(other),
{
    assert(post.has(id));
    let c = post.idx_of(id);
    assert(0 <= c < post.k().len() && post.k()[c] == id);
    assert(c == i);
    assert forall|other: i64| other != id && pre.has(other) implies
        #[trigger] post.val_of(other) == pre.val_of(other) by {
        let w = post.idx_of(other);
        let w0 = pre.idx_of(other);
        assert(0 <= w0 < pre.k().len() && pre.k()[w0] == other);
        assert(post.k()[w0] == other);
        assert(0 <= w < post.k().len() && post.k()[w] == other);
        assert(w == w0);
        assert(w != i);
    }
}

} // verus!
