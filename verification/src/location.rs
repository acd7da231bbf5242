use vstd::prelude::*;
use vstd::string::StrSliceExecFns;
use vstd::string::StringExecFns;

verus! {

/// A free-text postal address, to be resolved by an outside geocoding
/// service.
#[derive(Debug)]
pub struct Address {
    pub ad: String,
}

impl Address {
    /// The address as a URL query fragment: every space becomes a plus sign.
    pub fn get_url_string(&self) -> (r: String)
        ensures
            r@ == self.ad@.map_values(
                |c: char|
                    if c == ' ' {
                        '+'
                    } else {
                        c
                    },
            ),
    {
        let n = self.ad.as_str().unicode_len();
        let mut out = String::new();
        let mut i: usize = 0;
        proof {
            assert(out@ =~= self.ad@.take(0).map_values(
                |c: char|
                    if c == ' ' {
                        '+'
                    } else {
                        c
                    },
            ));
        }
        while i < n
            invariant
                i <= n,
                n == self.ad@.len(),
                out@ == self.ad@.take(i as int).map_values(
                    |c: char|
                        if c == ' ' {
                            '+'
                        } else {
                            c
                        },
                ),
            decreases n - i,
        {
            let ghost pre = out@;
            let c = self.ad.as_str().get_char(i);
            if c == ' ' {
                out.append("+");
                proof {
                    reveal_strlit("+");
                    assert(out@ =~= pre.push('+'));
                }
            } else {
                let piece = self.ad.as_str().substring_char(i, i + 1);
                out.append(piece);
                proof {
                    assert(piece@ =~= seq![self.ad@[i as int]]);
                    assert(out@ =~= pre.push(self.ad@[i as int]));
                }
            }
            proof {
                assert(out@ =~= self.ad@.take(i as int + 1).map_values(
                    |c2: char|
                        if c2 == ' ' {
                            '+'
                        } else {
                            c2
                        },
                ));
            }
            i = i + 1;
        }
        proof {
            assert(self.ad@.take(n as int) =~= self.ad@);
        }
        out
    }
}

/// The first entry with the smallest distance, `(0, u64::MAX)` for an empty
/// list.
pub open spec fn nearest_spec(s: Seq<(i64, u64)>) -> (i64, u64)
    decreases s.len(),
{
    if s.len() == 0 {
        (0i64, u64::MAX)
    } else {
        let p = nearest_spec(s.drop_last());
        if s.last().1 < p.1 {
            s.last()
        } else {
            p
        }
    }
}

/// Among candidate nodes, each an identifier with its measured distance in
/// millimeters, pick the nearest: the first entry attaining the smallest
/// distance. An empty list yields `(0, u64::MAX)`.
pub fn nearest_node(cands: &Vec<(i64, u64)>) -> (r: (i64, u64))
    ensures
        r == nearest_spec(cands@),
        forall|j: int| 0 <= j < cands@.len() ==> r.1 <= (#[trigger] cands@[j]).1,
        cands@.len() > 0 && r.1 < u64::MAX ==> exists|j: int|
            0 <= j < cands@.len() && #[trigger] cands@[j] == r,
{
    let n = cands.len();
    let mut id: i64 = 0;
    let mut best: u64 = u64::MAX;
    let mut i: usize = 0;
    proof {
        assert(cands@.take(0) =~= Seq::<(i64, u64)>::empty());
    }
    while i < n
        invariant
            i <= n,
            n == cands@.len(),
            (id, best) == nearest_spec(cands@.take(i as int)),
            forall|j: int| 0 <= j < i ==> best <= (#[trigger] cands@[j]).1,
            i > 0 && best < u64::MAX ==> exists|j: int|
                0 <= j < i && #[trigger] cands@[j] == (id, best),
        decreases n - i,
    {
        proof {
            assert(cands@.take(i as int + 1).drop_last() =~= cands@.take(i as int));
            assert(cands@.take(i as int + 1).last() == cands@[i as int]);
        }
        let d: u64 = cands[i].1;
        if d < best {
            id = cands[i].0;
            best = d;
            proof {
                assert(cands@[i as int] == (id, best));
            }
        }
        i = i + 1;
    }
    proof {
        assert(cands@.take(n as int) =~= cands@);
    }
    (id, best)
}

} // verus!
