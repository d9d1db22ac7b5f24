//! Ray-surface intersections and the selection of the nearest visible hit.
//!
//! The ray parameter `t` of an intersection is carried as the bit pattern of
//! an IEEE-754 binary64 number (`f64::to_bits`). Intersections are ordered by
//! the number that pattern encodes: for two patterns that are not NaN, `a < b`
//! as numbers exactly when `t_rank(a) < t_rank(b)`, and both zeros rank
//! alike. The ranking orders every pattern, NaN included: a NaN ranks beyond
//! the infinity of its sign, and is never a hit.

use vstd::prelude::*;

verus! {

/// Bit of a binary64 pattern that holds the sign.
pub const SIGN_BIT: u64 = 0x8000_0000_0000_0000;

/// Largest magnitude (all bits but the sign) that encodes an infinity; any
/// larger magnitude encodes a NaN.
pub const INFINITY_BITS: u64 = 0x7ff0_0000_0000_0000;

/// The position of the number encoded by `bits` on the number line: the
/// magnitude bits, negated for a negative sign. Both zeros rank 0.
pub open spec fn t_rank(bits: u64) -> int {
    if bits >= SIGN_BIT {
        -((bits - SIGN_BIT) as int)
    } else {
        bits as int
    }
}

/// Whether `bits` encodes a NaN.
pub open spec fn t_is_nan(bits: u64) -> bool {
    if bits >= SIGN_BIT {
        bits - SIGN_BIT > INFINITY_BITS
    } else {
        bits > INFINITY_BITS
    }
}

/// Whether `bits` encodes a number strictly greater than zero.
pub open spec fn t_is_positive(bits: u64) -> bool {
    !t_is_nan(bits) && t_rank(bits) > 0
}

/// Computes `t_rank`.
fn rank_of(bits: u64) -> (r: i64)
    ensures
        r as int == t_rank(bits),
{
    if bits >= SIGN_BIT {
        -((bits - SIGN_BIT) as i64)
    } else {
        bits as i64
    }
}

/// Computes `t_is_positive`.
fn is_positive(bits: u64) -> (r: bool)
    ensures
        r == t_is_positive(bits),
{
    bits < SIGN_BIT && bits != 0 && bits <= INFINITY_BITS
}

/// Computes `t_is_nan`.
fn is_nan(bits: u64) -> (r: bool)
    ensures
        r == t_is_nan(bits),
{
    if bits >= SIGN_BIT {
        bits - SIGN_BIT > INFINITY_BITS
    } else {
        bits > INFINITY_BITS
    }
}

/// A ray-surface intersection: the ray parameter `t` (as binary64 bits) and
/// the handle of the shape that was hit.
#[derive(Clone, Copy, Debug, PartialEq, Eq, Structural)]
pub struct Intersection {
    pub t_bits: u64,
    pub object: usize,
}

impl Intersection {
    pub fn new(t_bits: u64, object: usize) -> (r: Intersection)
        ensures
            r.t_bits == t_bits,
            r.object == object,
    {
        Intersection { t_bits, object }
    }
}

/// Whether `s[k]` is the hit of `s`: it lies strictly in front of the ray
/// origin, no such intersection has a smaller `t`, and none before it has
/// the same `t`.
pub open spec fn is_hit_at(s: Seq<Intersection>, k: int) -> bool {
    &&& 0 <= k < s.len()
    &&& t_is_positive(s[k].t_bits)
    &&& forall|j: int|
        0 <= j < s.len() && t_is_positive(#[trigger] s[j].t_bits) ==> t_rank(s[k].t_bits)
            <= t_rank(s[j].t_bits)
    &&& forall|j: int|
        0 <= j < k && t_is_positive(#[trigger] s[j].t_bits) ==> t_rank(s[k].t_bits) < t_rank(
            s[j].t_bits,
        )
}

/// Whether no intersection of `s` lies strictly in front of the ray origin.
pub open spec fn has_no_hit(s: Seq<Intersection>) -> bool {
    forall|j: int| 0 <= j < s.len() ==> !t_is_positive(#[trigger] s[j].t_bits)
}

/// Whether `s` is in ascending order of `t`.
pub open spec fn sorted_by_t(s: Seq<Intersection>) -> bool {
    forall|i: int, j: int|
        0 <= i < j < s.len() ==> t_rank(#[trigger] s[i].t_bits) <= t_rank(#[trigger] s[j].t_bits)
}

/// The predicate "its `t` ranks `r`".
pub open spec fn rank_is(r: int) -> spec_fn(Intersection) -> bool {
    |x: Intersection| t_rank(x.t_bits) == r
}

/// Whether `a` and `b` hold, for every value of `t`, the same intersections
/// with that `t` in the same order.
pub open spec fn same_runs(a: Seq<Intersection>, b: Seq<Intersection>) -> bool {
    forall|r: int| #[trigger] a.filter(rank_is(r)) == b.filter(rank_is(r))
}

/// Inserting `e` into sorted `s` just after every member whose `t` is not
/// larger adds `e` at the end of its run and leaves the other runs alone.
proof fn lemma_insert_keeps_runs(s: Seq<Intersection>, p: int, e: Intersection, r: int)
    requires
        0 <= p <= s.len(),
        forall|k: int| 0 <= k < p ==> t_rank(#[trigger] s[k].t_bits) <= t_rank(e.t_bits),
        forall|k: int| p <= k < s.len() ==> t_rank(#[trigger] s[k].t_bits) > t_rank(e.t_bits),
    ensures
        s.insert(p, e).filter(rank_is(r)) == if t_rank(e.t_bits) == r {
            s.filter(rank_is(r)).push(e)
        } else {
            s.filter(rank_is(r))
        },
{
    broadcast use Seq::filter_distributes_over_add;

    let a = s.take(p);
    let b = s.skip(p);
    assert(s =~= a + b);
    assert(s.insert(p, e) =~= (a + seq![e]) + b);
    assert(seq![e] =~= Seq::<Intersection>::empty().push(e));
    Seq::<Intersection>::empty().lemma_filter_push(e, rank_is(r));
    assert(Seq::<Intersection>::empty().filter(rank_is(r)) =~= Seq::<Intersection>::empty()) by {
        reveal(Seq::filter);
    }
    if t_rank(e.t_bits) == r {
        assert forall|k: int| 0 <= k < b.len() implies !rank_is(r)(#[trigger] b[k]) by {
            assert(b[k] == s[p + k]);
        }
        b.lemma_all_neg_filter_empty(rank_is(r));
        assert(b.filter(rank_is(r)) =~= Seq::<Intersection>::empty());
        assert(s.insert(p, e).filter(rank_is(r)) =~= s.filter(rank_is(r)).push(e));
    } else {
        assert(s.insert(p, e).filter(rank_is(r)) =~= s.filter(rank_is(r)));
    }
}

/// The intersections with the ray parameters `ts`, in order, on `object`.
pub open spec fn on_object(object: usize, ts: Seq<u64>) -> Seq<Intersection> {
    ts.map_values(|t: u64| Intersection { t_bits: t, object })
}

/// The intersections of `distances[0]` on shape 0, then of `distances[1]` on
/// shape 1, and so on.
pub open spec fn on_objects(distances: Seq<Vec<u64>>) -> Seq<Intersection>
    decreases distances.len(),
{
    if distances.len() == 0 {
        Seq::empty()
    } else {
        on_objects(distances.drop_last()) + on_object(
            (distances.len() - 1) as usize,
            distances.last()@,
        )
    }
}

/// An ordered collection of intersections.
#[derive(Clone, Debug)]
pub struct Intersections {
    intersections: Vec<Intersection>,
}

impl View for Intersections {
    type V = Seq<Intersection>;

    closed spec fn view(&self) -> Seq<Intersection> {
        self.intersections@
    }
}

impl Intersections {
    pub fn new(intersections: Vec<Intersection>) -> (r: Intersections)
        ensures
            r@ == intersections@,
    {
        Intersections { intersections }
    }

    /// The intersections with the ray parameters `ts`, in that order, all on
    /// the shape `object`.
    pub fn from_distances(object: usize, ts: &Vec<u64>) -> (r: Intersections)
        ensures
            r@ == on_object(object, ts@),
    {
        let mut v: Vec<Intersection> = Vec::new();
        let mut i: usize = 0;
        while i < ts.len()
            invariant
                i <= ts@.len(),
                v@ == on_object(object, ts@.take(i as int)),
            decreases ts@.len() - i,
        {
            v.push(Intersection::new(ts[i], object));
            i += 1;
            assert(v@ =~= on_object(object, ts@.take(i as int)));
        }
        assert(ts@.take(ts@.len() as int) =~= ts@);
        Intersections { intersections: v }
    }

    /// The intersections of a ray with every shape of a scene, in ascending
    /// order of `t`: `distances[i]` holds the ray parameters at which the
    /// ray meets the shape with handle `i`. Equal `t` keep the order of the
    /// shapes, then that of their lists.
    pub fn of_objects(distances: &Vec<Vec<u64>>) -> (r: Intersections)
        ensures
            sorted_by_t(r@),
            r@.to_multiset() == on_objects(distances@).to_multiset(),
            same_runs(r@, on_objects(distances@)),
    {
        let mut xs = Intersections::new(Vec::new());
        let mut i: usize = 0;
        while i < distances.len()
            invariant
                i <= distances@.len(),
                xs@ == on_objects(distances@.take(i as int)),
            decreases distances@.len() - i,
        {
            xs.extend(&Intersections::from_distances(i, &distances[i]));
            assert(distances@.take(i + 1).drop_last() =~= distances@.take(i as int));
            i += 1;
        }
        assert(distances@.take(distances@.len() as int) =~= distances@);
        xs.sort();
        xs
    }

    pub fn count(&self) -> (r: usize)
        ensures
            r == self@.len(),
    {
        self.intersections.len()
    }

    pub fn at(&self, index: usize) -> (r: Intersection)
        requires
            index < self@.len(),
        ensures
            r == self@[index as int],
    {
        self.intersections[index]
    }

    /// Appends the members of `other`, in order.
    pub fn extend(&mut self, other: &Intersections)
        ensures
            final(self)@ == old(self)@ + other@,
    {
        let mut i: usize = 0;
        while i < other.intersections.len()
            invariant
                i <= other@.len(),
                self@ == old(self)@ + other@.take(i as int),
            decreases other@.len() - i,
        {
            self.intersections.push(other.intersections[i]);
            i += 1;
            assert(other@.take(i as int) == other@.take(i - 1).push(other@[i - 1]));
        }
        assert(other@.take(other@.len() as int) == other@);
    }

    /// Puts the intersections in ascending order of `t`, keeping the input
    /// order among those with equal `t`.
    pub fn sort(&mut self)
        ensures
            final(self)@.len() == old(self)@.len(),
            sorted_by_t(final(self)@),
            final(self)@.to_multiset() == old(self)@.to_multiset(),
            same_runs(final(self)@, old(self)@),
    {
        let input = Ghost(self@);
        let mut out: Vec<Intersection> = Vec::new();
        let mut i: usize = 0;
        proof {
            assert forall|r: int| #[trigger] out@.filter(rank_is(r)) == input@.take(0).filter(rank_is(r)) by {
                assert(out@ =~= input@.take(0));
            }
            assert(out@ =~= input@.take(0));
        }
        while i < self.intersections.len()
            invariant
                self@ == input@,
                i <= input@.len(),
                out@.len() == i,
                sorted_by_t(out@),
                out@.to_multiset() == input@.take(i as int).to_multiset(),
                same_runs(out@, input@.take(i as int)),
            decreases input@.len() - i,
        {
            let e = self.intersections[i];
            let re = rank_of(e.t_bits);
            let mut p: usize = out.len();
            while p > 0 && rank_of(out[p - 1].t_bits) > re
                invariant
                    p <= out@.len(),
                    forall|k: int| p <= k < out@.len() ==> t_rank(#[trigger] out@[k].t_bits) > re,
                decreases p,
            {
                p -= 1;
            }
            let ghost before = out@;
            proof {
                assert forall|k: int| 0 <= k < p implies t_rank(#[trigger] before[k].t_bits) <= re by {
                    assert(t_rank(before[p - 1].t_bits) <= re);
                    if k < p - 1 {
                        assert(t_rank(before[k].t_bits) <= t_rank(before[p - 1].t_bits));
                    }
                }
            }
            out.insert(p, e);
            proof {
                let next = input@.take(i + 1);
                assert(next =~= input@.take(i as int).push(e));
                assert(out@ == before.insert(p as int, e));
                vstd::seq_lib::to_multiset_insert(before, p as int, e);
                vstd::seq_lib::to_multiset_build(input@.take(i as int), e);
                assert forall|r: int| #[trigger] out@.filter(rank_is(r)) == next.filter(rank_is(r)) by {
                    lemma_insert_keeps_runs(before, p as int, e, r);
                    input@.take(i as int).lemma_filter_push(e, rank_is(r));
                    assert(before.filter(rank_is(r)) == input@.take(i as int).filter(rank_is(r)));
                }
                assert forall|a: int, b: int| 0 <= a < b < out@.len() implies t_rank(
                    #[trigger] out@[a].t_bits,
                ) <= t_rank(#[trigger] out@[b].t_bits) by {
                    if a < p && b < p {
                    } else if a < p && b == p {
                    } else if a < p {
                        assert(out@[b] == before[b - 1]);
                    } else if a == p {
                        assert(out@[b] == before[b - 1]);
                    } else {
                        assert(out@[a] == before[a - 1]);
                        assert(out@[b] == before[b - 1]);
                    }
                }
            }
            i += 1;
        }
        proof {
            assert(input@.take(input@.len() as int) =~= input@);
        }
        self.intersections = out;
    }

    /// The intersection with the smallest strictly positive `t`, the first
    /// of them where several share it; `None` when no `t` is positive.
    pub fn hit(&self) -> (r: Option<Intersection>)
        ensures
            r is None <==> has_no_hit(self@),
            r matches Some(h) ==> exists|k: int| is_hit_at(self@, k) && self@[k] == h,
    {
        let s = Ghost(self@);
        let mut lowest: Option<usize> = None;
        let mut i: usize = 0;
        while i < self.intersections.len()
            invariant
                i <= s@.len(),
                s@ == self@,
                lowest is None ==> forall|j: int| 0 <= j < i ==> !t_is_positive(#[trigger] s@[j].t_bits),
                lowest matches Some(k) ==> {
                    &&& k < i
                    &&& t_is_positive(s@[k as int].t_bits)
                    &&& forall|j: int|
                        0 <= j < i && t_is_positive(#[trigger] s@[j].t_bits) ==> t_rank(
                            s@[k as int].t_bits,
                        ) <= t_rank(s@[j].t_bits)
                    &&& forall|j: int|
                        0 <= j < k && t_is_positive(#[trigger] s@[j].t_bits) ==> t_rank(
                            s@[k as int].t_bits,
                        ) < t_rank(s@[j].t_bits)
                },
            decreases s@.len() - i,
        {
            let t = self.intersections[i].t_bits;
            if is_positive(t) {
                match lowest {
                    Some(k) => {
                        if rank_of(t) < rank_of(self.intersections[k].t_bits) {
                            lowest = Some(i);
                        }
                    },
                    None => {
                        lowest = Some(i);
                    },
                }
            }
            i += 1;
        }
        match lowest {
            Some(k) => {
                assert(is_hit_at(s@, k as int));
                Some(self.intersections[k])
            },
            None => None,
        }
    }

    /// Whether the hit lies before the ray parameter `limit_bits`: an
    /// object between a point and a light at that distance shadows the
    /// point, one beyond the light does not.
    pub fn hit_closer_than(&self, limit_bits: u64) -> (r: bool)
        ensures
            r == exists|k: int|
                is_hit_at(self@, k) && !t_is_nan(limit_bits) && t_rank(self@[k].t_bits) < t_rank(
                    limit_bits,
                ),
    {
        match self.hit() {
            Some(h) => {
                let r = !is_nan(limit_bits) && rank_of(h.t_bits) < rank_of(limit_bits);
                proof {
                    let k0 = choose|k: int| is_hit_at(self@, k) && self@[k] == h;
                    assert forall|k: int| is_hit_at(self@, k) implies t_rank(self@[k].t_bits)
                        == t_rank(h.t_bits) by {
                        assert(t_rank(self@[k].t_bits) <= t_rank(self@[k0].t_bits));
                        assert(t_rank(self@[k0].t_bits) <= t_rank(self@[k].t_bits));
                    }
                }
                r
            },
            None => false,
        }
    }
}

} // verus!
