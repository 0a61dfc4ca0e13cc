use vstd::prelude::*;

verus! {

/// Product of the first `n` dimension lengths.
pub open spec fn prod_upto(s: Seq<usize>, n: int) -> int
    decreases n,
{
    if n <= 0 {
        1
    } else {
        prod_upto(s, n - 1) * s[n - 1]
    }
}

/// Number of elements of an array of shape `s` (1 for rank 0).
pub open spec fn size(s: Seq<usize>) -> int
    decreases s.len(),
{
    if s.len() == 0 {
        1
    } else {
        s[0] * size(s.drop_first())
    }
}

/// Every dimension length is positive.
pub open spec fn positive(s: Seq<usize>) -> bool {
    forall|d: int| 0 <= d < s.len() ==> s[d] > 0
}

/// Every prefix product of the shape fits in a `usize`.
pub open spec fn fits(s: Seq<usize>) -> bool {
    forall|n: int| 0 <= n <= s.len() ==> prod_upto(s, n) <= usize::MAX
}

/// The index `ix` addresses an element (or a slice) of shape `s`.
pub open spec fn accommodates(s: Seq<usize>, ix: Seq<usize>) -> bool {
    ix.len() <= s.len() && forall|d: int| 0 <= d < ix.len() ==> ix[d] < s[d]
}

/// A full-rank index accommodated by `s`.
pub open spec fn full_index(s: Seq<usize>, ix: Seq<usize>) -> bool {
    ix.len() == s.len() && accommodates(s, ix)
}

/// Stride of dimension `d`: 1 for the first dimension, the length of the
/// immediately preceding dimension for every other one.
pub open spec fn stride(s: Seq<usize>, d: int) -> int {
    if d == 0 {
        1
    } else {
        s[d - 1] as int
    }
}

/// Sum of the first `n` coordinates, each times its stride.
pub open spec fn offset_upto(ix: Seq<usize>, s: Seq<usize>, n: int) -> int
    decreases n,
{
    if n <= 0 {
        0
    } else {
        offset_upto(ix, s, n - 1) + ix[n - 1] * stride(s, n - 1)
    }
}

/// How many coordinates take part in the offset: one more than the rank at most.
pub open spec fn min_len(ix: Seq<usize>, s: Seq<usize>) -> int {
    if ix.len() <= s.len() + 1 {
        ix.len() as int
    } else {
        (s.len() + 1) as int
    }
}

/// Flat offset of index `ix` under shape `s`. Coordinates beyond the shape's
/// rank plus one are not counted.
///
/// The stride of a dimension is the length of the dimension just before it,
/// not the product of all earlier lengths. Up to rank 2 this is the usual
/// flattening with dimension 0 fastest; from rank 3 on, distinct indices may
/// share a slot (under `[3, 3, 3]`, `[0, 1, 0]` and `[0, 0, 1]` both land on 3).
/// This layout is kept on purpose, so that stored arrays keep their slots.
pub open spec fn offset(ix: Seq<usize>, s: Seq<usize>) -> int {
    offset_upto(ix, s, min_len(ix, s))
}

/// Mixed-radix value of a full-rank index, dimension 0 least significant.
pub open spec fn rank_of(ix: Seq<usize>, s: Seq<usize>) -> int
    decreases s.len(),
{
    if s.len() == 0 || ix.len() == 0 {
        0
    } else {
        ix[0] + s[0] * rank_of(ix.drop_first(), s.drop_first())
    }
}

/// The `p`-th index of the odometer enumeration of shape `s`.
pub open spec fn coords(s: Seq<usize>, p: int) -> Seq<usize>
    decreases s.len(),
{
    if s.len() == 0 {
        Seq::empty()
    } else {
        seq![(p % (s[0] as int)) as usize] + coords(s.drop_first(), p / (s[0] as int))
    }
}

/// Number of indices that the enumeration of `s` yields.
pub open spec fn total(s: Seq<usize>) -> int {
    if s.len() == 0 {
        0
    } else {
        size(s)
    }
}

/// The whole enumeration of `s`, in odometer order.
pub open spec fn enumeration(s: Seq<usize>) -> Seq<Seq<usize>> {
    Seq::new(total(s) as nat, |p: int| coords(s, p))
}


/// Products of positive lengths are positive.
pub proof fn lemma_prod_positive(s: Seq<usize>, n: int)
    requires
        positive(s),
        0 <= n <= s.len(),
    ensures
        prod_upto(s, n) >= 1,
    decreases n,
{
    if n > 0 {
        lemma_prod_positive(s, n - 1);
        let a = prod_upto(s, n - 1);
        let b = s[n - 1] as int;
        assert(a * b >= 1) by (nonlinear_arith)
            requires
                a >= 1,
                b >= 1,
        ;
    }
}

/// Prefix products of positive lengths never shrink.
pub proof fn lemma_prod_mono(s: Seq<usize>, m: int, n: int)
    requires
        positive(s),
        0 <= m <= n <= s.len(),
    ensures
        prod_upto(s, m) <= prod_upto(s, n),
    decreases n - m,
{
    if m < n {
        lemma_prod_mono(s, m, n - 1);
        lemma_prod_positive(s, n - 1);
        let a = prod_upto(s, n - 1);
        let b = s[n - 1] as int;
        assert(a <= a * b) by (nonlinear_arith)
            requires
                a >= 1,
                b >= 1,
        ;
    }
}

proof fn lemma_prod_split(s: Seq<usize>, n: int)
    requires
        1 <= n <= s.len(),
    ensures
        prod_upto(s, n) == s[0] * prod_upto(s.drop_first(), n - 1),
    decreases n,
{
    let t = s.drop_first();
    if n == 1 {
        assert(prod_upto(s, 0) == 1);
        assert(prod_upto(t, 0) == 1);
    } else {
        lemma_prod_split(s, n - 1);
        let a = s[0] as int;
        let b = prod_upto(t, n - 2);
        let c = s[n - 1] as int;
        assert(t[n - 2] == s[n - 1]);
        assert((a * b) * c == a * (b * c)) by (nonlinear_arith);
        assert(prod_upto(t, n - 1) == b * c);
    }
}

/// The size of a shape is the product of all its dimension lengths.
pub proof fn lemma_size(s: Seq<usize>)
    ensures
        size(s) == prod_upto(s, s.len() as int),
    decreases s.len(),
{
    if s.len() > 0 {
        lemma_size(s.drop_first());
        lemma_prod_split(s, s.len() as int);
    }
}

/// An accommodated index lands inside the flat storage: its offset stays
/// below the product of the dimensions that it spans.
pub proof fn lemma_offset_bound(ix: Seq<usize>, s: Seq<usize>, n: int)
    requires
        positive(s),
        accommodates(s, ix),
        0 <= n <= ix.len(),
    ensures
        0 <= offset_upto(ix, s, n) < prod_upto(s, n),
    decreases n,
{
    lemma_prod_positive(s, n);
    if n > 0 {
        lemma_offset_bound(ix, s, n - 1);
        let o = offset_upto(ix, s, n - 1);
        let pp = prod_upto(s, n - 1);
        let st = stride(s, n - 1);
        let x = ix[n - 1] as int;
        let len = s[n - 1] as int;
        if n - 1 > 0 {
            lemma_prod_positive(s, n - 2);
            let q = prod_upto(s, n - 2);
            assert(st <= q * st) by (nonlinear_arith)
                requires
                    q >= 1,
                    st >= 0,
            ;
        }
        assert(st <= pp);
        assert(o + x * st < pp * len) by (nonlinear_arith)
            requires
                0 <= o < pp,
                0 <= x < len,
                0 <= st <= pp,
        ;
    }
}

pub proof fn lemma_offset_in_range(ix: Seq<usize>, s: Seq<usize>)
    requires
        positive(s),
        accommodates(s, ix),
    ensures
        0 <= offset(ix, s) < size(s),
{
    lemma_offset_bound(ix, s, ix.len() as int);
    lemma_prod_mono(s, ix.len() as int, s.len() as int);
    lemma_size(s);
}

pub proof fn lemma_size_positive(s: Seq<usize>)
    requires
        positive(s),
    ensures
        size(s) >= 1,
{
    lemma_size(s);
    lemma_prod_positive(s, s.len() as int);
}

/// The mixed-radix value of a full-rank index lies in `[0, size(s))`.
pub proof fn lemma_rank_bound(ix: Seq<usize>, s: Seq<usize>)
    requires
        positive(s),
        full_index(s, ix),
    ensures
        0 <= rank_of(ix, s) < size(s),
    decreases s.len(),
{
    if s.len() > 0 {
        let t = s.drop_first();
        let jx = ix.drop_first();
        lemma_rank_bound(jx, t);
        let r = rank_of(jx, t);
        let z = size(t);
        let a = ix[0] as int;
        let b = s[0] as int;
        assert(0 <= a + b * r < b * z) by (nonlinear_arith)
            requires
                0 <= a < b,
                0 <= r < z,
        ;
    }
}

/// Reading the mixed-radix value back as digits gives the index again.
pub proof fn lemma_coords_rank(ix: Seq<usize>, s: Seq<usize>)
    requires
        positive(s),
        full_index(s, ix),
    ensures
        coords(s, rank_of(ix, s)) == ix,
    decreases s.len(),
{
    if s.len() > 0 {
        let t = s.drop_first();
        let jx = ix.drop_first();
        lemma_coords_rank(jx, t);
        lemma_rank_bound(jx, t);
        let r = rank_of(jx, t);
        let a = ix[0] as int;
        let b = s[0] as int;
        let p = a + b * r;
        assert(p % b == a && p / b == r) by {
            assert(p == r * b + a) by (nonlinear_arith)
                requires
                    p == a + b * r,
            ;
            vstd::arithmetic::div_mod::lemma_fundamental_div_mod_converse(p, b, r, a);
        }
        assert(coords(s, p) =~= ix);
    }
}

/// The `p`-th index of the enumeration is a full-rank index whose value is `p`.
pub proof fn lemma_rank_coords(s: Seq<usize>, p: int)
    requires
        positive(s),
        0 <= p < size(s),
    ensures
        full_index(s, coords(s, p)),
        rank_of(coords(s, p), s) == p,
    decreases s.len(),
{
    if s.len() > 0 {
        let t = s.drop_first();
        let b = s[0] as int;
        let q = p / b;
        let a = p % b;
        assert(p == b * q + a && 0 <= a < b) by {
            vstd::arithmetic::div_mod::lemma_fundamental_div_mod(p, b);
        }
        assert(0 <= q < size(t)) by (nonlinear_arith)
            requires
                p == b * q + a,
                0 <= a < b,
                0 <= p < b * size(t),
        ;
        lemma_rank_coords(t, q);
        let c = coords(s, p);
        assert(c.drop_first() =~= coords(t, q));
    }
}


/// One step of the odometer: the digits below `d` were at their maximum and
/// wrap to 0, digit `d` goes up by one, the rest stay; the value goes up by one.
proof fn lemma_carry(old: Seq<usize>, new: Seq<usize>, s: Seq<usize>, d: int)
    requires
        positive(s),
        full_index(s, old),
        new.len() == s.len(),
        0 <= d < s.len(),
        forall|j: int| 0 <= j < d ==> old[j] == s[j] - 1 && new[j] == 0,
        new[d] == old[d] + 1,
        old[d] + 1 < s[d],
        forall|j: int| d < j < s.len() ==> new[j] == old[j],
    ensures
        full_index(s, new),
        rank_of(new, s) == rank_of(old, s) + 1,
    decreases d,
{
    let t = s.drop_first();
    if d == 0 {
        assert(new.drop_first() =~= old.drop_first());
    } else {
        lemma_carry(old.drop_first(), new.drop_first(), t, d - 1);
        let r = rank_of(old.drop_first(), t);
        let b = s[0] as int;
        assert(0 + b * (r + 1) == (b - 1) + b * r + 1) by (nonlinear_arith);
    }
}

/// An index whose every digit is at its maximum is the last one.
proof fn lemma_all_max(old: Seq<usize>, s: Seq<usize>)
    requires
        positive(s),
        old.len() == s.len(),
        forall|j: int| 0 <= j < s.len() ==> old[j] == s[j] - 1,
    ensures
        rank_of(old, s) == size(s) - 1,
    decreases s.len(),
{
    if s.len() > 0 {
        let t = s.drop_first();
        lemma_all_max(old.drop_first(), t);
        let b = s[0] as int;
        let z = size(t);
        assert((b - 1) + b * (z - 1) == b * z - 1) by (nonlinear_arith);
    }
}

proof fn lemma_offset_mono(ix: Seq<usize>, s: Seq<usize>, m: int, n: int)
    requires
        0 <= m <= n,
    ensures
        0 <= offset_upto(ix, s, m) <= offset_upto(ix, s, n),
    decreases n,
{
    if m < n {
        lemma_offset_mono(ix, s, m, n - 1);
        let x = ix[n - 1] as int;
        let st = stride(s, n - 1);
        assert(x * st >= 0) by (nonlinear_arith)
            requires
                x >= 0,
                st >= 0,
        ;
    } else if n > 0 {
        lemma_offset_mono(ix, s, n - 1, n - 1);
        let x = ix[n - 1] as int;
        let st = stride(s, n - 1);
        assert(x * st >= 0) by (nonlinear_arith)
            requires
                x >= 0,
                st >= 0,
        ;
    }
}

/// Dimensions and their lengths.
#[derive(Clone, PartialEq, Eq, Debug)]
pub struct Shape(pub Vec<usize>);

/// Coordinates of one element, dimension by dimension.
#[derive(Clone, PartialEq, Eq, Debug)]
pub struct Index(pub Vec<usize>);

impl View for Shape {
    type V = Seq<usize>;

    open spec fn view(&self) -> Seq<usize> {
        self.0@
    }
}

impl View for Index {
    type V = Seq<usize>;

    open spec fn view(&self) -> Seq<usize> {
        self.0@
    }
}

fn copy_coords(v: &Vec<usize>) -> (r: Vec<usize>)
    ensures
        r@ == v@,
{
    let r = v.clone();
    assert(r@ =~= v@);
    r
}

impl Shape {
    /// A shape of positive dimension lengths whose element count fits a `usize`.
    pub open spec fn wf(&self) -> bool {
        positive(self@) && fits(self@)
    }

    pub fn unrolled_length(&self) -> (r: usize)
        requires
            fits(self@),
        ensures
            r == size(self@),
    {
        let mut acc: usize = 1;
        let mut i: usize = 0;
        while i < self.0.len()
            invariant
                fits(self@),
                0 <= i <= self@.len(),
                acc == prod_upto(self@, i as int),
            decreases self@.len() - i,
        {
            assert(prod_upto(self@, i + 1) <= usize::MAX);
            acc = acc * self.0[i];
            i = i + 1;
        }
        proof {
            lemma_size(self@);
        }
        acc
    }

    pub fn accomodates(&self, ixs: &Index) -> (r: bool)
        ensures
            r == accommodates(self@, ixs@),
    {
        if ixs.0.len() > self.0.len() {
            return false;
        }
        let mut d: usize = 0;
        while d < ixs.0.len()
            invariant
                ixs@.len() <= self@.len(),
                0 <= d <= ixs@.len(),
                forall|j: int| 0 <= j < d ==> ixs@[j] < self@[j],
            decreases ixs@.len() - d,
        {
            if ixs.0[d] >= self.0[d] {
                return false;
            }
            d = d + 1;
        }
        true
    }

    pub fn indices(&self) -> (r: ShapeIndices)
        requires
            self.wf(),
        ensures
            r.wf(),
            r.shape() == self@,
            r.position() == 0,
    {
        ShapeIndices { shape: Shape(copy_coords(&self.0)), index: None, done: false }
    }
}

impl Index {
    /// Flat offset of this index: each coordinate times the length of the
    /// dimension before it (1 for the first).
    pub fn in_unrolled(&self, shape: &Shape) -> (r: usize)
        requires
            offset(self@, shape@) <= usize::MAX,
        ensures
            r == offset(self@, shape@),
    {
        let n: usize = if self.0.len() <= shape.0.len() {
            self.0.len()
        } else {
            shape.0.len() + 1
        };
        let mut sum: usize = 0;
        let mut d: usize = 0;
        while d < n
            invariant
                n == min_len(self@, shape@),
                0 <= d <= n,
                sum == offset_upto(self@, shape@, d as int),
                offset(self@, shape@) <= usize::MAX,
            decreases n - d,
        {
            let prev: usize = if d == 0 {
                1
            } else {
                shape.0[d - 1]
            };
            proof {
                lemma_offset_mono(self@, shape@, d + 1, n as int);
                lemma_offset_mono(self@, shape@, d as int, d as int);
                assert(prev as int == stride(shape@, d as int));
                let x = self@[d as int] as int;
                assert(x * prev <= x * prev + sum) by (nonlinear_arith)
                    requires
                        sum >= 0,
                ;
            }
            sum = sum + self.0[d] * prev;
            d = d + 1;
        }
        sum
    }
}

/// The odometer enumeration of a shape's indices: dimension 0 changes
/// fastest, and the enumeration ends after the last index.
pub struct ShapeIndices {
    shape: Shape,
    index: Option<Index>,
    done: bool,
}

impl ShapeIndices {
    pub closed spec fn shape(&self) -> Seq<usize> {
        self.shape@
    }

    /// How many indices have been handed out so far.
    pub closed spec fn position(&self) -> int {
        if self.done {
            total(self.shape@)
        } else {
            match self.index {
                None => 0,
                Some(ix) => rank_of(ix@, self.shape@) + 1,
            }
        }
    }

    pub closed spec fn wf(&self) -> bool {
        &&& self.shape.wf()
        &&& !self.done ==> match self.index {
            None => true,
            Some(ix) => full_index(self.shape@, ix@) && self.shape@.len() > 0,
        }
    }

    pub proof fn lemma_position_bound(&self)
        requires
            self.wf(),
        ensures
            0 <= self.position() <= total(self.shape()),
            total(self.shape()) == enumeration(self.shape()).len(),
    {
        if self.shape@.len() > 0 {
            lemma_size_positive(self.shape@);
        }
        if !self.done {
            if let Some(ix) = self.index {
                lemma_rank_bound(ix@, self.shape@);
            }
        }
    }

    /// The next index in odometer order, or `None` once all have been given.
    pub fn next(&mut self) -> (r: Option<Index>)
        requires
            old(self).wf(),
        ensures
            final(self).wf(),
            final(self).shape() == old(self).shape(),
            old(self).position() < enumeration(old(self).shape()).len() ==> {
                &&& r.is_some()
                &&& r.unwrap()@ == enumeration(old(self).shape())[old(self).position()]
                &&& final(self).position() == old(self).position() + 1
            },
            old(self).position() >= enumeration(old(self).shape()).len() ==> {
                &&& r.is_none()
                &&& final(self).position() == old(self).position()
            },
    {
        proof {
            self.lemma_position_bound();
        }
        if self.done {
            return None;
        }
        let n = self.shape.0.len();
        let ghost s = self.shape@;
        match &self.index {
            None => {
                if n == 0 {
                    self.done = true;
                    return None;
                }
                let mut z: Vec<usize> = Vec::new();
                let mut i: usize = 0;
                while i < n
                    invariant
                        0 <= i <= n,
                        z@.len() == i,
                        forall|j: int| 0 <= j < i ==> z@[j] == 0,
                    decreases n - i,
                {
                    z.push(0);
                    i = i + 1;
                }
                proof {
                    assert(full_index(s, z@));
                    lemma_size_positive(s);
                    lemma_rank_coords(s, 0);
                    lemma_coords_rank(z@, s);
                    assert(rank_of(z@, s) == 0) by {
                        lemma_zero_rank(z@, s);
                    }
                }
                self.index = Some(Index(copy_coords(&z)));
                Some(Index(z))
            },
            Some(ix) => {
                let ghost old_ix = ix@;
                let mut v = copy_coords(&ix.0);
                let mut d: usize = 0;
                while d < n
                    invariant
                        n == s.len(),
                        s == self.shape@,
                        s == old(self).shape(),
                        !self.done,
                        old(self).position() == rank_of(old_ix, s) + 1,
                        self.shape.wf(),
                        full_index(s, old_ix),
                        0 <= d <= n,
                        v@.len() == n,
                        forall|j: int| 0 <= j < d ==> old_ix[j] == s[j] - 1 && v@[j] == 0,
                        forall|j: int| d <= j < n ==> v@[j] == old_ix[j],
                    decreases n - d,
                {
                    if v[d] == self.shape.0[d] - 1 {
                        v.set(d, 0);
                    } else {
                        let ghost pv = v@;
                        v.set(d, v[d] + 1);
                        proof {
                            assert forall|j: int| 0 <= j < d implies old_ix[j] == s[j] - 1
                                && v@[j] == 0 by {
                                assert(v@[j] == pv[j]);
                            }
                            lemma_carry(old_ix, v@, s, d as int);
                            lemma_coords_rank(v@, s);
                            lemma_rank_bound(v@, s);
                        }
                        self.index = Some(Index(copy_coords(&v)));
                        return Some(Index(v));
                    }
                    d = d + 1;
                }
                proof {
                    lemma_all_max(old_ix, s);
                }
                self.done = true;
                None
            },
        }
    }
}

proof fn lemma_zero_rank(z: Seq<usize>, s: Seq<usize>)
    requires
        z.len() == s.len(),
        forall|j: int| 0 <= j < z.len() ==> z[j] == 0,
    ensures
        rank_of(z, s) == 0,
    decreases s.len(),
{
    if s.len() > 0 {
        lemma_zero_rank(z.drop_first(), s.drop_first());
        let b = s[0] as int;
        assert(b * 0 == 0) by (nonlinear_arith);
    }
}


/// The enumeration of a shape visits every full-rank index that the shape
/// accommodates exactly once: each index it yields is accommodated, no two
/// positions yield the same index, and every accommodated full-rank index is
/// yielded somewhere; it starts at the all-zero index.
pub proof fn lemma_enumeration_complete(s: Seq<usize>)
    requires
        positive(s),
        s.len() > 0,
    ensures
        forall|p: int| 0 <= p < enumeration(s).len() ==> full_index(s, #[trigger] enumeration(s)[p]),
        forall|p: int, q: int|
            0 <= p < q < enumeration(s).len() ==> #[trigger] enumeration(s)[p] != #[trigger] enumeration(s)[q],
        forall|ix: Seq<usize>|
            full_index(s, ix) ==> exists|p: int| 0 <= p < enumeration(s).len() && #[trigger] enumeration(s)[p] == ix,
        enumeration(s)[0] == Seq::new(s.len(), |d: int| 0usize),
{
    lemma_size_positive(s);
    assert forall|p: int| 0 <= p < enumeration(s).len() implies full_index(s, #[trigger] enumeration(s)[p]) by {
        lemma_rank_coords(s, p);
    }
    assert forall|p: int, q: int|
        0 <= p < q < enumeration(s).len() implies #[trigger] enumeration(s)[p] != #[trigger] enumeration(s)[q] by {
        lemma_rank_coords(s, p);
        lemma_rank_coords(s, q);
    }
    assert forall|ix: Seq<usize>| full_index(s, ix) implies exists|p: int|
        0 <= p < enumeration(s).len() && #[trigger] enumeration(s)[p] == ix by {
        lemma_rank_bound(ix, s);
        lemma_coords_rank(ix, s);
        assert(enumeration(s)[rank_of(ix, s)] == ix);
    }
    let z = Seq::new(s.len(), |d: int| 0usize);
    lemma_size_positive(s);
    lemma_zero_rank(z, s);
    lemma_coords_rank(z, s);
}

/// The enumeration of a shape of rank at least one yields as many indices as
/// the shape has elements, the value `unrolled_length` returns.
pub proof fn lemma_enumeration_count(s: Seq<usize>)
    requires
        positive(s),
        s.len() > 0,
    ensures
        enumeration(s).len() == size(s),
        size(s) == prod_upto(s, s.len() as int),
{
    lemma_size(s);
    lemma_size_positive(s);
}

/// A rectangular array: a shape and its elements in flat storage. Elements are
/// integers (greyscale levels and other exact values).
pub struct Matrix {
    pub shape: Shape,
    pub unrolled: Vec<i64>,
}

impl Matrix {
    /// The storage holds exactly one slot per element of a well-formed shape.
    pub open spec fn wf(&self) -> bool {
        self.shape.wf() && self.unrolled@.len() == size(self.shape@)
    }

    /// The element at `index`.
    pub fn index(&self, index: &Index) -> (r: i64)
        requires
            self.wf(),
            accommodates(self.shape@, index@),
        ensures
            r == self.unrolled@[offset(index@, self.shape@)],
    {
        proof {
            lemma_offset_in_range(index@, self.shape@);
            lemma_size(self.shape@);
        }
        self.unrolled[index.in_unrolled(&self.shape)]
    }

    /// Stores `value` at `index`; nothing else changes.
    pub fn index_mut(&mut self, index: &Index, value: i64)
        requires
            old(self).wf(),
            accommodates(old(self).shape@, index@),
        ensures
            final(self).wf(),
            final(self).shape@ == old(self).shape@,
            final(self).unrolled@ == old(self).unrolled@.update(
                offset(index@, old(self).shape@),
                value,
            ),
    {
        proof {
            lemma_offset_in_range(index@, self.shape@);
            lemma_size(self.shape@);
        }
        let o = index.in_unrolled(&self.shape);
        self.unrolled.set(o, value);
    }
}

/// An array of the given shape with every element 0.
pub fn zeros(shape: &Shape) -> (r: Matrix)
    requires
        shape.wf(),
    ensures
        r.wf(),
        r.shape@ == shape@,
        forall|o: int| 0 <= o < r.unrolled@.len() ==> r.unrolled@[o] == 0,
{
    let n = shape.unrolled_length();
    let mut v: Vec<i64> = Vec::new();
    let mut i: usize = 0;
    while i < n
        invariant
            0 <= i <= n,
            v@.len() == i,
            forall|j: int| 0 <= j < i ==> v@[j] == 0,
        decreases n - i,
    {
        v.push(0);
        i = i + 1;
    }
    Matrix { shape: Shape(copy_coords(&shape.0)), unrolled: v }
}

} // verus!
