use vstd::prelude::*;
use crate::mat::{
    coords, full_index, lemma_coords_rank, lemma_rank_bound, lemma_rank_coords, offset, total,
    zeros, Index, Matrix, Shape,
};
use crate::sink::{count_true, xor};

verus! {

/// Which coordinates of an index are odd.
pub open spec fn parities(ix: Seq<usize>) -> Seq<bool> {
    ix.map_values(|x: usize| x % 2 == 1)
}

/// Exactly one coordinate of the index is odd.
pub open spec fn odd_once(ix: Seq<usize>) -> bool {
    count_true(parities(ix)) == 1
}

/// Some full-rank index of `s` with exactly one odd coordinate lands on flat slot `o`.
pub open spec fn lit(s: Seq<usize>, o: int) -> bool {
    exists|ix: Seq<usize>| #[trigger] full_index(s, ix) && offset(ix, s) == o && odd_once(ix)
}

/// Among the first `p` indices of the enumeration, one with exactly one odd
/// coordinate lands on flat slot `o`.
pub open spec fn lit_before(s: Seq<usize>, o: int, p: int) -> bool {
    exists|q: int| 0 <= q < p && offset(#[trigger] coords(s, q), s) == o && odd_once(coords(s, q))
}

fn odd_coordinates(index: &Index) -> (r: Vec<bool>)
    ensures
        r@ == parities(index@),
{
    let mut r: Vec<bool> = Vec::new();
    let mut i: usize = 0;
    while i < index.0.len()
        invariant
            0 <= i <= index@.len(),
            r@ =~= parities(index@).subrange(0, i as int),
        decreases index@.len() - i,
    {
        r.push(index.0[i] % 2 == 1);
        i = i + 1;
    }
    assert(r@ =~= parities(index@));
    r
}

/// A checkerboard test pattern: 255 where exactly one coordinate of an index
/// is odd, 0 elsewhere.
pub fn checkered(shape: &Shape) -> (r: Matrix)
    requires
        shape.wf(),
    ensures
        r.wf(),
        r.shape@ == shape@,
        forall|o: int|
            0 <= o < r.unrolled@.len() ==> #[trigger] r.unrolled@[o] == if lit(shape@, o) {
                255i64
            } else {
                0i64
            },
{
    let ghost s = shape@;
    let mut out = zeros(shape);
    let mut it = shape.indices();
    proof {
        it.lemma_position_bound();
    }
    loop
        invariant
            it.wf(),
            it.shape() == s,
            shape@ == s,
            shape.wf(),
            out.wf(),
            out.shape@ == s,
            0 <= it.position() <= total(s),
            forall|o: int|
                0 <= o < out.unrolled@.len() ==> #[trigger] out.unrolled@[o] == if lit_before(
                    s,
                    o,
                    it.position(),
                ) {
                    255i64
                } else {
                    0i64
                },
        ensures
            it.position() == total(s),
        decreases total(s) - it.position(),
    {
        let ghost p = it.position();
        let ghost before = out.unrolled@;
        proof {
            it.lemma_position_bound();
        }
        match it.next() {
            None => {
                break ;
            },
            Some(index) => {
                proof {
                    if s.len() > 0 {
                        lemma_rank_coords(s, p);
                    }
                    it.lemma_position_bound();
                }
                assert(full_index(s, index@));
                let odd = odd_coordinates(&index);
                let x = xor(&odd);
                if x {
                    out.index_mut(&index, 255);
                }
                proof {
                    let off = offset(index@, s);
                    crate::mat::lemma_offset_in_range(index@, s);
                    assert(x == odd_once(index@));
                    assert forall|o: int| 0 <= o < out.unrolled@.len() implies #[trigger] out.unrolled@[o]
                        == if lit_before(s, o, p + 1) {
                        255i64
                    } else {
                        0i64
                    } by {
                        assert(before[o] == if lit_before(s, o, p) {
                            255i64
                        } else {
                            0i64
                        });
                        if lit_before(s, o, p + 1) && !lit_before(s, o, p) {
                            let q = choose|q: int|
                                0 <= q < p + 1 && offset(#[trigger] coords(s, q), s) == o
                                    && odd_once(coords(s, q));
                            assert(q == p);
                        }
                        if lit_before(s, o, p) {
                            let q = choose|q: int|
                                0 <= q < p && offset(#[trigger] coords(s, q), s) == o && odd_once(
                                    coords(s, q),
                                );
                            assert(0 <= q < p + 1);
                        }
                        if o == off && x {
                            assert(offset(coords(s, p), s) == o);
                            assert(out.unrolled@[o] == 255);
                        } else if x {
                            assert(o != off);
                            assert(out.unrolled@ == before.update(off, 255i64));
                            assert(out.unrolled@[o] == before[o]);
                        } else {
                            assert(out.unrolled@ == before);
                        }
                    }
                }
            },
        }
    }
    proof {
        assert forall|o: int| 0 <= o < out.unrolled@.len() implies lit_before(s, o, total(s)) == lit(
            s,
            o,
        ) by {
            if lit_before(s, o, total(s)) {
                let q = choose|q: int|
                    0 <= q < total(s) && offset(#[trigger] coords(s, q), s) == o && odd_once(
                        coords(s, q),
                    );
                lemma_rank_coords(s, q);
                assert(full_index(s, coords(s, q)));
            }
            if lit(s, o) {
                let ix = choose|ix: Seq<usize>|
                    #[trigger] full_index(s, ix) && offset(ix, s) == o && odd_once(ix);
                if s.len() == 0 {
                    assert(parities(ix) =~= Seq::<bool>::empty());
                } else {
                    lemma_rank_bound(ix, s);
                    lemma_coords_rank(ix, s);
                    let q = crate::mat::rank_of(ix, s);
                    assert(offset(coords(s, q), s) == o);
                }
            }
        }
    }
    out
}


/// A rank-2 array from greyscale pixels given row by row: the pixel in row `y`
/// and column `x` lands at index `[y, x]`.
pub fn from_greyscale(rows: usize, cols: usize, pixels: &Vec<u8>) -> (r: Matrix)
    requires
        rows > 0,
        cols > 0,
        rows * cols <= usize::MAX,
        pixels@.len() == rows * cols,
    ensures
        r.wf(),
        r.shape@ == seq![rows, cols],
        forall|y: int, x: int|
            0 <= y < rows && 0 <= x < cols ==> r.unrolled@[offset(
                seq![y as usize, x as usize],
                r.shape@,
            )] == #[trigger] pixels@[y * cols + x] as i64,
{
    let n = rows * cols;
    let mut v: Vec<i64> = Vec::new();
    let mut o: usize = 0;
    while o < n
        invariant
            rows > 0,
            cols > 0,
            n == rows * cols,
            pixels@.len() == n,
            0 <= o <= n,
            v@.len() == o,
            forall|j: int|
                0 <= j < o ==> #[trigger] v@[j] == pixels@[(j % rows as int) * cols + j
                    / rows as int] as i64,
        decreases n - o,
    {
        let y = o % rows;
        let x = o / rows;
        proof {
            assert(x < cols) by (nonlinear_arith)
                requires
                    x == o / rows,
                    o < rows * cols,
                    rows > 0,
            ;
            assert(y * cols + x < rows * cols) by (nonlinear_arith)
                requires
                    0 <= y < rows,
                    0 <= x < cols,
            ;
        }
        v.push(pixels[y * cols + x] as i64);
        o = o + 1;
    }
    let mut dims: Vec<usize> = Vec::new();
    dims.push(rows);
    dims.push(cols);
    let shape = Shape(dims);
    let ghost s = shape@;
    proof {
        assert(s =~= seq![rows, cols]);
        assert(crate::mat::prod_upto(s, 0) == 1);
        assert(crate::mat::prod_upto(s, 1) == crate::mat::prod_upto(s, 0) * s[0]);
        assert(crate::mat::prod_upto(s, 2) == crate::mat::prod_upto(s, 1) * s[1]);
        crate::mat::lemma_size(s);
        assert forall|y: int, x: int| 0 <= y < rows && 0 <= x < cols implies v@[offset(
            seq![y as usize, x as usize],
            s,
        )] == #[trigger] pixels@[y * cols + x] as i64 by {
            let ix = seq![y as usize, x as usize];
            assert(offset(ix, s) == y + x * rows) by {
                assert(crate::mat::offset_upto(ix, s, 0) == 0);
                assert(crate::mat::offset_upto(ix, s, 1) == y);
                assert(crate::mat::offset_upto(ix, s, 2) == y + x * rows);
            }
            let j = y + x * rows;
            assert(0 <= j < rows * cols) by (nonlinear_arith)
                requires
                    0 <= y < rows,
                    0 <= x < cols,
                    j == y + x * rows,
            ;
            assert(j == x * rows + y);
            vstd::arithmetic::div_mod::lemma_fundamental_div_mod_converse(j, rows as int, x, y);
        }
    }
    Matrix { shape, unrolled: v }
}


/// Adds one decoded frame to the channels gathered so far. The result has as
/// many channels as the frame: channel `i` is the gathered channel `i` (empty
/// where there was none) followed by the frame's channel `i`; gathered
/// channels beyond the frame's count are dropped.
pub fn append_frame<T>(channels: Vec<Vec<T>>, frame: Vec<Vec<T>>) -> (r: Vec<Vec<T>>)
    ensures
        r@.len() == frame@.len(),
        forall|i: int|
            0 <= i < frame@.len() ==> #[trigger] r@[i]@ == (if i < channels@.len() {
                channels@[i]@
            } else {
                Seq::empty()
            }) + frame@[i]@,
{
    let ghost c0 = channels@;
    let ghost f0 = frame@;
    let mut rest_c = channels;
    let mut rest_f = frame;
    let n = rest_f.len();
    let mut out: Vec<Vec<T>> = Vec::new();
    let mut i: usize = 0;
    while i < n
        invariant
            n == f0.len(),
            0 <= i <= n,
            rest_f@ == f0.subrange(i as int, n as int),
            rest_c@ == if i < c0.len() {
                c0.subrange(i as int, c0.len() as int)
            } else {
                Seq::empty()
            },
            out@.len() == i,
            forall|j: int|
                0 <= j < i ==> #[trigger] out@[j]@ == (if j < c0.len() {
                    c0[j]@
                } else {
                    Seq::empty()
                }) + f0[j]@,
        decreases n - i,
    {
        let mut c: Vec<T> = if rest_c.len() > 0 {
            rest_c.remove(0)
        } else {
            Vec::new()
        };
        let mut f = rest_f.remove(0);
        proof {
            if i < c0.len() {
                assert(c@ == c0[i as int]@);
            } else {
                assert(c@ =~= Seq::<T>::empty());
            }
        }
        c.append(&mut f);
        out.push(c);
        proof {
            assert(rest_f@ =~= f0.subrange(i + 1, n as int));
            if i + 1 < c0.len() {
                assert(rest_c@ =~= c0.subrange(i + 1, c0.len() as int));
            } else {
                assert(rest_c@ =~= Seq::<Vec<T>>::empty());
            }
        }
        i = i + 1;
    }
    out
}

} // verus!
