use vstd::prelude::*;
use crate::mat::{lemma_size, offset, Index, Matrix};

verus! {

/// Number of `true` entries.
pub open spec fn count_true(ss: Seq<bool>) -> int
    decreases ss.len(),
{
    if ss.len() == 0 {
        0
    } else {
        count_true(ss.drop_last()) + if ss.last() {
            1int
        } else {
            0int
        }
    }
}

/// Whether every entry is `true` (so `true` when empty).
pub fn and(ss: &[bool]) -> (r: bool)
    ensures
        r == (forall|i: int| 0 <= i < ss@.len() ==> ss@[i]),
{
    let mut i: usize = 0;
    while i < ss.len()
        invariant
            0 <= i <= ss@.len(),
            forall|j: int| 0 <= j < i ==> ss@[j],
        decreases ss@.len() - i,
    {
        if !ss[i] {
            return false;
        }
        i = i + 1;
    }
    true
}

/// Whether some entry is `true` (so `false` when empty).
pub fn or(ss: &[bool]) -> (r: bool)
    ensures
        r == (exists|i: int| 0 <= i < ss@.len() && ss@[i]),
{
    let mut i: usize = 0;
    while i < ss.len()
        invariant
            0 <= i <= ss@.len(),
            forall|j: int| 0 <= j < i ==> !ss@[j],
        decreases ss@.len() - i,
    {
        if ss[i] {
            return true;
        }
        i = i + 1;
    }
    false
}

/// Whether exactly one entry is `true`.
pub fn xor(ss: &[bool]) -> (r: bool)
    ensures
        r == (count_true(ss@) == 1),
{
    let mut c: usize = 0;
    let mut i: usize = 0;
    while i < ss.len()
        invariant
            0 <= i <= ss@.len(),
            c == count_true(ss@.subrange(0, i as int)),
            c <= i,
        decreases ss@.len() - i,
    {
        proof {
            assert(ss@.subrange(0, i + 1).drop_last() =~= ss@.subrange(0, i as int));
        }
        if ss[i] {
            c = c + 1;
        }
        i = i + 1;
    }
    proof {
        assert(ss@.subrange(0, ss@.len() as int) =~= ss@);
    }
    c == 1
}


/// A cell value clamped to an 8-bit greyscale intensity.
pub open spec fn luma(v: i64) -> u8 {
    if v < 0 {
        0
    } else if v > 255 {
        255
    } else {
        v as u8
    }
}

fn clamp_luma(v: i64) -> (r: u8)
    ensures
        r == luma(v),
{
    if v < 0 {
        0
    } else if v > 255 {
        255
    } else {
        v as u8
    }
}

proof fn lemma_cell_bound(y: int, x: int, rows: int, cols: int)
    requires
        0 <= y < rows,
        0 <= x < cols,
    ensures
        0 <= y + x * rows < rows * cols,
        0 <= y * cols + x < rows * cols,
{
    assert(0 <= y + x * rows < rows * cols) by (nonlinear_arith)
        requires
            0 <= y < rows,
            0 <= x < cols,
    ;
    assert(0 <= y * cols + x < rows * cols) by (nonlinear_arith)
        requires
            0 <= y < rows,
            0 <= x < cols,
    ;
}

/// The pixels of a rank-2 array as an image, row by row: dimension 0 is the
/// row, dimension 1 the column, each cell clamped to 0..=255. `None` when the
/// array is not of rank 2.
pub fn greyscale_pixels(m: &Matrix) -> (r: Option<Vec<u8>>)
    requires
        m.wf(),
    ensures
        r.is_none() <==> m.shape@.len() != 2,
        r.is_some() ==> {
            let rows = m.shape@[0] as int;
            let cols = m.shape@[1] as int;
            &&& r.unwrap()@.len() == rows * cols
            &&& forall|y: int, x: int|
                0 <= y < rows && 0 <= x < cols ==> #[trigger] r.unwrap()@[y * cols + x] == luma(
                    m.unrolled@[offset(seq![y as usize, x as usize], m.shape@)],
                )
        },
{
    if m.shape.0.len() != 2 {
        return None;
    }
    let rows = m.shape.0[0];
    let cols = m.shape.0[1];
    let ghost s = m.shape@;
    proof {
        lemma_size(s);
        assert(crate::mat::prod_upto(s, 2) == rows * cols) by {
            assert(crate::mat::prod_upto(s, 0) == 1);
            assert(crate::mat::prod_upto(s, 1) == crate::mat::prod_upto(s, 0) * s[0]);
            assert(crate::mat::prod_upto(s, 2) == crate::mat::prod_upto(s, 1) * s[1]);
        }
        assert(s[0] > 0 && s[1] > 0);
    }
    let n = rows * cols;
    let mut out: Vec<u8> = Vec::new();
    let mut k: usize = 0;
    while k < n
        invariant
            m.wf(),
            s == m.shape@,
            s.len() == 2,
            rows == s[0],
            cols == s[1],
            rows > 0,
            cols > 0,
            n == rows * cols,
            0 <= k <= n,
            out@.len() == k,
            forall|j: int|
                0 <= j < k ==> #[trigger] out@[j] == luma(
                    m.unrolled@[offset(seq![(j / cols as int) as usize, (j % cols as int) as usize], s)],
                ),
        decreases n - k,
    {
        let y = k / cols;
        let x = k % cols;
        proof {
            assert(y < rows) by (nonlinear_arith)
                requires
                    y == k / cols,
                    k < rows * cols,
                    cols > 0,
            ;
        }
        let ix = Index(vec![y, x]);
        assert(ix@ =~= seq![y, x]);
        let v = m.index(&ix);
        out.push(clamp_luma(v));
        k = k + 1;
    }
    proof {
        assert forall|y: int, x: int| 0 <= y < rows && 0 <= x < cols implies #[trigger] out@[y * cols
            + x] == luma(m.unrolled@[offset(seq![y as usize, x as usize], s)]) by {
            lemma_cell_bound(y, x, rows as int, cols as int);
            let j = y * cols + x;
            vstd::arithmetic::div_mod::lemma_fundamental_div_mod_converse(j, cols as int, y, x);
        }
    }
    Some(out)
}

} // verus!
