//! Dense matrices of rationals and a certified linear solver.
//!
//! The solver runs Gaussian elimination and then re-multiplies: a result is
//! returned only after the residual check has confirmed, entry by entry, that
//! it satisfies the system exactly. The contract therefore rests on the check
//! alone, not on the elimination.

use vstd::prelude::*;

use crate::rational::{
    lemma_q_add_cong, lemma_q_eq_trans, lemma_q_ops_wf, q_add, q_eq, q_int, q_mul, q_wf, rat_wf,
    seq_wf, Q, Rat,
};

verus! {

/// A dense matrix in row-major order.
#[derive(Debug)]
pub struct RatMat {
    pub rows: usize,
    pub cols: usize,
    pub data: Vec<Rat>,
}

/// A well-formed matrix: row-major data of the exact length, every element
/// well formed.
pub open spec fn mat_wf(m: RatMat) -> bool {
    &&& m.data@.len() == m.rows * m.cols
    &&& m.rows * m.cols <= usize::MAX as int
    &&& seq_wf(m.data@)
}

/// The mathematical value of the entry in row `i`, column `j`.
pub open spec fn mat_at(m: RatMat, i: int, j: int) -> Q {
    m.data@[i * m.cols + j]@
}

/// A row-major entry offset is in range.
pub proof fn lemma_rc_bound(i: int, j: int, rows: int, cols: int)
    by (nonlinear_arith)
    requires
        0 <= i < rows,
        0 <= j < cols,
    ensures
        0 <= i * cols + j,
        i * cols + j < rows * cols,
{
}

/// Entries in row-major order have increasing offsets.
pub proof fn lemma_rc_lex(i0: int, j0: int, i1: int, j1: int, cols: int)
    by (nonlinear_arith)
    requires
        0 <= i0,
        0 <= j0 < cols,
        0 <= i1,
        0 <= j1 < cols,
        i0 < i1 || (i0 == i1 && j0 < j1),
    ensures
        i0 * cols + j0 < i1 * cols + j1,
{
}

/// The dot product of the first `k` entries of row `i` of `a` with the first
/// `k` entries of column `c` of `u`.
pub open spec fn dot_k(a: RatMat, i: int, u: RatMat, c: int, k: int) -> Q
    decreases k,
{
    if k <= 0 {
        q_int(0)
    } else {
        q_add(dot_k(a, i, u, c, k - 1), q_mul(mat_at(a, i, k - 1), mat_at(u, k - 1, c)))
    }
}

/// Dot products of well-formed entries are well formed.
pub proof fn lemma_dot_k_wf(a: RatMat, i: int, u: RatMat, c: int, k: int)
    requires
        mat_wf(a),
        mat_wf(u),
        0 <= i < a.rows,
        0 <= c < u.cols,
        0 <= k <= a.cols,
        k <= u.rows,
    ensures
        q_wf(dot_k(a, i, u, c, k)),
    decreases k,
{
    if k > 0 {
        lemma_dot_k_wf(a, i, u, c, k - 1);
        lemma_rc_bound(i, k - 1, a.rows as int, a.cols as int);
        lemma_rc_bound(k - 1, c, u.rows as int, u.cols as int);
        lemma_q_ops_wf(mat_at(a, i, k - 1), mat_at(u, k - 1, c));
        lemma_q_ops_wf(dot_k(a, i, u, c, k - 1), q_mul(mat_at(a, i, k - 1), mat_at(u, k - 1, c)));
    }
}

impl RatMat {
    /// Builds a matrix after checking that the data length matches and every
    /// element is well formed.
    pub fn new(rows: usize, cols: usize, data: Vec<Rat>) -> (r: Option<RatMat>)
        ensures
            r is Some ==> mat_wf(r.unwrap()) && r.unwrap().rows == rows && r.unwrap().cols == cols
                && r.unwrap().data@ == data@,
            r is Some <==> data@.len() == rows * cols && seq_wf(data@),
    {
        proof {
            assert(rows as int * cols as int <= u128::MAX as int) by (nonlinear_arith)
                requires
                    0 <= rows as int <= 0xFFFF_FFFF_FFFF_FFFFu64 as int,
                    0 <= cols as int <= 0xFFFF_FFFF_FFFF_FFFFu64 as int,
                    u128::MAX as int == 0xFFFF_FFFF_FFFF_FFFF_FFFF_FFFF_FFFF_FFFFu128 as int,
            ;
        }
        let wide = (rows as u128) * (cols as u128);
        if wide != data.len() as u128 {
            return None;
        }
        let mut i: usize = 0;
        while i < data.len()
            invariant
                0 <= i <= data@.len(),
                forall|j: int| 0 <= j < i ==> rat_wf(#[trigger] data@[j]),
            decreases data@.len() - i,
        {
            if !data[i].check_wf() {
                return None;
            }
            i = i + 1;
        }
        Some(RatMat { rows, cols, data })
    }

    /// A matrix of zeros.
    pub fn zeros(rows: usize, cols: usize) -> (r: Option<RatMat>)
        ensures
            r is Some ==> mat_wf(r.unwrap()) && r.unwrap().rows == rows && r.unwrap().cols == cols
                && forall|i: int, j: int|
                0 <= i < rows && 0 <= j < cols ==> #[trigger] mat_at(r.unwrap(), i, j) == q_int(0),
            r is Some <==> rows * cols <= usize::MAX as int,
    {
        proof {
            assert(rows as int * cols as int <= u128::MAX as int) by (nonlinear_arith)
                requires
                    0 <= rows as int <= 0xFFFF_FFFF_FFFF_FFFFu64 as int,
                    0 <= cols as int <= 0xFFFF_FFFF_FFFF_FFFFu64 as int,
                    u128::MAX as int == 0xFFFF_FFFF_FFFF_FFFF_FFFF_FFFF_FFFF_FFFFu128 as int,
            ;
        }
        let wide = (rows as u128) * (cols as u128);
        if wide > usize::MAX as u128 {
            return None;
        }
        let total = (rows * cols) as usize;
        let zero = Rat::from_int(0);
        let mut data: Vec<Rat> = Vec::new();
        let mut k: usize = 0;
        while k < total
            invariant
                0 <= k <= total,
                data@.len() == k,
                forall|t: int| 0 <= t < k ==> #[trigger] data@[t] == zero,
                rat_wf(zero),
                zero@ == q_int(0),
            decreases total - k,
        {
            data.push(zero);
            k = k + 1;
        }
        let m = RatMat { rows, cols, data };
        proof {
            assert forall|i: int, j: int| 0 <= i < rows && 0 <= j < cols implies #[trigger] mat_at(
                m,
                i,
                j,
            ) == q_int(0) by {
                lemma_rc_bound(i, j, rows as int, cols as int);
            }
        }
        Some(m)
    }

    /// The entry in row `i`, column `j`.
    pub fn get(&self, i: usize, j: usize) -> (r: Rat)
        requires
            mat_wf(*self),
            i < self.rows,
            j < self.cols,
        ensures
            r@ == mat_at(*self, i as int, j as int),
            rat_wf(r),
    {
        proof {
            lemma_rc_bound(i as int, j as int, self.rows as int, self.cols as int);
        }
        self.data[i * self.cols + j]
    }

    /// Replaces the entry in row `i`, column `j`.
    pub fn put(&mut self, i: usize, j: usize, v: Rat)
        requires
            mat_wf(*old(self)),
            i < old(self).rows,
            j < old(self).cols,
            rat_wf(v),
        ensures
            mat_wf(*final(self)),
            final(self).rows == old(self).rows,
            final(self).cols == old(self).cols,
            final(self).data@ == old(self).data@.update(i as int * old(self).cols + j as int, v),
    {
        proof {
            lemma_rc_bound(i as int, j as int, self.rows as int, self.cols as int);
        }
        let idx = i * self.cols + j;
        self.data[idx] = v;
    }
}

/// A fresh matrix with the same dimensions and entries.
fn copy_mat(m: &RatMat) -> (r: RatMat)
    ensures
        r.rows == m.rows,
        r.cols == m.cols,
        r.data@ == m.data@,
{
    let mut data: Vec<Rat> = Vec::new();
    let mut k: usize = 0;
    while k < m.data.len()
        invariant
            0 <= k <= m.data@.len(),
            data@ == m.data@.take(k as int),
        decreases m.data@.len() - k,
    {
        data.push(m.data[k]);
        proof {
            assert(m.data@.take(k + 1) =~= m.data@.take(k as int).push(m.data@[k as int]));
        }
        k = k + 1;
    }
    proof {
        assert(m.data@.take(m.data@.len() as int) =~= m.data@);
    }
    RatMat { rows: m.rows, cols: m.cols, data }
}

/// The dot product of row `i` of `a` with column `c` of `u`, exact; `None`
/// when the arithmetic leaves the representable range.
fn row_col_dot(a: &RatMat, i: usize, u: &RatMat, c: usize) -> (r: Option<Rat>)
    requires
        mat_wf(*a),
        mat_wf(*u),
        i < a.rows,
        c < u.cols,
        u.rows == a.cols,
    ensures
        r is Some ==> rat_wf(r.unwrap()) && q_eq(
            r.unwrap()@,
            dot_k(*a, i as int, *u, c as int, a.cols as int),
        ),
{
    let mut acc = Rat::from_int(0);
    let mut k: usize = 0;
    while k < a.cols
        invariant
            mat_wf(*a),
            mat_wf(*u),
            i < a.rows,
            c < u.cols,
            u.rows == a.cols,
            0 <= k <= a.cols,
            rat_wf(acc),
            q_eq(acc@, dot_k(*a, i as int, *u, c as int, k as int)),
        decreases a.cols - k,
    {
        let x = a.get(i, k);
        let y = u.get(k, c);
        let p = match x.mul(y) {
            Some(p) => p,
            None => {
                return None;
            },
        };
        let acc2 = match acc.add(p) {
            Some(s) => s,
            None => {
                return None;
            },
        };
        proof {
            let da = dot_k(*a, i as int, *u, c as int, k as int);
            let db = dot_k(*a, i as int, *u, c as int, k + 1);
            let prod = q_mul(mat_at(*a, i as int, k as int), mat_at(*u, k as int, c as int));
            lemma_dot_k_wf(*a, i as int, *u, c as int, k as int);
            lemma_rc_bound(i as int, k as int, a.rows as int, a.cols as int);
            lemma_rc_bound(k as int, c as int, u.rows as int, u.cols as int);
            lemma_q_ops_wf(mat_at(*a, i as int, k as int), mat_at(*u, k as int, c as int));
            lemma_q_ops_wf(acc@, prod);
            lemma_q_ops_wf(acc@, p@);
            lemma_q_ops_wf(da, prod);
            // acc2 ~ acc + p and acc ~ dot(k), p == prod, so acc2 ~ dot(k + 1)
            lemma_q_add_cong(acc@, p@, da, prod);
            lemma_q_eq_trans(acc2@, q_add(acc@, p@), db);
        }
        acc = acc2;
        k = k + 1;
    }
    Some(acc)
}

/// Solves `a * u == b` exactly for square `a`, one right-hand column per
/// column of `b`. Returns `None` when the system is singular or the
/// arithmetic leaves the representable range; a returned solution has been
/// checked entry by entry against the system.
pub fn solve(a: &RatMat, b: &RatMat) -> (r: Option<RatMat>)
    requires
        mat_wf(*a),
        mat_wf(*b),
        a.rows == a.cols,
        b.rows == a.rows,
    ensures
        r is Some ==> {
            let u = r.unwrap();
            &&& mat_wf(u)
            &&& u.rows == a.cols
            &&& u.cols == b.cols
            &&& forall|i: int, c: int|
                0 <= i < a.rows && 0 <= c < b.cols ==> q_eq(
                    #[trigger] dot_k(*a, i, u, c, a.cols as int),
                    mat_at(*b, i, c),
                )
        },
{
    let n = a.rows;
    let m = b.cols;
    let mut aw = copy_mat(a);
    let mut bw = copy_mat(b);
    // forward elimination with row swaps on the working copies
    let mut k: usize = 0;
    while k < n
        invariant
            mat_wf(aw),
            mat_wf(bw),
            aw.rows == n,
            aw.cols == n,
            bw.rows == n,
            bw.cols == m,
            mat_wf(*a),
            mat_wf(*b),
            a.rows == n,
            a.cols == n,
            b.rows == n,
            b.cols == m,
        decreases n - k,
    {
        // find a usable pivot
        let mut p = k;
        while p < n && aw.get(p, k).is_zero()
            invariant
                mat_wf(aw),
                aw.rows == n,
                aw.cols == n,
                k <= p <= n,
                k < n,
            decreases n - p,
        {
            p = p + 1;
        }
        if p == n {
            return None;
        }
        // swap rows p and k of both working matrices
        if p != k {
            let mut j: usize = 0;
            while j < n
                invariant
                    mat_wf(aw),
                    aw.rows == n,
                    aw.cols == n,
                    p < n,
                    k < n,
                    0 <= j <= n,
                decreases n - j,
            {
                let t1 = aw.get(k, j);
                let t2 = aw.get(p, j);
                aw.put(k, j, t2);
                aw.put(p, j, t1);
                j = j + 1;
            }
            let mut c: usize = 0;
            while c < m
                invariant
                    mat_wf(bw),
                    bw.rows == n,
                    bw.cols == m,
                    p < n,
                    k < n,
                    0 <= c <= m,
                decreases m - c,
            {
                let t1 = bw.get(k, c);
                let t2 = bw.get(p, c);
                bw.put(k, c, t2);
                bw.put(p, c, t1);
                c = c + 1;
            }
        }
        let pivot = aw.get(k, k);
        if pivot.is_zero() {
            return None;
        }
        // eliminate below the pivot
        let mut r2: usize = k + 1;
        while r2 < n
            invariant
                mat_wf(aw),
                mat_wf(bw),
                aw.rows == n,
                aw.cols == n,
                bw.rows == n,
                bw.cols == m,
                k < n,
                k < r2 <= n,
                rat_wf(pivot),
            decreases n - r2,
        {
            let f = match aw.get(r2, k).div(pivot) {
                Some(f) => f,
                None => {
                    return None;
                },
            };
            let mut j: usize = 0;
            while j < n
                invariant
                    mat_wf(aw),
                    aw.rows == n,
                    aw.cols == n,
                    k < n,
                    r2 < n,
                    rat_wf(f),
                    0 <= j <= n,
                decreases n - j,
            {
                let t = match f.mul(aw.get(k, j)) {
                    Some(t) => t,
                    None => {
                        return None;
                    },
                };
                let nv = match aw.get(r2, j).sub(t) {
                    Some(v) => v,
                    None => {
                        return None;
                    },
                };
                aw.put(r2, j, nv);
                j = j + 1;
            }
            let mut c: usize = 0;
            while c < m
                invariant
                    mat_wf(bw),
                    mat_wf(aw),
                    aw.rows == n,
                    aw.cols == n,
                    bw.rows == n,
                    bw.cols == m,
                    k < n,
                    r2 < n,
                    rat_wf(f),
                    0 <= c <= m,
                decreases m - c,
            {
                let t = match f.mul(bw.get(k, c)) {
                    Some(t) => t,
                    None => {
                        return None;
                    },
                };
                let nv = match bw.get(r2, c).sub(t) {
                    Some(v) => v,
                    None => {
                        return None;
                    },
                };
                bw.put(r2, c, nv);
                c = c + 1;
            }
            r2 = r2 + 1;
        }
        k = k + 1;
    }
    // back substitution into the solution matrix
    let mut u = match RatMat::zeros(n, m) {
        Some(u) => u,
        None => {
            return None;
        },
    };
    let mut ki: usize = n;
    while ki > 0
        invariant
            mat_wf(aw),
            mat_wf(bw),
            mat_wf(u),
            aw.rows == n,
            aw.cols == n,
            bw.rows == n,
            bw.cols == m,
            u.rows == n,
            u.cols == m,
            0 <= ki <= n,
        decreases ki,
    {
        let k2 = ki - 1;
        let pivot = aw.get(k2, k2);
        if pivot.is_zero() {
            return None;
        }
        let mut c: usize = 0;
        while c < m
            invariant
                mat_wf(aw),
                mat_wf(bw),
                mat_wf(u),
                aw.rows == n,
                aw.cols == n,
                bw.rows == n,
                bw.cols == m,
                u.rows == n,
                u.cols == m,
                k2 < n,
                rat_wf(pivot),
                pivot@.n != 0,
                0 <= c <= m,
            decreases m - c,
        {
            let mut s = bw.get(k2, c);
            let mut j: usize = k2 + 1;
            while j < n
                invariant
                    mat_wf(aw),
                    mat_wf(u),
                    aw.rows == n,
                    aw.cols == n,
                    u.rows == n,
                    u.cols == m,
                    k2 < n,
                    c < m,
                    rat_wf(s),
                    k2 < j <= n,
                decreases n - j,
            {
                let t = match aw.get(k2, j).mul(u.get(j, c)) {
                    Some(t) => t,
                    None => {
                        return None;
                    },
                };
                s = match s.sub(t) {
                    Some(v) => v,
                    None => {
                        return None;
                    },
                };
                j = j + 1;
            }
            let v = match s.div(pivot) {
                Some(v) => v,
                None => {
                    return None;
                },
            };
            u.put(k2, c, v);
            c = c + 1;
        }
        ki = k2;
    }
    // certify the candidate against the original system
    let mut i: usize = 0;
    while i < n
        invariant
            mat_wf(*a),
            mat_wf(*b),
            mat_wf(u),
            a.rows == n,
            a.cols == n,
            b.rows == n,
            b.cols == m,
            u.rows == n,
            u.cols == m,
            0 <= i <= n,
            forall|i2: int, c2: int|
                0 <= i2 < i && 0 <= c2 < m ==> q_eq(
                    #[trigger] dot_k(*a, i2, u, c2, n as int),
                    mat_at(*b, i2, c2),
                ),
        decreases n - i,
    {
        let mut c: usize = 0;
        while c < m
            invariant
                mat_wf(*a),
                mat_wf(*b),
                mat_wf(u),
                a.rows == n,
                a.cols == n,
                b.rows == n,
                b.cols == m,
                u.rows == n,
                u.cols == m,
                i < n,
                0 <= c <= m,
                forall|i2: int, c2: int|
                    0 <= i2 < i && 0 <= c2 < m ==> q_eq(
                        #[trigger] dot_k(*a, i2, u, c2, n as int),
                        mat_at(*b, i2, c2),
                    ),
                forall|c2: int|
                    0 <= c2 < c ==> q_eq(
                        #[trigger] dot_k(*a, i as int, u, c2, n as int),
                        mat_at(*b, i as int, c2),
                    ),
            decreases m - c,
        {
            let d = match row_col_dot(a, i, &u, c) {
                Some(d) => d,
                None => {
                    return None;
                },
            };
            let rhs = b.get(i, c);
            if !d.equiv(rhs) {
                return None;
            }
            proof {
                lemma_dot_k_wf(*a, i as int, u, c as int, n as int);
                lemma_q_eq_trans(
                    dot_k(*a, i as int, u, c as int, n as int),
                    d@,
                    mat_at(*b, i as int, c as int),
                );
            }
            c = c + 1;
        }
        i = i + 1;
    }
    Some(u)
}

} // verus!
