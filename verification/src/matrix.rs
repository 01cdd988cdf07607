//! Row-major matrices of symbolic complex values.
//!
//! Construction is fallible (both dimensions positive, body length equal to
//! their product); every operation returns a fresh matrix.  The determinant
//! expands along the first column; the inverse is the transposed cofactor
//! matrix scaled by the reciprocal of the determinant; linear systems are
//! solved by Cramer's rule.  All contracts are exact with respect to the
//! model-level arithmetic of the scalar engine.

use vstd::prelude::*;
use crate::rat::Rat;
use crate::num::{
    Im, ImV, views_of, lemma_views_of_index, wf_v, v_one, v_neg_one,
};
use crate::ops::{v_add, v_sub, add_val, sub_val};
use crate::muldiv::{v_mul, v_div, mul_val, div_val};

verus! {

/// Mathematical value of a matrix: its two dimensions and its row-major
/// body.
pub struct MatV {
    pub strings: int,
    pub rows: int,
    pub body: Seq<ImV>,
}

/// A well-formed matrix: positive dimensions, a body of matching length,
/// all entries well formed.
pub open spec fn wf_mat(m: MatV) -> bool {
    &&& m.strings >= 1
    &&& m.rows >= 1
    &&& m.body.len() == m.strings * m.rows
    &&& forall|j: int| 0 <= j < m.body.len() ==> wf_v(#[trigger] m.body[j])
}

/// The entry in row `i`, column `j`.
pub open spec fn ent(m: MatV, i: int, j: int) -> ImV {
    m.body[i * m.rows + j]
}

/// Why a matrix operation was refused.
#[derive(Debug, PartialEq, Eq, Structural)]
pub enum MatrixError {
    /// A dimension of zero was given to the constructor.
    ZeroDimension,
    /// The body length does not match the product of the dimensions.
    SizeMismatch,
    /// The dimensions of the operands do not fit the operation.
    DimensionMismatch,
}

/// A row-major matrix of canonical symbolic values.
#[derive(Debug)]
pub struct ImMatrix {
    strings: usize,
    rows: usize,
    body: Vec<Im>,
}

impl View for ImMatrix {
    type V = MatV;

    closed spec fn view(&self) -> MatV {
        MatV {
            strings: self.strings as int,
            rows: self.rows as int,
            body: views_of(self.body@),
        }
    }
}

/// The submatrix that removes row `s` and column `r`.
pub open spec fn minor_v(m: MatV, s: int, r: int) -> MatV {
    MatV {
        strings: m.strings - 1,
        rows: m.rows - 1,
        body: Seq::new(
            ((m.strings - 1) * (m.rows - 1)) as nat,
            |k: int|
                {
                    let rr = k / (m.rows - 1);
                    let cc = k % (m.rows - 1);
                    let orig_row = if rr >= s {
                        rr + 1
                    } else {
                        rr
                    };
                    let orig_col = if cc >= r {
                        cc + 1
                    } else {
                        cc
                    };
                    m.body[orig_row * m.rows + orig_col]
                },
        ),
    }
}

/// The alternating sign of the first-column expansion.
pub open spec fn det_sign(s: int) -> ImV {
    if s % 2 == 0 {
        v_one()
    } else {
        v_neg_one()
    }
}

/// The determinant after the first `s` rows of the expansion have been
/// accumulated.
#[verifier::opaque]
pub open spec fn det_partial(m: MatV, s: int) -> ImV
    decreases m.strings, 0int, s,
{
    if s <= 0 || m.strings <= 0 {
        ImV::Zero
    } else {
        v_add(
            det_partial(m, s - 1),
            v_mul(v_mul(ent(m, s - 1, 0), det_sign(s - 1)), spec_det(minor_v(m, s - 1, 0))),
        )
    }
}

/// The determinant: zero for a non-square matrix, the single entry for a
/// one-by-one, the textbook cross product for a two-by-two, and the
/// first-column Laplace expansion beyond that.
#[verifier::opaque]
pub open spec fn spec_det(m: MatV) -> ImV
    decreases m.strings, 1int, 0int,
{
    if m.strings != m.rows {
        ImV::Zero
    } else if m.strings <= 0 {
        ImV::Zero
    } else if m.strings == 1 {
        m.body[0]
    } else if m.strings == 2 {
        v_add(ImV::Zero, v_sub(v_mul(m.body[0], m.body[3]), v_mul(m.body[1], m.body[2])))
    } else {
        det_partial(m, m.strings)
    }
}

impl ImMatrix {
    /// Builds a matrix from its dimensions and row-major body.
    pub fn new(strings: usize, rows: usize, body: Vec<Im>) -> (r: Result<ImMatrix, MatrixError>)
        ensures
            r is Ok <==> (strings >= 1 && rows >= 1 && body@.len() == strings * rows),
            r is Ok ==> r->Ok_0@ == (MatV {
                strings: strings as int,
                rows: rows as int,
                body: views_of(body@),
            }),
            r is Err ==> ((strings == 0 || rows == 0) && r->Err_0 == MatrixError::ZeroDimension
                || strings >= 1 && rows >= 1 && body@.len() != strings * rows && r->Err_0
                == MatrixError::SizeMismatch),
    {
        if strings == 0 || rows == 0 {
            return Err(MatrixError::ZeroDimension);
        }
        let prod_ok: bool = rows != 0 && body.len() / rows == strings && body.len() % rows == 0;
        proof {
            vstd::arithmetic::div_mod::lemma_fundamental_div_mod(body@.len() as int, rows as int);
            if prod_ok {
                assert(body@.len() == rows * strings + 0);
                assert(rows * strings == strings * rows) by (nonlinear_arith);
            }
            if body@.len() == strings * rows {
                vstd::arithmetic::div_mod::lemma_fundamental_div_mod_converse(
                    body@.len() as int,
                    rows as int,
                    strings as int,
                    0,
                );
            }
        }
        if !prod_ok {
            return Err(MatrixError::SizeMismatch);
        }
        proof {
            lemma_views_of_index(body@);
        }
        Ok(ImMatrix { strings, rows, body })
    }

    /// The number of rows.
    pub fn string_count(&self) -> (r: usize)
        ensures
            r as int == self@.strings,
    {
        self.strings
    }

    /// The number of columns.
    pub fn row_len(&self) -> (r: usize)
        ensures
            r as int == self@.rows,
    {
        self.rows
    }

    /// A copy of the entry in row `i`, column `j`.
    pub fn entry(&self, i: usize, j: usize) -> (r: Im)
        requires
            0 <= i as int * self@.rows + j < self@.body.len(),
        ensures
            r@ == self@.body[i as int * self@.rows + j],
    {
        proof {
            lemma_views_of_index(self.body@);
            assert(self@.rows == self.rows as int);
            assert(self@.body.len() == self.body@.len());
            assert(i as int * self@.rows + j < self.body@.len());
            assert((i as int) * (self.rows as int) + (j as int) < self.body@.len());
            assert((i as int) * (self.rows as int) >= 0) by (nonlinear_arith);
        }
        // reading the length puts its machine bound in scope for the index
        let _n = self.body.len();
        let idx: usize = i * self.rows + j;
        self.body[idx].deep_clone()
    }
}

/// Element-wise sum of two same-shape matrices.
pub open spec fn mat_add(m1: MatV, m2: MatV) -> MatV {
    MatV {
        strings: m1.strings,
        rows: m1.rows,
        body: Seq::new(m1.body.len(), |k: int| v_add(m1.body[k], m2.body[k])),
    }
}

/// Element-wise difference of two same-shape matrices.
pub open spec fn mat_sub(m1: MatV, m2: MatV) -> MatV {
    MatV {
        strings: m1.strings,
        rows: m1.rows,
        body: Seq::new(m1.body.len(), |k: int| v_sub(m1.body[k], m2.body[k])),
    }
}

/// Every entry multiplied by the scalar `x`.
pub open spec fn mat_scale(m: MatV, x: ImV) -> MatV {
    MatV {
        strings: m.strings,
        rows: m.rows,
        body: Seq::new(m.body.len(), |k: int| v_mul(m.body[k], x)),
    }
}

/// The row-by-column dot product, accumulated from the left over the first
/// `k` inner positions.
#[verifier::opaque]
pub open spec fn dot(m1: MatV, m2: MatV, i: int, j: int, k: int) -> ImV
    decreases k,
{
    if k <= 0 {
        ImV::Zero
    } else {
        v_add(dot(m1, m2, i, j, k - 1), v_mul(ent(m1, i, k - 1), ent(m2, k - 1, j)))
    }
}

/// The matrix product.
pub open spec fn mat_mul(m1: MatV, m2: MatV) -> MatV {
    MatV {
        strings: m1.strings,
        rows: m2.rows,
        body: Seq::new(
            (m1.strings * m2.rows) as nat,
            |k: int| dot(m1, m2, k / m2.rows, k % m2.rows, m1.rows),
        ),
    }
}

/// The transpose: the entry at row `i`, column `j` moves to row `j`,
/// column `i`.
pub open spec fn mat_transpose(m: MatV) -> MatV {
    MatV {
        strings: m.rows,
        rows: m.strings,
        body: Seq::new(
            m.body.len(),
            |k: int| m.body[(k % m.strings) * m.rows + k / m.strings],
        ),
    }
}

/// The cofactor matrix: every entry is the signed determinant of the
/// submatrix that removes that entry's row and column.
pub open spec fn mat_cof(m: MatV) -> MatV {
    MatV {
        strings: m.strings,
        rows: m.rows,
        body: Seq::new(
            m.body.len(),
            |k: int| v_mul(det_sign(k / m.rows + k % m.rows), spec_det(minor_v(m, k / m.rows, k % m.rows))),
        ),
    }
}

/// The matrix with column `r` replaced by the right-hand side `d`.
pub open spec fn mat_col_replaced(m: MatV, r: int, d: Seq<ImV>) -> MatV {
    MatV {
        strings: m.strings,
        rows: m.rows,
        body: Seq::new(
            m.body.len(),
            |k: int|
                if k % m.rows == r {
                    d[k / m.rows]
                } else {
                    m.body[k]
                },
        ),
    }
}

/// `m` multiplied by itself until `n` factors are reached (`n >= 1`).
pub open spec fn mat_pow_rep(m: MatV, n: nat) -> MatV
    decreases n,
{
    if n <= 1 {
        m
    } else {
        mat_mul(mat_pow_rep(m, (n - 1) as nat), m)
    }
}

/// A minor of a well-formed matrix is well formed.
pub proof fn lemma_minor_wf(m: MatV, s: int, r: int)
    requires
        wf_mat(m),
        m.strings >= 2,
        m.rows >= 2,
        0 <= s < m.strings,
        0 <= r < m.rows,
    ensures
        wf_mat(minor_v(m, s, r)),
        minor_v(m, s, r).strings == m.strings - 1,
        minor_v(m, s, r).rows == m.rows - 1,
{
    let sub = minor_v(m, s, r);
    assert(sub.body.len() == (m.strings - 1) * (m.rows - 1));
    assert((m.strings - 1) * (m.rows - 1) >= 1) by (nonlinear_arith)
        requires m.strings >= 2, m.rows >= 2,
    ;
    assert forall|k: int| 0 <= k < sub.body.len() implies wf_v(#[trigger] sub.body[k]) by {
        let rr = k / (m.rows - 1);
        let cc = k % (m.rows - 1);
        assert(k < (m.rows - 1) * (m.strings - 1)) by (nonlinear_arith)
            requires k < (m.strings - 1) * (m.rows - 1),
        ;
        vstd::arithmetic::div_mod::lemma_multiply_divide_lt(k, m.rows - 1, m.strings - 1);
        vstd::arithmetic::div_mod::lemma_mod_division_less_than_divisor(k, m.rows - 1);
        assert(0 <= rr < m.strings - 1);
        assert(0 <= cc < m.rows - 1);
        let orow = if rr >= s { rr + 1 } else { rr };
        let ocol = if cc >= r { cc + 1 } else { cc };
        assert(0 <= orow < m.strings && 0 <= ocol < m.rows);
        assert(orow * m.rows + ocol < m.strings * m.rows) by (nonlinear_arith)
            requires 0 <= orow < m.strings, 0 <= ocol < m.rows, m.rows >= 1,
        ;
        assert(orow * m.rows + ocol >= 0) by (nonlinear_arith)
            requires orow >= 0, ocol >= 0, m.rows >= 1,
        ;
        assert(wf_v(m.body[orow * m.rows + ocol]));
    }
}

impl ImMatrix {
    /// A copy with the same mathematical value.
    pub fn deep_clone(&self) -> (r: ImMatrix)
        ensures
            r@ == self@,
    {
        ImMatrix {
            strings: self.strings,
            rows: self.rows,
            body: crate::num::clone_vec(&self.body),
        }
    }

    /// The submatrix that removes row `s` and column `r`.
    fn minor(&self, s: usize, r: usize) -> (out: ImMatrix)
        requires
            wf_mat(self@),
            self@.strings >= 2,
            self@.rows >= 2,
            0 <= s < self@.strings,
            0 <= r < self@.rows,
        ensures
            out@ == minor_v(self@, s as int, r as int),
            wf_mat(out@),
    {
        proof {
            lemma_views_of_index(self.body@);
            lemma_minor_wf(self@, s as int, r as int);
        }
        // reading the length puts its machine bound in scope for the index
        let _n = self.body.len();
        let sub_strings: usize = self.strings - 1;
        let sub_rows: usize = self.rows - 1;
        proof {
            let ro = self@.rows;
            let st = self@.strings;
            assert(sub_strings * sub_rows < st * ro) by (nonlinear_arith)
                requires
                    sub_strings == st - 1,
                    sub_rows == ro - 1,
                    st >= 2,
                    ro >= 2,
            ;
        }
        let total: usize = sub_strings * sub_rows;
        let mut out: Vec<Im> = Vec::new();
        let mut k: usize = 0;
        while k < total
            invariant
                k <= total,
                total == sub_strings * sub_rows,
                sub_strings == self@.strings - 1,
                sub_rows == self@.rows - 1,
                self@.strings >= 2,
                self@.rows >= 2,
                s < self@.strings,
                r < self@.rows,
                wf_mat(self@),
                self@.rows == self.rows as int,
                self@.strings == self.strings as int,
                self@.body.len() == self.body@.len(),
                forall|j: int|
                    0 <= j < self.body@.len() ==> self@.body[j] == #[trigger] self.body@[
                    j].deep_view(),
                out@.len() == k,
                forall|j: int|
                    0 <= j < k ==> #[trigger] out@[j].deep_view() == minor_v(
                        self@,
                        s as int,
                        r as int,
                    ).body[j],
            decreases total - k,
        {
            let rr: usize = k / sub_rows;
            let cc: usize = k % sub_rows;
            proof {
                assert((k as int) < (sub_rows as int) * (sub_strings as int)) by (nonlinear_arith)
                    requires (k as int) < (sub_strings as int) * (sub_rows as int),
                ;
                vstd::arithmetic::div_mod::lemma_multiply_divide_lt(
                    k as int,
                    sub_rows as int,
                    sub_strings as int,
                );
                vstd::arithmetic::div_mod::lemma_mod_division_less_than_divisor(
                    k as int,
                    sub_rows as int,
                );
            }
            let orow: usize = if rr >= s {
                rr + 1
            } else {
                rr
            };
            let ocol: usize = if cc >= r {
                cc + 1
            } else {
                cc
            };
            proof {
                let ro = self@.rows;
                let st = self@.strings;
                assert(orow < st && ocol < ro);
                assert((orow as int) * ro + ocol < st * ro) by (nonlinear_arith)
                    requires
                        orow as int >= 0,
                        (orow as int) < st,
                        ocol as int >= 0,
                        (ocol as int) < ro,
                        ro >= 1,
                ;
                assert((orow as int) * ro + ocol >= 0) by (nonlinear_arith)
                    requires orow as int >= 0, ocol as int >= 0, ro >= 1,
                ;
            }
            let _nb = self.body.len();
            let e = self.body[orow * self.rows + ocol].deep_clone();
            out.push(e);
            k = k + 1;
        }
        proof {
            lemma_views_of_index(out@);
            assert forall|j: int|
                0 <= j < views_of(out@).len() implies views_of(out@)[j] == minor_v(
                self@,
                s as int,
                r as int,
            ).body[j] by {
                assert(out@[j].deep_view() == minor_v(self@, s as int, r as int).body[j]);
            }
            assert(views_of(out@) =~= minor_v(self@, s as int, r as int).body);
        }
        ImMatrix { strings: sub_strings, rows: sub_rows, body: out }
    }

    /// The determinant: zero for a non-square matrix, otherwise the
    /// first-column Laplace expansion.
    /// One signed term of the first-column expansion.
    fn det_term(&self, s: usize) -> (r: Im)
        requires
            wf_mat(self@),
            self@.strings == self@.rows,
            self@.strings >= 3,
            0 <= s < self@.strings,
        ensures
            r@ == v_mul(
                v_mul(ent(self@, s as int, 0), det_sign(s as int)),
                spec_det(minor_v(self@, s as int, 0)),
            ),
            wf_v(r@),
        decreases self@.strings, 0int,
    {
        proof {
            lemma_views_of_index(self.body@);
            let ro = self@.rows;
            let st = self@.strings;
            assert((s as int) * ro + 0 < st * ro) by (nonlinear_arith)
                requires s as int >= 0, (s as int) < st, ro >= 1,
            ;
            assert((s as int) * ro >= 0) by (nonlinear_arith)
                requires s as int >= 0, ro >= 1,
            ;
            lemma_minor_wf(self@, s as int, 0);
        }
        let _nb = self.body.len();
        let elem = self.body[s * self.rows].deep_clone();
        let sign = if s % 2 == 0 {
            Im::one()
        } else {
            Im::Simple { mag: Rat { n: -1, d: 1 }, ipow: 0 }
        };
        proof {
            assert(sign@ == det_sign(s as int));
            assert(wf_v(sign@));
        }
        let sub = self.minor(s, 0);
        let minor_det = sub.det();
        let signed = mul_val(&elem, &sign);
        mul_val(&signed, &minor_det)
    }

    /// The textbook cross product of a two-by-two determinant.
    fn det_2x2(&self) -> (r: Im)
        requires
            wf_mat(self@),
            self@.strings == 2,
            self@.rows == 2,
        ensures
            r@ == spec_det(self@),
            wf_v(r@),
    {
        proof {
            reveal(spec_det);
            lemma_views_of_index(self.body@);
        }
        let p1 = mul_val(&self.body[0], &self.body[3]);
        let p2 = mul_val(&self.body[1], &self.body[2]);
        let minor = sub_val(&p1, &p2);
        let z = Im::Zero;
        add_val(&z, &minor)
    }

    /// The accumulated first-column expansion of a square matrix.
    #[verifier::rlimit(100)]
    #[verifier::spinoff_prover]
    fn det_expand(&self) -> (r: Im)
        requires
            wf_mat(self@),
            self@.strings == self@.rows,
            self@.strings >= 3,
        ensures
            r@ == det_partial(self@, self@.strings),
            wf_v(r@),
        decreases self@.strings, 1int,
    {
        let mut acc = Im::Zero;
        let mut s: usize = 0;
        proof {
            reveal(det_partial);
        }
        while s < self.strings
            invariant
                s <= self@.strings,
                wf_mat(self@),
                self@.strings == self@.rows,
                self@.strings >= 3,
                self@.strings == self.strings as int,
                wf_v(acc@),
                acc@ == det_partial(self@, s as int),
            decreases self@.strings - s,
        {
            let d = self.det_term(s);
            let next = add_val(&acc, &d);
            proof {
                reveal(det_partial);
            }
            acc = next;
            s = s + 1;
        }
        acc
    }

    /// The determinant: zero for a non-square matrix, otherwise the
    /// first-column Laplace expansion.
    #[verifier::rlimit(100)]
    #[verifier::spinoff_prover]
    pub fn det(&self) -> (r: Im)
        requires
            wf_mat(self@),
        ensures
            r@ == spec_det(self@),
            wf_v(r@),
        decreases self@.strings, 2int,
    {
        proof {
            reveal(spec_det);
            lemma_views_of_index(self.body@);
        }
        if self.strings != self.rows {
            return Im::Zero;
        }
        if self.strings == 1 {
            return self.body[0].deep_clone();
        }
        if self.strings == 2 {
            return self.det_2x2();
        }
        self.det_expand()
    }

    /// Element-wise addition; the dimensions must agree.
    pub fn add_by_ref(&self, rhs: &ImMatrix) -> (r: Result<ImMatrix, MatrixError>)
        requires
            wf_mat(self@),
            wf_mat(rhs@),
        ensures
            r is Ok <==> (self@.strings == rhs@.strings && self@.rows == rhs@.rows),
            r is Ok ==> r->Ok_0@ == mat_add(self@, rhs@) && wf_mat(r->Ok_0@),
            r is Err ==> r->Err_0 == MatrixError::DimensionMismatch,
    {
        if self.rows != rhs.rows || self.strings != rhs.strings {
            return Err(MatrixError::DimensionMismatch);
        }
        let out = self.zip_entries(rhs, true);
        Ok(out)
    }

    /// Element-wise subtraction; the dimensions must agree.
    pub fn sub_by_ref(&self, rhs: &ImMatrix) -> (r: Result<ImMatrix, MatrixError>)
        requires
            wf_mat(self@),
            wf_mat(rhs@),
        ensures
            r is Ok <==> (self@.strings == rhs@.strings && self@.rows == rhs@.rows),
            r is Ok ==> r->Ok_0@ == mat_sub(self@, rhs@) && wf_mat(r->Ok_0@),
            r is Err ==> r->Err_0 == MatrixError::DimensionMismatch,
    {
        if self.rows != rhs.rows || self.strings != rhs.strings {
            return Err(MatrixError::DimensionMismatch);
        }
        let out = self.zip_entries(rhs, false);
        Ok(out)
    }

    /// The element-wise sum or difference of two same-shape matrices.
    fn zip_entries(&self, rhs: &ImMatrix, adding: bool) -> (r: ImMatrix)
        requires
            wf_mat(self@),
            wf_mat(rhs@),
            self@.strings == rhs@.strings,
            self@.rows == rhs@.rows,
        ensures
            adding ==> r@ == mat_add(self@, rhs@),
            !adding ==> r@ == mat_sub(self@, rhs@),
            wf_mat(r@),
    {
        proof {
            lemma_views_of_index(self.body@);
            lemma_views_of_index(rhs.body@);
        }
        let n = self.body.len();
        let mut out: Vec<Im> = Vec::new();
        let mut k: usize = 0;
        while k < n
            invariant
                k <= n,
                n == self.body@.len(),
                wf_mat(self@),
                wf_mat(rhs@),
                self@.strings == rhs@.strings,
                self@.rows == rhs@.rows,
                self@.body.len() == self.body@.len(),
                rhs@.body.len() == rhs.body@.len(),
                self@.body.len() == rhs@.body.len(),
                forall|j: int|
                    0 <= j < self.body@.len() ==> self@.body[j] == #[trigger] self.body@[
                    j].deep_view(),
                forall|j: int|
                    0 <= j < rhs.body@.len() ==> rhs@.body[j] == #[trigger] rhs.body@[
                    j].deep_view(),
                out@.len() == k,
                forall|j: int|
                    0 <= j < k ==> #[trigger] out@[j].deep_view() == (if adding {
                        v_add(self@.body[j], rhs@.body[j])
                    } else {
                        v_sub(self@.body[j], rhs@.body[j])
                    }) && wf_v(out@[j].deep_view()),
            decreases n - k,
        {
            let e = if adding {
                add_val(&self.body[k], &rhs.body[k])
            } else {
                sub_val(&self.body[k], &rhs.body[k])
            };
            out.push(e);
            k = k + 1;
        }
        proof {
            lemma_views_of_index(out@);
            if adding {
                assert forall|j: int|
                    0 <= j < views_of(out@).len() implies views_of(out@)[j] == mat_add(
                    self@,
                    rhs@,
                ).body[j] by {
                    assert(out@[j].deep_view() == v_add(self@.body[j], rhs@.body[j]));
                }
                assert(views_of(out@) =~= mat_add(self@, rhs@).body);
                assert forall|j: int| 0 <= j < views_of(out@).len() implies wf_v(
                    #[trigger] views_of(out@)[j],
                ) by {
                    assert(wf_v(out@[j].deep_view()));
                }
            } else {
                assert forall|j: int|
                    0 <= j < views_of(out@).len() implies views_of(out@)[j] == mat_sub(
                    self@,
                    rhs@,
                ).body[j] by {
                    assert(out@[j].deep_view() == v_sub(self@.body[j], rhs@.body[j]));
                }
                assert(views_of(out@) =~= mat_sub(self@, rhs@).body);
                assert forall|j: int| 0 <= j < views_of(out@).len() implies wf_v(
                    #[trigger] views_of(out@)[j],
                ) by {
                    assert(wf_v(out@[j].deep_view()));
                }
            }
        }
        ImMatrix { strings: self.strings, rows: self.rows, body: out }
    }

    /// Every entry multiplied by the scalar `num`.
    pub fn mul_num(&self, num: &Im) -> (r: ImMatrix)
        requires
            wf_mat(self@),
            wf_v(num@),
        ensures
            r@ == mat_scale(self@, num@),
            wf_mat(r@),
    {
        proof {
            lemma_views_of_index(self.body@);
        }
        let n = self.body.len();
        let mut out: Vec<Im> = Vec::new();
        let mut k: usize = 0;
        while k < n
            invariant
                k <= n,
                n == self.body@.len(),
                wf_mat(self@),
                wf_v(num@),
                self@.body.len() == self.body@.len(),
                forall|j: int|
                    0 <= j < self.body@.len() ==> self@.body[j] == #[trigger] self.body@[
                    j].deep_view(),
                out@.len() == k,
                forall|j: int|
                    0 <= j < k ==> #[trigger] out@[j].deep_view() == v_mul(
                        self@.body[j],
                        num@,
                    ) && wf_v(out@[j].deep_view()),
            decreases n - k,
        {
            let e = mul_val(&self.body[k], num);
            out.push(e);
            k = k + 1;
        }
        proof {
            lemma_views_of_index(out@);
            assert forall|j: int|
                0 <= j < views_of(out@).len() implies views_of(out@)[j] == mat_scale(
                self@,
                num@,
            ).body[j] by {
                assert(out@[j].deep_view() == v_mul(self@.body[j], num@));
            }
            assert(views_of(out@) =~= mat_scale(self@, num@).body);
            assert forall|j: int| 0 <= j < views_of(out@).len() implies wf_v(
                #[trigger] views_of(out@)[j],
            ) by {
                assert(wf_v(out@[j].deep_view()));
            }
        }
        ImMatrix { strings: self.strings, rows: self.rows, body: out }
    }

    /// The transpose.
    pub fn transpose(&self) -> (r: ImMatrix)
        requires
            wf_mat(self@),
        ensures
            r@ == mat_transpose(self@),
            wf_mat(r@),
    {
        proof {
            lemma_views_of_index(self.body@);
        }
        let n = self.body.len();
        let mut out: Vec<Im> = Vec::new();
        let mut k: usize = 0;
        while k < n
            invariant
                k <= n,
                n == self.body@.len(),
                wf_mat(self@),
                self@.rows == self.rows as int,
                self@.strings == self.strings as int,
                self@.body.len() == self.body@.len(),
                forall|j: int|
                    0 <= j < self.body@.len() ==> self@.body[j] == #[trigger] self.body@[
                    j].deep_view(),
                out@.len() == k,
                forall|j: int|
                    0 <= j < k ==> #[trigger] out@[j].deep_view() == self@.body[(j % self@.strings)
                        * self@.rows + j / self@.strings] && wf_v(out@[j].deep_view()),
            decreases n - k,
        {
            proof {
                vstd::arithmetic::div_mod::lemma_mod_division_less_than_divisor(
                    k as int,
                    self@.strings,
                );
                assert(self@.body.len() == self@.strings * self@.rows);
                vstd::arithmetic::div_mod::lemma_multiply_divide_lt(
                    k as int,
                    self@.strings,
                    self@.rows,
                );
                let ro = self@.rows;
                let st = self@.strings;
                assert((k as int % st) * ro + k as int / st < st * ro) by (nonlinear_arith)
                    requires
                        k as int % st >= 0,
                        (k as int % st) < st,
                        k as int / st >= 0,
                        (k as int / st) < ro,
                        ro >= 1,
                        st >= 1,
                ;
                assert((k as int % st) * ro + k as int / st >= 0) by (nonlinear_arith)
                    requires
                        k as int % st >= 0,
                        k as int / st >= 0,
                        ro >= 1,
                ;
            }
            let _nb = self.body.len();
            let idx: usize = (k % self.strings) * self.rows + k / self.strings;
            let e = self.body[idx].deep_clone();
            out.push(e);
            k = k + 1;
        }
        proof {
            lemma_views_of_index(out@);
            assert forall|j: int|
                0 <= j < views_of(out@).len() implies views_of(out@)[j] == mat_transpose(
                self@,
            ).body[j] by {
                assert(out@[j].deep_view() == self@.body[(j % self@.strings) * self@.rows + j
                    / self@.strings]);
            }
            assert(views_of(out@) =~= mat_transpose(self@).body);
            assert forall|j: int| 0 <= j < views_of(out@).len() implies wf_v(
                #[trigger] views_of(out@)[j],
            ) by {
                assert(wf_v(out@[j].deep_view()));
            }
            assert(self@.rows * self@.strings == self@.strings * self@.rows) by (nonlinear_arith);
        }
        ImMatrix { strings: self.rows, rows: self.strings, body: out }
    }

    /// The row-by-column dot product of row `i` of `self` with column `j`
    /// of `rhs`, over the first `k` inner positions.
    fn dot_exec(&self, rhs: &ImMatrix, i: usize, j: usize, k: usize) -> (r: Im)
        requires
            wf_mat(self@),
            wf_mat(rhs@),
            self@.rows == rhs@.strings,
            i as int >= 0,
            (i as int) < self@.strings,
            j as int >= 0,
            (j as int) < rhs@.rows,
            k as int <= self@.rows,
        ensures
            r@ == dot(self@, rhs@, i as int, j as int, k as int),
            wf_v(r@),
        decreases k,
    {
        proof {
            reveal(dot);
        }
        if k == 0 {
            return Im::Zero;
        }
        let prev = self.dot_exec(rhs, i, j, k - 1);
        proof {
            lemma_views_of_index(self.body@);
            lemma_views_of_index(rhs.body@);
            let ro1 = self@.rows;
            let st1 = self@.strings;
            let ro2 = rhs@.rows;
            let st2 = rhs@.strings;
            assert((i as int) * ro1 + (k - 1) < st1 * ro1) by (nonlinear_arith)
                requires
                    i as int >= 0,
                    (i as int) < st1,
                    k as int - 1 >= 0,
                    (k as int - 1) < ro1,
                    ro1 >= 1,
            ;
            assert((i as int) * ro1 >= 0) by (nonlinear_arith)
                requires i as int >= 0, ro1 >= 1,
            ;
            assert((k as int - 1) * ro2 + (j as int) < st2 * ro2) by (nonlinear_arith)
                requires
                    k as int - 1 >= 0,
                    (k as int - 1) < st2,
                    j as int >= 0,
                    (j as int) < ro2,
                    ro2 >= 1,
            ;
            assert((k as int - 1) * ro2 >= 0) by (nonlinear_arith)
                requires k as int - 1 >= 0, ro2 >= 1,
            ;
        }
        let _n1 = self.body.len();
        let _n2 = rhs.body.len();
        let x = &self.body[i * self.rows + (k - 1)];
        let y = &rhs.body[(k - 1) * rhs.rows + j];
        let p = mul_val(x, y);
        add_val(&prev, &p)
    }

    /// The matrix product; the inner dimensions must agree.
    #[verifier::rlimit(100)]
    pub fn mul_by_ref(&self, rhs: &ImMatrix) -> (r: Result<ImMatrix, MatrixError>)
        requires
            wf_mat(self@),
            wf_mat(rhs@),
        ensures
            r is Ok <==> (self@.rows == rhs@.strings && self@.strings * rhs@.rows
                <= usize::MAX),
            r is Ok ==> r->Ok_0@ == mat_mul(self@, rhs@) && wf_mat(r->Ok_0@),
            r is Err ==> r->Err_0 == MatrixError::DimensionMismatch,
    {
        if self.rows != rhs.strings {
            return Err(MatrixError::DimensionMismatch);
        }
        let total: usize = match self.strings.checked_mul(rhs.rows) {
            Some(t) => t,
            None => {
                return Err(MatrixError::DimensionMismatch);
            },
        };
        let mut out: Vec<Im> = Vec::new();
        let mut k: usize = 0;
        while k < total
            invariant
                k <= total,
                total == self@.strings * rhs@.rows,
                wf_mat(self@),
                wf_mat(rhs@),
                self@.rows == rhs@.strings,
                self@.strings == self.strings as int,
                self@.rows == self.rows as int,
                rhs@.rows == rhs.rows as int,
                out@.len() == k,
                forall|j: int|
                    0 <= j < k ==> #[trigger] out@[j].deep_view() == dot(
                        self@,
                        rhs@,
                        j / rhs@.rows,
                        j % rhs@.rows,
                        self@.rows,
                    ) && wf_v(out@[j].deep_view()),
            decreases total - k,
        {
            proof {
                assert((k as int) < self@.strings * rhs@.rows);
                assert((k as int) < rhs@.rows * self@.strings) by (nonlinear_arith)
                    requires (k as int) < self@.strings * rhs@.rows,
                ;
                vstd::arithmetic::div_mod::lemma_multiply_divide_lt(
                    k as int,
                    rhs@.rows,
                    self@.strings,
                );
                vstd::arithmetic::div_mod::lemma_mod_division_less_than_divisor(
                    k as int,
                    rhs@.rows,
                );
            }
            let e = self.dot_exec(rhs, k / rhs.rows, k % rhs.rows, self.rows);
            out.push(e);
            k = k + 1;
        }
        proof {
            lemma_views_of_index(out@);
            assert forall|j: int|
                0 <= j < views_of(out@).len() implies views_of(out@)[j] == mat_mul(
                self@,
                rhs@,
            ).body[j] by {
                assert(out@[j].deep_view() == dot(self@, rhs@, j / rhs@.rows, j % rhs@.rows,
                    self@.rows));
            }
            assert(views_of(out@) =~= mat_mul(self@, rhs@).body);
            assert forall|j: int| 0 <= j < views_of(out@).len() implies wf_v(
                #[trigger] views_of(out@)[j],
            ) by {
                assert(wf_v(out@[j].deep_view()));
            }
        }
        Ok(ImMatrix { strings: self.strings, rows: rhs.rows, body: out })
    }

    /// One signed cofactor entry.
    #[verifier::rlimit(100)]
    fn cof_entry(&self, s: usize, r: usize) -> (out: Im)
        requires
            wf_mat(self@),
            self@.strings == self@.rows,
            self@.strings >= 2,
            0 <= s < self@.strings,
            0 <= r < self@.rows,
        ensures
            out@ == v_mul(det_sign(s as int + r as int), spec_det(minor_v(self@, s as int, r as int))),
            wf_v(out@),
    {
        proof {
            lemma_views_of_index(self.body@);
            lemma_minor_wf(self@, s as int, r as int);
        }
        let _nb = self.body.len();
        proof {
            let st = self@.strings;
            assert(st * st <= usize::MAX) by (nonlinear_arith)
                requires
                    st * st == self.body@.len(),
                    self.body@.len() <= usize::MAX,
            ;
            assert((s as int) + (r as int) <= usize::MAX) by (nonlinear_arith)
                requires
                    (s as int) < st,
                    (r as int) < st,
                    st >= 2,
                    st * st <= usize::MAX,
            ;
        }
        let sign = if (s + r) % 2 == 0 {
            Im::one()
        } else {
            Im::Simple { mag: Rat { n: -1, d: 1 }, ipow: 0 }
        };
        proof {
            assert(sign@ == det_sign(s as int + r as int));
            assert(wf_v(sign@));
        }
        let sub = self.minor(s, r);
        let d = sub.det();
        mul_val(&sign, &d)
    }

    /// The cofactor matrix: the signed determinants of all minors; nothing
    /// for a non-square matrix.
    #[verifier::rlimit(100)]
    pub fn cofactor_matrix(&self) -> (r: Option<ImMatrix>)
        requires
            wf_mat(self@),
        ensures
            r is Some <==> (self@.strings == self@.rows && self@.strings >= 2),
            r is Some ==> r->0@ == mat_cof(self@) && wf_mat(r->0@),
    {
        if self.strings != self.rows || self.strings < 2 {
            return None;
        }
        proof {
            lemma_views_of_index(self.body@);
        }
        let n = self.body.len();
        let mut out: Vec<Im> = Vec::new();
        let mut k: usize = 0;
        while k < n
            invariant
                k <= n,
                n == self.body@.len(),
                wf_mat(self@),
                self@.strings == self@.rows,
                self@.strings >= 2,
                self@.strings == self.strings as int,
                self@.rows == self.rows as int,
                self@.body.len() == self.body@.len(),
                out@.len() == k,
                forall|j: int|
                    0 <= j < k ==> #[trigger] out@[j].deep_view() == v_mul(
                        det_sign(j / self@.rows + j % self@.rows),
                        spec_det(minor_v(self@, j / self@.rows, j % self@.rows)),
                    ) && wf_v(out@[j].deep_view()),
            decreases n - k,
        {
            proof {
                assert((k as int) < self@.strings * self@.rows);
                assert((k as int) < self@.rows * self@.strings) by (nonlinear_arith)
                    requires (k as int) < self@.strings * self@.rows,
                ;
                vstd::arithmetic::div_mod::lemma_multiply_divide_lt(
                    k as int,
                    self@.rows,
                    self@.strings,
                );
                vstd::arithmetic::div_mod::lemma_mod_division_less_than_divisor(
                    k as int,
                    self@.rows,
                );
            }
            let e = self.cof_entry(k / self.rows, k % self.rows);
            out.push(e);
            k = k + 1;
        }
        proof {
            lemma_views_of_index(out@);
            assert forall|j: int|
                0 <= j < views_of(out@).len() implies views_of(out@)[j] == mat_cof(self@).body[j]
                by {
                assert(out@[j].deep_view() == v_mul(
                    det_sign(j / self@.rows + j % self@.rows),
                    spec_det(minor_v(self@, j / self@.rows, j % self@.rows)),
                ));
            }
            assert(views_of(out@) =~= mat_cof(self@).body);
            assert forall|j: int| 0 <= j < views_of(out@).len() implies wf_v(
                #[trigger] views_of(out@)[j],
            ) by {
                assert(wf_v(out@[j].deep_view()));
            }
        }
        Some(ImMatrix { strings: self.strings, rows: self.rows, body: out })
    }

    /// The inverse: the transposed cofactor matrix scaled by the reciprocal
    /// of the determinant; nothing for a non-square or singular matrix.
    pub fn inverse(&self) -> (r: Option<ImMatrix>)
        requires
            wf_mat(self@),
        ensures
            r is Some <==> (self@.strings == self@.rows && self@.strings >= 2 && !(spec_det(self@)
                is Zero)),
            r is Some ==> r->0@ == mat_scale(
                mat_transpose(mat_cof(self@)),
                v_div(v_one(), spec_det(self@)),
            ) && wf_mat(r->0@),
    {
        if self.strings != self.rows || self.strings < 2 {
            return None;
        }
        let d = self.det();
        if d.is_zero() {
            return None;
        }
        let cof = match self.cofactor_matrix() {
            Some(c) => c,
            None => {
                return None;  // unreachable: the matrix is square
            },
        };
        let adj = cof.transpose();
        let one_im = Im::one();
        let scale = div_val(&one_im, &d);
        Some(adj.mul_num(&scale))
    }

    /// The matrix raised to a whole power: zero gives the zero matrix of
    /// the same shape, one a copy, and anything more repeated
    /// multiplication.  A non-square matrix is refused.
    pub fn pow(&self, n: usize) -> (r: Result<ImMatrix, MatrixError>)
        requires
            wf_mat(self@),
        ensures
            r is Ok <==> self@.strings == self@.rows,
            r is Err ==> r->Err_0 == MatrixError::DimensionMismatch,
            (r is Ok && n == 0) ==> r->Ok_0@ == (MatV {
                strings: self@.strings,
                rows: self@.rows,
                body: Seq::new(self@.body.len(), |k: int| ImV::Zero),
            }),
            (r is Ok && n >= 1) ==> r->Ok_0@ == mat_pow_rep(self@, n as nat),
            r is Ok ==> wf_mat(r->Ok_0@),
    {
        if self.strings != self.rows {
            return Err(MatrixError::DimensionMismatch);
        }
        if n == 0 {
            proof {
                lemma_views_of_index(self.body@);
            }
            let total = self.body.len();
            let mut out: Vec<Im> = Vec::new();
            let mut k: usize = 0;
            while k < total
                invariant
                    k <= total,
                    total == self.body@.len(),
                    self@.body.len() == self.body@.len(),
                    out@.len() == k,
                    forall|j: int| 0 <= j < k ==> #[trigger] out@[j].deep_view() == ImV::Zero,
                decreases total - k,
            {
                out.push(Im::Zero);
                k = k + 1;
            }
            proof {
                lemma_views_of_index(out@);
                assert forall|j: int|
                    0 <= j < views_of(out@).len() implies views_of(out@)[j] == Seq::new(
                    self@.body.len(),
                    |k2: int| ImV::Zero,
                )[j] by {
                    assert(out@[j].deep_view() == ImV::Zero);
                }
                assert(views_of(out@) =~= Seq::new(self@.body.len(), |k2: int| ImV::Zero));
            }
            return Ok(ImMatrix { strings: self.strings, rows: self.rows, body: out });
        }
        let mut acc = self.deep_clone();
        let mut done: usize = 1;
        while done < n
            invariant
                1 <= done <= n,
                wf_mat(self@),
                self@.strings == self@.rows,
                wf_mat(acc@),
                acc@ == mat_pow_rep(self@, done as nat),
                acc@.strings == self@.strings,
                acc@.rows == self@.rows,
            decreases n - done,
        {
            let _nb = acc.body.len();
            proof {
                lemma_views_of_index(acc.body@);
                assert(acc@.body.len() == acc.body@.len());
                assert(acc@.strings * acc@.rows <= usize::MAX);
                assert(acc@.strings * self@.rows <= usize::MAX) by (nonlinear_arith)
                    requires
                        acc@.strings * acc@.rows <= usize::MAX,
                        acc@.rows == self@.rows,
                ;
            }
            let next = match acc.mul_by_ref(self) {
                Ok(m) => m,
                Err(_) => {
                    proof {
                        assert(false);
                    }
                    return Err(MatrixError::DimensionMismatch);
                },
            };
            acc = next;
            done = done + 1;
        }
        Ok(acc)
    }

    /// Solves the linear system by Cramer's rule: nothing for a non-square
    /// or singular matrix; an error when the right-hand side length does
    /// not match the row count.
    pub fn slae(&self, d: &Vec<Im>) -> (r: Result<Option<Vec<Im>>, MatrixError>)
        requires
            wf_mat(self@),
            forall|j: int| 0 <= j < views_of(d@).len() ==> wf_v(#[trigger] views_of(d@)[j]),
        ensures
            r is Err <==> (self@.strings == self@.rows && d@.len() != self@.strings),
            r is Err ==> r->Err_0 == MatrixError::DimensionMismatch,
            (r is Ok && r->Ok_0 is Some) <==> (self@.strings == self@.rows && d@.len()
                == self@.strings && !(spec_det(self@) is Zero)),
            (r is Ok && r->Ok_0 is Some) ==> {
                let xs = r->Ok_0->0;
                &&& views_of(xs@).len() == self@.rows
                &&& forall|j: int|
                    0 <= j < self@.rows ==> #[trigger] views_of(xs@)[j] == v_div(
                        spec_det(mat_col_replaced(self@, j, views_of(d@))),
                        spec_det(self@),
                    )
            },
    {
        proof {
            lemma_views_of_index(d@);
        }
        if self.strings != self.rows {
            return Ok(None);
        }
        if d.len() != self.strings {
            return Err(MatrixError::DimensionMismatch);
        }
        let det = self.det();
        if det.is_zero() {
            return Ok(None);
        }
        let mut xs: Vec<Im> = Vec::new();
        let mut r: usize = 0;
        while r < self.rows
            invariant
                r <= self@.rows,
                wf_mat(self@),
                self@.strings == self@.rows,
                d@.len() == self@.strings,
                self@.rows == self.rows as int,
                self@.strings == self.strings as int,
                views_of(d@).len() == d@.len(),
                forall|j: int| 0 <= j < views_of(d@).len() ==> wf_v(#[trigger] views_of(d@)[j]),
                forall|j: int| 0 <= j < d@.len() ==> views_of(d@)[j] == #[trigger] d@[j].deep_view(),
                !(spec_det(self@) is Zero),
                spec_det(self@) == det@,
                wf_v(det@),
                xs@.len() == r,
                forall|j: int|
                    0 <= j < r ==> #[trigger] xs@[j].deep_view() == v_div(
                        spec_det(mat_col_replaced(self@, j, views_of(d@))),
                        spec_det(self@),
                    ),
            decreases self@.rows - r,
        {
            let replaced = self.col_replaced(d, r);
            let dr = replaced.det();
            let x = div_val(&dr, &det);
            xs.push(x);
            r = r + 1;
        }
        proof {
            lemma_views_of_index(xs@);
            assert forall|j: int|
                0 <= j < self@.rows implies #[trigger] views_of(xs@)[j] == v_div(
                spec_det(mat_col_replaced(self@, j, views_of(d@))),
                spec_det(self@),
            ) by {
                assert(xs@[j].deep_view() == v_div(
                    spec_det(mat_col_replaced(self@, j, views_of(d@))),
                    spec_det(self@),
                ));
            }
        }
        Ok(Some(xs))
    }

    /// A copy of the matrix with column `r` replaced by `d`.
    fn col_replaced(&self, d: &Vec<Im>, r: usize) -> (out: ImMatrix)
        requires
            wf_mat(self@),
            d@.len() == self@.strings,
            0 <= r < self@.rows,
            forall|j: int| 0 <= j < views_of(d@).len() ==> wf_v(#[trigger] views_of(d@)[j]),
        ensures
            out@ == mat_col_replaced(self@, r as int, views_of(d@)),
            wf_mat(out@),
    {
        proof {
            lemma_views_of_index(self.body@);
            lemma_views_of_index(d@);
        }
        let n = self.body.len();
        let mut out: Vec<Im> = Vec::new();
        let mut k: usize = 0;
        while k < n
            invariant
                k <= n,
                n == self.body@.len(),
                wf_mat(self@),
                d@.len() == self@.strings,
                r < self@.rows,
                self@.rows == self.rows as int,
                self@.strings == self.strings as int,
                self@.body.len() == self.body@.len(),
                views_of(d@).len() == d@.len(),
                forall|j: int|
                    0 <= j < self.body@.len() ==> self@.body[j] == #[trigger] self.body@[
                    j].deep_view(),
                forall|j: int| 0 <= j < d@.len() ==> views_of(d@)[j] == #[trigger] d@[j].deep_view(),
                forall|j: int| 0 <= j < views_of(d@).len() ==> wf_v(#[trigger] views_of(d@)[j]),
                out@.len() == k,
                forall|j: int|
                    0 <= j < k ==> #[trigger] out@[j].deep_view() == mat_col_replaced(
                        self@,
                        r as int,
                        views_of(d@),
                    ).body[j] && wf_v(out@[j].deep_view()),
            decreases n - k,
        {
            proof {
                assert((k as int) < self@.strings * self@.rows);
                assert((k as int) < self@.rows * self@.strings) by (nonlinear_arith)
                    requires (k as int) < self@.strings * self@.rows,
                ;
                vstd::arithmetic::div_mod::lemma_multiply_divide_lt(
                    k as int,
                    self@.rows,
                    self@.strings,
                );
                vstd::arithmetic::div_mod::lemma_mod_division_less_than_divisor(
                    k as int,
                    self@.rows,
                );
            }
            let e = if k % self.rows == r {
                d[k / self.rows].deep_clone()
            } else {
                self.body[k].deep_clone()
            };
            out.push(e);
            k = k + 1;
        }
        proof {
            lemma_views_of_index(out@);
            assert forall|j: int|
                0 <= j < views_of(out@).len() implies views_of(out@)[j] == mat_col_replaced(
                self@,
                r as int,
                views_of(d@),
            ).body[j] by {
                assert(out@[j].deep_view() == mat_col_replaced(
                    self@,
                    r as int,
                    views_of(d@),
                ).body[j]);
            }
            assert(views_of(out@) =~= mat_col_replaced(self@, r as int, views_of(d@)).body);
            assert forall|j: int| 0 <= j < views_of(out@).len() implies wf_v(
                #[trigger] views_of(out@)[j],
            ) by {
                assert(wf_v(out@[j].deep_view()));
            }
        }
        ImMatrix { strings: self.strings, rows: self.rows, body: out }
    }
}

} // verus!
