//! Products of integer matrices.
use vstd::prelude::*;
use vstd::arithmetic::div_mod::*;
use crate::shape::{lemma_numel_matrix, Shape};
use crate::sum::{lemma_sum_plus, lemma_sum_same, lemma_sum_scale, lemma_sum_single, sum};
use crate::tensor::{Element, Tensor};

verus! {

/// The tensor is a matrix.
pub open spec fn is_matrix<N>(t: Tensor<N>) -> bool {
    t.wf() && t.shape@.len() == 2
}

/// The first `n` terms of the product of row `i` of `a` and column `j` of `b`.
pub open spec fn dot(a: Seq<Element>, b: Seq<Element>, inner: int, cols: int, i: int, j: int, n: nat) -> int {
    sum(n, |k: int| a[i * inner + k] * b[k * cols + j])
}

/// A value of the product of two matrices, with a bias added to each row.
pub open spec fn affine(
    a: Tensor<Element>,
    b: Tensor<Element>,
    bias: Option<Seq<Element>>,
    i: int,
    j: int,
) -> int {
    let inner = a.shape@[1] as int;
    let cols = b.shape@[1] as int;
    dot(a.data@, b.data@, inner, cols, i, j, inner as nat) + match bias {
        Some(t) => t[j] as int,
        None => 0,
    }
}

/// An integer fits into an element.
pub open spec fn fits(x: int) -> bool {
    Element::MIN <= x <= Element::MAX
}

/// Every term and every sum on the way to a product of two matrices fits into an
/// element.
pub open spec fn affine_fits(a: Tensor<Element>, b: Tensor<Element>, bias: Option<Seq<Element>>) -> bool {
    let inner = a.shape@[1] as int;
    let cols = b.shape@[1] as int;
    &&& forall|i: int, j: int, n: nat|
        0 <= i < a.shape@[0] && 0 <= j < cols && n <= inner ==> fits(
            #[trigger] dot(a.data@, b.data@, inner, cols, i, j, n),
        )
    &&& forall|i: int, j: int, k: int|
        0 <= i < a.shape@[0] && 0 <= j < cols && 0 <= k < inner ==> fits(
            #[trigger] a.data@[i * inner + k] * #[trigger] b.data@[k * cols + j],
        )
    &&& forall|i: int, j: int|
        0 <= i < a.shape@[0] && 0 <= j < cols ==> fits(#[trigger] affine(a, b, bias, i, j))
}

/// The bias, where there is one, has a value for each column.
pub open spec fn bias_matches(b: Tensor<Element>, bias: Option<Seq<Element>>) -> bool {
    bias matches Some(t) ==> t.len() == b.shape@[1]
}

/// The tensor `r` is the product of `a` and `b`, with the bias added to each row.
pub open spec fn is_affine(
    a: Tensor<Element>,
    b: Tensor<Element>,
    bias: Option<Seq<Element>>,
    r: Tensor<Element>,
) -> bool {
    let cols = b.shape@[1] as int;
    &&& r.wf()
    &&& r.shape@ == seq![a.shape@[0], b.shape@[1]]
    &&& r.unpadded_shape@ == r.shape@
    &&& r.data@.len() == a.shape@[0] * cols
    &&& forall|i: int, j: int|
        0 <= i < a.shape@[0] && 0 <= j < cols ==> #[trigger] r.data@[i * cols + j] == affine(
            a,
            b,
            bias,
            i,
            j,
        )
}

/// The values of a bias.
pub open spec fn values_of(bias: Option<&Vec<Element>>) -> Option<Seq<Element>> {
    match bias {
        Some(v) => Some(v@),
        None => None,
    }
}

/// The values of the product of two matrices, row by row.
pub open spec fn affine_data(
    a: Tensor<Element>,
    b: Tensor<Element>,
    bias: Option<Seq<Element>>,
) -> Seq<Element> {
    let cols = b.shape@[1] as int;
    Seq::new(
        (a.shape@[0] * cols) as nat,
        |p: int| affine(a, b, bias, p / cols, p % cols) as Element,
    )
}

/// The values of a product, in one sequence.
pub proof fn lemma_affine_data(
    a: Tensor<Element>,
    b: Tensor<Element>,
    bias: Option<Seq<Element>>,
    r: Tensor<Element>,
)
    requires
        a.shape@.len() == 2,
        b.shape@.len() == 2,
        is_affine(a, b, bias, r),
    ensures
        r.data@ == affine_data(a, b, bias),
{
    let cols = b.shape@[1] as int;
    let rows = a.shape@[0] as int;
    assert forall|p: int| 0 <= p < rows * cols implies #[trigger] r.data@[p] == affine_data(
        a,
        b,
        bias,
    )[p] by {
        if cols == 0 {
            assert(rows * cols == 0) by (nonlinear_arith)
                requires
                    cols == 0,
            ;
        }
        let i = p / cols;
        let j = p % cols;
        lemma_fundamental_div_mod(p, cols);
        lemma_mod_bound(p, cols);
        assert(0 <= i < rows) by (nonlinear_arith)
            requires
                p == cols * i + j,
                0 <= p < rows * cols,
                0 <= j < cols,
        ;
        assert(i * cols + j == p) by (nonlinear_arith)
            requires
                p == cols * i + j,
        ;
        assert(r.data@[i * cols + j] == affine(a, b, bias, i, j));
    }
    assert(0 <= rows * cols) by (nonlinear_arith)
        requires
            0 <= rows,
            0 <= cols,
    ;
    assert(r.data@ =~= affine_data(a, b, bias));
}

/// The product of two matrices, with a bias added to each row.
pub fn matmul_bias(
    a: &Tensor<Element>,
    b: &Tensor<Element>,
    bias: Option<&Vec<Element>>,
) -> (r: Tensor<Element>)
    requires
        is_matrix(*a),
        is_matrix(*b),
        a.shape@[1] == b.shape@[0],
        bias_matches(*b, values_of(bias)),
        affine_fits(*a, *b, values_of(bias)),
        a.shape@[0] * b.shape@[1] <= usize::MAX,
    ensures
        is_affine(*a, *b, values_of(bias), r),
        r.data@ == affine_data(*a, *b, values_of(bias)),
{
    let ghost bv = values_of(bias);
    let rows: usize = a.shape.dims[0];
    let inner: usize = a.shape.dims[1];
    let cols: usize = b.shape.dims[1];
    proof {
        assert(a.shape@ =~= seq![rows, inner]);
        assert(b.shape@ =~= seq![inner, cols]);
        lemma_numel_matrix(rows, inner);
        lemma_numel_matrix(inner, cols);
        lemma_numel_matrix(rows, cols);
        assert(0 * cols == 0);
    }
    let mut data: Vec<Element> = Vec::new();
    for i in 0..rows
        invariant
            a.shape@ == seq![rows, inner],
            b.shape@ == seq![inner, cols],
            a.data@.len() == rows * inner,
            b.data@.len() == inner * cols,
            bv == values_of(bias),
            bias_matches(*b, bv),
            affine_fits(*a, *b, bv),
            rows * cols <= usize::MAX,
            data@.len() == i * cols,
            forall|k: int, j: int|
                0 <= k < i && 0 <= j < cols ==> #[trigger] data@[k * cols as int + j] == affine(
                    *a,
                    *b,
                    bv,
                    k,
                    j,
                ),
    {
        for j in 0..cols
            invariant
                a.shape@ == seq![rows, inner],
                b.shape@ == seq![inner, cols],
                a.data@.len() == rows * inner,
                b.data@.len() == inner * cols,
                bv == values_of(bias),
            bias_matches(*b, bv),
                affine_fits(*a, *b, bv),
                0 <= i < rows,
                data@.len() == i * cols + j,
                forall|k: int, l: int|
                    0 <= k < i && 0 <= l < cols ==> #[trigger] data@[k * cols as int + l] == affine(
                        *a,
                        *b,
                        bv,
                        k,
                        l,
                    ),
                forall|l: int|
                    0 <= l < j ==> #[trigger] data@[i * cols as int + l] == affine(
                        *a,
                        *b,
                        bv,
                        i as int,
                        l,
                    ),
        {
            let x = row_times_column(a, b, i, j, inner, cols, Ghost(bv));
            assert(fits(affine(*a, *b, bv, i as int, j as int)));
            let y: Element = match bias {
                Some(t) => x + t[j],
                None => x,
            };
            let ghost before = data@;
            data.push(y);
            proof {
                let c = cols as int;
                assert forall|k: int, l: int| 0 <= k < i && 0 <= l < cols implies #[trigger] data@[k
                    * cols as int + l] == affine(*a, *b, bv, k, l) by {
                    assert(0 <= k * c + l < i * c) by (nonlinear_arith)
                        requires
                            0 <= k < i,
                            0 <= l < c,
                    ;
                    assert(before[k * cols as int + l] == affine(*a, *b, bv, k, l));
                }
                assert forall|l: int| 0 <= l < j + 1 implies #[trigger] data@[i * cols as int + l]
                    == affine(*a, *b, bv, i as int, l) by {
                    assert(0 <= i * c) by (nonlinear_arith)
                        requires
                            0 <= i,
                            0 <= c,
                    ;
                    if l < j {
                        assert(before[i * cols as int + l] == affine(*a, *b, bv, i as int, l));
                    }
                }
            }
        }
        proof {
            let c = cols as int;
            assert((i + 1) * c == i * c + c) by (nonlinear_arith);
            assert forall|k: int, l: int| 0 <= k < i + 1 && 0 <= l < cols implies #[trigger] data@[k
                * cols as int + l] == affine(*a, *b, bv, k, l) by {
                if k == i {
                    assert(data@[i * cols as int + l] == affine(*a, *b, bv, i as int, l));
                }
            }
        }
    }
    let mut dims: Vec<usize> = Vec::new();
    dims.push(rows);
    dims.push(cols);
    assert(dims@ =~= seq![rows, cols]);
    let shape = Shape::new(dims);
    let r = Tensor { data, unpadded_shape: shape.clone(), shape };
    proof {
        lemma_affine_data(*a, *b, bv, r);
    }
    r
}

/// The product of a row and a column.
fn row_times_column(
    a: &Tensor<Element>,
    b: &Tensor<Element>,
    i: usize,
    j: usize,
    inner: usize,
    cols: usize,
    Ghost(bias): Ghost<Option<Seq<Element>>>,
) -> (r: Element)
    requires
        a.shape@.len() == 2,
        b.shape@.len() == 2,
        inner == a.shape@[1],
        cols == b.shape@[1],
        i < a.shape@[0],
        j < cols,
        a.data@.len() == a.shape@[0] * inner,
        b.data@.len() == inner * cols,
        affine_fits(*a, *b, bias),
    ensures
        r == dot(a.data@, b.data@, inner as int, cols as int, i as int, j as int, inner as nat),
{
    let mut acc: Element = 0;
    let ghost f = |k: int| a.data@[i * inner as int + k] * b.data@[k * cols as int + j];
    let ghost rows = a.shape@[0] as int;
    for k in 0..inner
        invariant
            a.shape@.len() == 2,
            b.shape@.len() == 2,
            inner == a.shape@[1],
            cols == b.shape@[1],
            rows == a.shape@[0],
            i < rows,
            j < cols,
            a.data@.len() == rows * inner,
            b.data@.len() == inner * cols,
            affine_fits(*a, *b, bias),
            f == |k: int| a.data@[i * inner as int + k] * b.data@[k * cols as int + j],
            acc == sum(k as nat, f),
    {
        proof {
            let n = inner as int;
            let c = cols as int;
            let ii = i as int;
            let kk = k as int;
            let jj = j as int;
            assert(0 <= ii * n && ii * n + n <= rows * n) by (nonlinear_arith)
                requires
                    0 <= ii < rows,
                    0 <= n,
            ;
            assert(0 <= kk * c && kk * c + c <= n * c) by (nonlinear_arith)
                requires
                    0 <= kk < n,
                    0 <= c,
            ;
            assert(a.data.len() <= usize::MAX);
            assert(b.data.len() <= usize::MAX);
            assert(fits(a.data@[ii * n + kk] * b.data@[kk * c + jj]));
            let g = |q: int| a.data@[ii * n + q] * b.data@[q * c + jj];
            assert(fits(dot(a.data@, b.data@, n, c, ii, jj, (kk + 1) as nat)));
            lemma_sum_same((kk + 1) as nat, f, g);
            assert(sum((kk + 1) as nat, f) == sum(kk as nat, f) + f(kk));
        }
        acc = acc + a.data[i * inner + k] * b.data[k * cols + j];
    }
    proof {
        let n = inner as int;
        let c = cols as int;
        let ii = i as int;
        let jj = j as int;
        let g = |q: int| a.data@[ii * n + q] * b.data@[q * c + jj];
        lemma_sum_same(inner as nat, f, g);
    }
    acc
}

/// Products without a bias are linear in the first factor, whatever the size of their
/// values: those of a combination of two matrices are the combination of the products.
pub proof fn law_product_linear(
    a: Tensor<Element>,
    b: Tensor<Element>,
    c: Tensor<Element>,
    w: Tensor<Element>,
    x: int,
    y: int,
    ra: Tensor<Element>,
    rb: Tensor<Element>,
    rc: Tensor<Element>,
    i: int,
    j: int,
)
    requires
        is_matrix(a),
        is_matrix(b),
        is_matrix(c),
        b.shape@ == a.shape@,
        c.shape@ == a.shape@,
        forall|p: int|
            0 <= p < a.data@.len() ==> #[trigger] c.data@[p] == x * a.data@[p] + y * b.data@[p],
        is_affine(a, w, None, ra),
        is_affine(b, w, None, rb),
        is_affine(c, w, None, rc),
        0 <= i < a.shape@[0],
        0 <= j < w.shape@[1],
    ensures
        ({
            let p = i * w.shape@[1] + j;
            rc.data@[p] == x * ra.data@[p] + y * rb.data@[p]
        }),
{
    let inner = a.shape@[1] as int;
    let cols = w.shape@[1] as int;
    assert(a.shape@ =~= seq![a.shape@[0], a.shape@[1]]);
    lemma_numel_matrix(a.shape@[0], a.shape@[1]);
    let fa = |k: int| a.data@[i * inner + k] * w.data@[k * cols + j];
    let fb = |k: int| b.data@[i * inner + k] * w.data@[k * cols + j];
    let fc = |k: int| c.data@[i * inner + k] * w.data@[k * cols + j];
    let n = inner as nat;
    let (ga, gb) = (|k: int| x * fa(k), |k: int| y * fb(k));
    assert forall|k: int| 0 <= k < n implies #[trigger] fc(k) == ga(k) + gb(k) by {
        let p = i * inner + k;
        assert(0 <= p < a.shape@[0] * inner) by (nonlinear_arith)
            requires
                0 <= i < a.shape@[0],
                0 <= k < inner,
                p == i * inner + k,
        ;
        let (u, v, z) = (a.data@[p] as int, b.data@[p] as int, w.data@[k * cols + j] as int);
        assert(c.data@[p] == x * u + y * v);
        assert((x * u + y * v) * z == x * (u * z) + y * (v * z)) by (nonlinear_arith);
    }
    lemma_sum_same(n, fc, |k: int| ga(k) + gb(k));
    lemma_sum_plus(n, ga, gb);
    lemma_sum_scale(n, x, fa);
    lemma_sum_scale(n, y, fb);
    assert(ra.data@[i * cols + j] == affine(a, w, None, i, j));
    assert(rb.data@[i * cols + j] == affine(b, w, None, i, j));
    assert(rc.data@[i * cols + j] == affine(c, w, None, i, j));
}

/// A row that is one in a single place picks a row of the matrix, and a bias adds its
/// value to every row.
pub proof fn law_product_unit(
    a: Tensor<Element>,
    w: Tensor<Element>,
    bias: Seq<Element>,
    plain: Tensor<Element>,
    r: Tensor<Element>,
    i: int,
    j: int,
    k: int,
)
    requires
        is_matrix(a),
        is_affine(a, w, None, plain),
        is_affine(a, w, Some(bias), r),
        0 <= i < a.shape@[0],
        0 <= j < w.shape@[1],
        0 <= k < a.shape@[1],
        forall|x: int|
            0 <= x < a.shape@[1] ==> #[trigger] a.data@[i * a.shape@[1] + x] == if x == k {
                1int
            } else {
                0
            },
    ensures
        plain.data@[i * w.shape@[1] + j] == w.data@[k * w.shape@[1] + j],
        r.data@[i * w.shape@[1] + j] == w.data@[k * w.shape@[1] + j] + bias[j],
{
    let inner = a.shape@[1] as int;
    let cols = w.shape@[1] as int;
    let f = |x: int| a.data@[i * inner + x] * w.data@[x * cols + j];
    assert forall|x: int| 0 <= x < inner && x != k implies #[trigger] f(x) == 0 by {
        assert(a.data@[i * a.shape@[1] + x] == 0);
        assert(0 * w.data@[x * cols + j] == 0);
    }
    lemma_sum_single(inner as nat, k, f);
    assert(a.data@[i * a.shape@[1] + k] == 1);
    assert(1 * w.data@[k * cols + j] == w.data@[k * cols + j]);
    assert(plain.data@[i * cols + j] == affine(a, w, None, i, j));
    assert(r.data@[i * cols + j] == affine(a, w, Some(bias), i, j));
}

/// A bias adds its value to every row of a product, whatever the product is.
pub proof fn law_product_bias(
    a: Tensor<Element>,
    w: Tensor<Element>,
    bias: Seq<Element>,
    plain: Tensor<Element>,
    r: Tensor<Element>,
    i: int,
    j: int,
)
    requires
        is_affine(a, w, None, plain),
        is_affine(a, w, Some(bias), r),
        0 <= i < a.shape@[0],
        0 <= j < w.shape@[1],
    ensures
        r.data@[i * w.shape@[1] + j] - plain.data@[i * w.shape@[1] + j] == bias[j],
{
    let cols = w.shape@[1] as int;
    assert(plain.data@[i * cols + j] == affine(a, w, None, i, j));
    assert(r.data@[i * cols + j] == affine(a, w, Some(bias), i, j));
}

} // verus!
