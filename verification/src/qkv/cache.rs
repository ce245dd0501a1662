//! The cache of the keys and values of the tokens so far.
use vstd::prelude::*;
use crate::error::Error;
use crate::linear::is_matrix;
use crate::padding::PaddingMode;
use crate::shape::{lemma_next_pow2, lemma_numel_matrix, next_pow2, padded, Shape};
use crate::tensor::{can_pad, resized, Tensor};

verus! {

/// The keys and values of the tokens so far, one token in each row.
#[derive(Debug)]
pub struct CacheQKV<N> {
    pub cache_k: Tensor<N>,
    pub cache_v: Tensor<N>,
    pub seq_len: usize,
    pub initialized: bool,
    pub padding_mode: PaddingMode,
}

/// The first `n` rows of `t`, with the first row of `new` after them.
pub open spec fn appended<N>(t: Tensor<N>, n: int, new: Tensor<N>) -> Seq<N> {
    let cols = t.shape@[1] as int;
    t.data@.take(n * cols) + new.data@.take(cols)
}

/// The tensor `r` holds the rows `data` of `n` tokens, padded in padding mode.
pub open spec fn holds_rows<N>(r: Tensor<N>, data: Seq<N>, n: int, cols: usize, mode: PaddingMode, zero: N) -> bool {
    let d = seq![n as usize, cols];
    &&& is_matrix(r)
    &&& match mode {
        PaddingMode::NoPadding => r.shape@ == d && r.data@ == data,
        PaddingMode::Padding => r.shape@ == padded(d) && r.data@ == resized(
            data,
            d,
            padded(d),
            zero,
        ),
    }
}

impl<N> Default for CacheQKV<N> {
    fn default() -> (r: Self)
        ensures
            r.is_new(),
    {
        CacheQKV::new()
    }
}

impl<N> CacheQKV<N> {
    /// The cache is empty, or holds matrices with a row for each token.
    pub open spec fn wf(&self) -> bool {
        if self.initialized {
            &&& is_matrix(self.cache_k)
            &&& is_matrix(self.cache_v)
            &&& self.cache_k.shape@ == self.cache_v.shape@
            &&& self.seq_len <= self.cache_k.shape@[0]
        } else {
            &&& self.seq_len == 0
            &&& is_empty_tensor(self.cache_k)
            &&& is_empty_tensor(self.cache_v)
        }
    }

    /// The cache is empty and does not pad.
    pub open spec fn is_new(&self) -> bool {
        &&& self.wf()
        &&& !self.initialized
        &&& self.padding_mode == PaddingMode::NoPadding
    }

    /// An empty cache.
    pub fn new() -> (r: Self)
        ensures
            r.is_new(),
    {
        CacheQKV {
            cache_k: empty_tensor(),
            cache_v: empty_tensor(),
            seq_len: 0,
            initialized: false,
            padding_mode: PaddingMode::NoPadding,
        }
    }

    /// Empties the cache, which then does not pad.
    pub fn reset(&mut self)
        ensures
            final(self).is_new(),
    {
        *self = CacheQKV::new();
    }

    /// Whether something is cached.
    pub fn is_initialized(&self) -> (r: bool)
        ensures
            r == self.initialized,
    {
        self.initialized
    }

    /// The number of tokens that are cached.
    pub fn full_seq_len(&self) -> (r: usize)
        ensures
            r == self.seq_len,
    {
        self.seq_len
    }

    /// The shape of the cached keys, which is that of the cached values.
    pub fn k_shape(&self) -> (r: &Shape)
        ensures
            r@ == self.cache_k.shape@,
            self.wf() ==> r@ == self.cache_v.shape@,
            self.wf() && !self.initialized ==> r@ == seq![0usize],
    {
        &self.cache_k.shape
    }

    /// The shape of the cached values.
    pub fn v_shape(&self) -> (r: &Shape)
        ensures
            r@ == self.cache_v.shape@,
            self.wf() ==> r@ == self.cache_k.shape@,
            self.wf() && !self.initialized ==> r@ == seq![0usize],
    {
        &self.cache_v.shape
    }
}

/// A tensor of no values, in one dimension.
pub open spec fn is_empty_tensor<N>(t: Tensor<N>) -> bool {
    &&& t.wf()
    &&& t.data@ == Seq::<N>::empty()
    &&& t.shape@ == seq![0usize]
    &&& t.unpadded_shape@ == seq![0usize]
}

/// A tensor that holds nothing.
fn empty_tensor<N>() -> (r: Tensor<N>)
    ensures
        is_empty_tensor(r),
{
    let mut a: Vec<usize> = Vec::new();
    a.push(0);
    let mut b: Vec<usize> = Vec::new();
    b.push(0);
    assert(a@ =~= seq![0usize]);
    assert(b@ =~= seq![0usize]);
    proof {
        lemma_numel_matrix(0, 0);
    }
    Tensor { data: Vec::new(), shape: Shape::new(a), unpadded_shape: Shape::new(b) }
}

impl<N: Copy> CacheQKV<N> {
    /// The cached keys.
    pub fn k(&self) -> (r: Tensor<N>)
        ensures
            r.equals(&self.cache_k),
    {
        self.cache_k.duplicate()
    }

    /// The cached values.
    pub fn v(&self) -> (r: Tensor<N>)
        ensures
            r.equals(&self.cache_v),
    {
        self.cache_v.duplicate()
    }

    /// Adds keys and values to the cache: those of `seq_len` tokens to an empty
    /// cache, and those of one more token to another.
    pub fn stack(&mut self, k: Tensor<N>, v: Tensor<N>, seq_len: usize, zero: N) -> (r: Result<(), Error>)
        requires
            old(self).wf(),
            is_matrix(k),
            is_matrix(v),
            k.shape@ == v.shape@,
            !old(self).initialized ==> seq_len <= k.shape@[0],
            old(self).initialized ==> {
                let rows = seq![(old(self).seq_len + 1) as usize, k.shape@[1]];
                &&& seq_len == 1
                &&& k.shape@[0] == 1
                &&& k.shape@[1] == old(self).cache_k.shape@[1]
                &&& old(self).seq_len < usize::MAX
                &&& (old(self).seq_len + 1) * k.shape@[1] <= usize::MAX
                &&& old(self).padding_mode == PaddingMode::Padding ==> can_pad(rows)
            },
        ensures
            r is Ok,
            final(self).wf(),
            final(self).initialized,
            final(self).padding_mode == old(self).padding_mode,
            final(self).seq_len == if old(self).initialized {
                old(self).seq_len + 1
            } else {
                seq_len as int
            },
            !old(self).initialized ==> final(self).cache_k == k && final(self).cache_v == v,
            old(self).initialized ==> {
                &&& holds_rows(
                    final(self).cache_k,
                    appended(old(self).cache_k, old(self).seq_len as int, k),
                    old(self).seq_len + 1,
                    k.shape@[1],
                    old(self).padding_mode,
                    zero,
                )
                &&& holds_rows(
                    final(self).cache_v,
                    appended(old(self).cache_v, old(self).seq_len as int, v),
                    old(self).seq_len + 1,
                    k.shape@[1],
                    old(self).padding_mode,
                    zero,
                )
                &&& final(self).cache_k.shape@[0] == match old(self).padding_mode {
                    PaddingMode::NoPadding => final(self).seq_len as nat,
                    PaddingMode::Padding => next_pow2(final(self).seq_len as nat),
                }
            },
    {
        if self.initialized {
            let n: usize = self.seq_len;
            let new_k = append_row(&self.cache_k, n, &k, self.padding_mode, zero);
            let new_v = append_row(&self.cache_v, n, &v, self.padding_mode, zero);
            self.cache_k = new_k;
            self.cache_v = new_v;
            self.seq_len = n + 1;
        } else {
            self.cache_k = k;
            self.cache_v = v;
            self.seq_len = seq_len;
            self.initialized = true;
        }
        Ok(())
    }
}

/// The first `n` rows of a matrix, with a row after them.
fn append_row<N: Copy>(t: &Tensor<N>, n: usize, new: &Tensor<N>, mode: PaddingMode, zero: N) -> (r:
    Tensor<N>)
    requires
        is_matrix(*t),
        is_matrix(*new),
        n <= t.shape@[0],
        n < usize::MAX,
        new.shape@[0] == 1,
        new.shape@[1] == t.shape@[1],
        (n + 1) * t.shape@[1] <= usize::MAX,
        mode == PaddingMode::Padding ==> can_pad(seq![(n + 1) as usize, t.shape@[1]]),
    ensures
        holds_rows(r, appended(*t, n as int, *new), n + 1, t.shape@[1], mode, zero),
        r.shape@[0] >= n + 1,
{
    let cols: usize = t.shape.dims[1];
    let ghost c = cols as int;
    let ghost rows = t.shape@[0] as int;
    proof {
        assert(t.shape@ =~= seq![t.shape@[0], cols]);
        assert(new.shape@ =~= seq![1usize, cols]);
        lemma_numel_matrix(t.shape@[0], cols);
        lemma_numel_matrix(1, cols);
        lemma_numel_matrix((n + 1) as usize, cols);
        assert((n + 1) * c == n * c + c) by (nonlinear_arith);
        assert(0 <= n * c <= rows * c) by (nonlinear_arith)
            requires
                0 <= n <= rows,
                0 <= c,
        ;
        assert(1 * c == c);
    }
    let kept: usize = n * cols;
    let mut data: Vec<N> = Vec::new();
    for p in 0..kept
        invariant
            kept <= t.data@.len(),
            data@ == t.data@.take(p as int),
    {
        data.push(t.data[p]);
        assert(t.data@.take(p + 1) =~= t.data@.take(p as int).push(t.data@[p as int]));
    }
    let ghost head = data@;
    assert(head + new.data@.take(0) =~= head);
    for p in 0..cols
        invariant
            cols <= new.data@.len(),
            data@ == head + new.data@.take(p as int),
    {
        data.push(new.data[p]);
        assert(head + new.data@.take(p + 1) =~= (head + new.data@.take(p as int)).push(
            new.data@[p as int],
        ));
    }
    let mut dims: Vec<usize> = Vec::new();
    dims.push(n + 1);
    dims.push(cols);
    assert(dims@ =~= seq![(n + 1) as usize, cols]);
    let shape = Shape::new(dims);
    let all = Tensor { data, unpadded_shape: shape.clone(), shape };
    match mode {
        PaddingMode::NoPadding => all,
        PaddingMode::Padding => {
            let r = all.pad_next_power_of_two(zero);
            proof {
                let d = all.shape@;
                assert(next_pow2(d[0] as nat) <= usize::MAX);
                lemma_next_pow2(d[0] as nat);
            }
            r
        },
    }
}

} // verus!
