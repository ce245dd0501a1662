//! What holds of a cache over the calls that it gets.
use vstd::prelude::*;
use crate::cache::{cached_data, cached_shape, leaves, CachingInfo, ConcatenationCache};
use crate::padding::PaddingMode;
use crate::shape::{flat, in_bounds, lemma_flat, numel, padded};
use crate::sum::sum;
use crate::tensor::{agree_but, concatenated, resized, with_dim, Tensor};

verus! {

/// The shape that a cache announces for what it caches of a tensor is the shape that
/// leaves it once the tensor has been added.
pub proof fn law_next_shape<N: Copy>(
    cache: ConcatenationCache<N>,
    new: Tensor<N>,
    after: ConcatenationCache<N>,
    zero: N,
    out: Tensor<N>,
)
    requires
        cache.has_dim(),
        cache.added(new, after),
        ({
            let shape = cached_shape(new, cache.padding_mode);
            cache.caching_info.dim_for(shape.len() as int)->Some_0 < shape.len()
        }),
        leaves(after.cached_tensor->Some_0, cache.padding_mode, zero, out),
    ensures
        out.shape@ == cache.announced_shape(
            cached_shape(new, cache.padding_mode),
            cache.padding_mode,
        ),
{
    let shape = cached_shape(new, cache.padding_mode);
    let d = cache.caching_info.dim_for(shape.len() as int)->Some_0;
    let c = after.cached_tensor->Some_0;
    assert(c.shape@ =~= with_dim(shape, d, shape[d] + cache.seq_len()));
}

/// What is read from a cache is what adding the last tensor to it returned.
pub proof fn law_get_cached<N: Copy>(
    cache: ConcatenationCache<N>,
    new: Tensor<N>,
    after: ConcatenationCache<N>,
    zero: N,
    returned: Tensor<N>,
    read: Tensor<N>,
)
    requires
        cache.added(new, after),
        leaves(after.cached_tensor->Some_0, cache.padding_mode, zero, returned),
        leaves(after.cached_tensor->Some_0, after.padding_mode, zero, read),
    ensures
        read.equals(&returned),
{
}

/// What a call does to a cache.
pub enum CacheCall<N> {
    /// A tensor was added.
    Added(Tensor<N>),
    /// A tensor was refused for its rank.
    RankRefused,
    /// A tensor was refused for its other dimensions.
    ShapeRefused,
    /// The cache was emptied.
    Reset,
    /// The cache was emptied and its padding mode set.
    PaddingModeSet(PaddingMode),
}

impl<N: Copy> CacheCall<N> {
    /// The call takes the cache `before` to the cache `after`.
    pub open spec fn takes(self, before: ConcatenationCache<N>, after: ConcatenationCache<N>) -> bool {
        &&& after.caching_info == before.caching_info
        &&& self matches CacheCall::PaddingModeSet(mode) ==> after.padding_mode == mode
        &&& !(self is PaddingModeSet) ==> after.padding_mode == before.padding_mode
        &&& match self {
            CacheCall::Added(new) => before.added(new, after),
            CacheCall::RankRefused => after.cached_tensor == before.cached_tensor,
            _ => after.cached_tensor is None,
        }
    }

    /// The call leaves what is cached in the cache.
    pub open spec fn keeps(self) -> bool {
        self is Added || self is RankRefused
    }
}

/// A cache holds something exactly where a tensor was added since it was last
/// emptied.
pub proof fn law_initialized<N: Copy>(
    caches: Seq<ConcatenationCache<N>>,
    calls: Seq<CacheCall<N>>,
)
    requires
        caches.len() == calls.len() + 1,
        caches[0].cached_tensor is None,
        forall|i: int|
            0 <= i < calls.len() ==> (#[trigger] calls[i]).takes(caches[i], caches[i + 1]),
    ensures
        caches.last().cached_tensor is Some <==> exists|k: int|
            {
                &&& 0 <= k < calls.len()
                &&& (#[trigger] calls[k]) is Added
                &&& forall|j: int| k < j < calls.len() ==> (#[trigger] calls[j]).keeps()
            },
    decreases calls.len(),
{
    if calls.len() > 0 {
        let n = calls.len() - 1;
        let before = calls.drop_last();
        assert(caches.drop_last().last() == caches[n]);
        assert forall|i: int| 0 <= i < before.len() implies (#[trigger] before[i]).takes(
            caches.drop_last()[i],
            caches.drop_last()[i + 1],
        ) by {
            assert(calls[i].takes(caches[i], caches[i + 1]));
        }
        law_initialized(caches.drop_last(), before);
        assert(calls[n].takes(caches[n], caches[n + 1]));
        if calls[n] is RankRefused && caches[n].cached_tensor is Some {
            let k = choose|k: int|
                {
                    &&& 0 <= k < before.len()
                    &&& (#[trigger] before[k]) is Added
                    &&& forall|j: int| k < j < before.len() ==> (#[trigger] before[j]).keeps()
                };
            assert(calls[k] is Added);
            assert forall|j: int| k < j < calls.len() implies (#[trigger] calls[j]).keeps() by {
                if j < n {
                    assert(before[j].keeps());
                }
            }
        }
        if exists|k: int|
            {
                &&& 0 <= k < calls.len()
                &&& (#[trigger] calls[k]) is Added
                &&& forall|j: int| k < j < calls.len() ==> (#[trigger] calls[j]).keeps()
            } {
            let k = choose|k: int|
                {
                    &&& 0 <= k < calls.len()
                    &&& (#[trigger] calls[k]) is Added
                    &&& forall|j: int| k < j < calls.len() ==> (#[trigger] calls[j]).keeps()
                };
            if k < n {
                assert(before[k] is Added);
                assert forall|j: int| k < j < before.len() implies (
                #[trigger] before[j]).keeps() by {
                    assert(calls[j].keeps());
                }
                assert(calls[n].keeps());
            }
        }
    }
}

/// The size of a tensor along dimension `d`, as it is cached.
pub open spec fn cached_size<N>(ts: Seq<Tensor<N>>, mode: PaddingMode, d: int, i: int) -> int {
    cached_shape(ts[i], mode)[d] as int
}

/// The sizes of the first `n` tensors together.
pub open spec fn cached_sizes<N>(ts: Seq<Tensor<N>>, mode: PaddingMode, d: int, n: nat) -> int {
    sum(n, |i: int| cached_size(ts, mode, d, i))
}

/// A shape and values are those of tensors one after the other along dimension `d`:
/// the size along `d` is the sum of theirs, and the values of each tensor stand
/// behind those of the tensors before it.
pub open spec fn is_joined<N>(
    ts: Seq<Tensor<N>>,
    mode: PaddingMode,
    d: int,
    shape: Seq<usize>,
    data: Seq<N>,
) -> bool {
    &&& shape[d] == cached_sizes(ts, mode, d, ts.len())
    &&& forall|k: int|
        0 <= k < ts.len() ==> agree_but(shape, cached_shape(#[trigger] ts[k], mode), d)
    &&& data.len() == numel(shape)
    &&& forall|k: int, idx: Seq<int>|
        0 <= k < ts.len() && in_bounds(cached_shape(ts[k], mode), idx) ==> data[flat(
            shape,
            #[trigger] moved(idx, d, cached_sizes(ts, mode, d, k as nat)),
        )] == #[trigger] cached_data(ts[k], mode)[flat(cached_shape(ts[k], mode), idx)]
}

/// A position, moved along dimension `d`.
pub open spec fn moved(idx: Seq<int>, d: int, by: int) -> Seq<int> {
    idx.update(d, idx[d] + by)
}

/// The sizes of fewer tensors are no more.
proof fn lemma_sizes_grow<N>(ts: Seq<Tensor<N>>, mode: PaddingMode, d: int, a: nat, b: nat)
    requires
        a <= b,
    ensures
        0 <= cached_sizes(ts, mode, d, a) <= cached_sizes(ts, mode, d, b),
    decreases b,
{
    if b > 0 {
        if a < b {
            lemma_sizes_grow(ts, mode, d, a, (b - 1) as nat);
        } else {
            lemma_sizes_grow(ts, mode, d, (a - 1) as nat, (b - 1) as nat);
        }
    }
}

/// The sizes of the first tensors are the same in a longer sequence.
proof fn lemma_sizes_prefix<N>(ts: Seq<Tensor<N>>, mode: PaddingMode, d: int, n: nat)
    requires
        n < ts.len(),
    ensures
        cached_sizes(ts, mode, d, n) == cached_sizes(ts.drop_last(), mode, d, n),
    decreases n,
{
    if n > 0 {
        lemma_sizes_prefix(ts, mode, d, (n - 1) as nat);
    }
}

/// One more tensor after those that are joined.
proof fn lemma_join_one<N>(
    ts: Seq<Tensor<N>>,
    mode: PaddingMode,
    d: int,
    a: Seq<usize>,
    x: Seq<N>,
)
    requires
        ts.len() > 1,
        is_joined(ts.drop_last(), mode, d, a, x),
        agree_but(a, cached_shape(ts.last(), mode), d),
        a[d] + cached_shape(ts.last(), mode)[d] <= usize::MAX,
    ensures
        ({
            let b = cached_shape(ts.last(), mode);
            is_joined(
                ts,
                mode,
                d,
                with_dim(a, d, a[d] + b[d]),
                concatenated(x, a, cached_data(ts.last(), mode), b, d),
            )
        }),
{
    let n = (ts.len() - 1) as nat;
    let first = ts.drop_last();
    let b = cached_shape(ts.last(), mode);
    let y = cached_data(ts.last(), mode);
    let to = with_dim(a, d, a[d] + b[d]);
    let data = concatenated(x, a, y, b, d);
    lemma_sizes_prefix(ts, mode, d, n);
    assert(cached_sizes(ts, mode, d, ts.len()) == cached_sizes(ts, mode, d, n) + b[d]);
    assert forall|k: int| 0 <= k < ts.len() implies agree_but(
        to,
        cached_shape(#[trigger] ts[k], mode),
        d,
    ) by {
        let part = cached_shape(ts[k], mode);
        if k < n {
            assert(first[k] == ts[k]);
        }
        assert(agree_but(a, part, d));
        assert forall|j: int| 0 <= j < to.len() && j != d implies #[trigger] to[j]
            == part[j] by {
            assert(a[j] == part[j]);
        }
    }
    assert forall|k: int, idx: Seq<int>|
        0 <= k < ts.len() && in_bounds(cached_shape(ts[k], mode), idx) implies data[flat(
        to,
        #[trigger] moved(idx, d, cached_sizes(ts, mode, d, k as nat)),
    )] == #[trigger] cached_data(ts[k], mode)[flat(cached_shape(ts[k], mode), idx)] by {
        let off = cached_sizes(ts, mode, d, k as nat);
        let at = moved(idx, d, off);
        let part = cached_shape(ts[k], mode);
        lemma_sizes_grow(ts, mode, d, k as nat, n);
        if k < n {
            lemma_sizes_grow(ts, mode, d, (k + 1) as nat, n);
            assert(cached_sizes(ts, mode, d, (k + 1) as nat) == off + part[d]);
            lemma_sizes_prefix(ts, mode, d, k as nat);
            assert(first[k] == ts[k]);
            assert(idx[d] < part[d]);
        } else {
            assert(idx[d] < b[d]);
        }
        assert(agree_but(to, part, d));
        assert forall|j: int| 0 <= j < to.len() implies 0 <= #[trigger] at[j] < to[j] by {
            assert(0 <= idx[j] < part[j]);
            if j != d {
                assert(to[j] == part[j]);
            }
        }
        lemma_flat(to, at);
        if k < n {
            assert(x[flat(a, moved(idx, d, cached_sizes(first, mode, d, k as nat)))] == cached_data(
                first[k],
                mode,
            )[flat(cached_shape(first[k], mode), idx)]);
        } else {
            assert(at.update(d, at[d] - a[d]) =~= idx);
        }
    }
}

/// What a cache holds after some tensors is those tensors, one after the other along
/// the dimension of the cache, and its sequence length is the sum of their sizes.
/// What the last call returns is that, padded in padding mode. The one tensor of a
/// first call comes back as it is cached.
pub proof fn law_joined<N: Copy>(
    caches: Seq<ConcatenationCache<N>>,
    ts: Seq<Tensor<N>>,
    zero: N,
    out: Tensor<N>,
)
    requires
        ts.len() > 0,
        caches.len() == ts.len() + 1,
        caches[0].cached_tensor is None,
        forall|i: int| 0 <= i < ts.len() ==> caches[i].added(#[trigger] ts[i], caches[i + 1]),
        ({
            let rank = cached_shape(ts[0], caches[0].padding_mode).len() as int;
            caches[0].caching_info.dim_for(rank) matches Some(d) && d < rank
        }),
        leaves(
            caches.last().cached_tensor->Some_0,
            caches.last().padding_mode,
            zero,
            out,
        ),
    ensures
        ({
            let mode = caches[0].padding_mode;
            let d = caches[0].caching_info.dim_for(
                cached_shape(ts[0], mode).len() as int,
            )->Some_0;
            let c = caches.last().cached_tensor->Some_0;
            &&& caches.last().cached_tensor is Some
            &&& is_joined(ts, mode, d, c.shape@, c.data@)
            &&& caches.last().seq_len() == cached_sizes(ts, mode, d, ts.len())
            &&& c.unpadded_shape@ == if ts.len() == 1 {
                ts[0].unpadded_shape@
            } else {
                c.shape@
            }
            &&& out.unpadded_shape@ == c.unpadded_shape@
            &&& match mode {
                PaddingMode::NoPadding => out.shape@ == c.shape@ && out.data@ == c.data@,
                PaddingMode::Padding => {
                    &&& out.shape@ == padded(c.shape@)
                    &&& out.data@ == resized(c.data@, c.shape@, padded(c.shape@), zero)
                },
            }
        }),
{
    lemma_joined(caches, ts);
}

/// What a cache holds after some tensors.
proof fn lemma_joined<N: Copy>(caches: Seq<ConcatenationCache<N>>, ts: Seq<Tensor<N>>)
    requires
        ts.len() > 0,
        caches.len() == ts.len() + 1,
        caches[0].cached_tensor is None,
        forall|i: int| 0 <= i < ts.len() ==> caches[i].added(#[trigger] ts[i], caches[i + 1]),
        ({
            let rank = cached_shape(ts[0], caches[0].padding_mode).len() as int;
            caches[0].caching_info.dim_for(rank) matches Some(d) && d < rank
        }),
    ensures
        ({
            let mode = caches[0].padding_mode;
            let d = caches[0].caching_info.dim_for(
                cached_shape(ts[0], mode).len() as int,
            )->Some_0;
            let c = caches.last().cached_tensor->Some_0;
            &&& caches.last().padding_mode == mode
            &&& caches.last().caching_info == caches[0].caching_info
            &&& caches.last().cached_tensor is Some
            &&& is_joined(ts, mode, d, c.shape@, c.data@)
            &&& caches.last().seq_len() == cached_sizes(ts, mode, d, ts.len())
            &&& c.unpadded_shape@ == if ts.len() == 1 {
                ts[0].unpadded_shape@
            } else {
                c.shape@
            }
        }),
    decreases ts.len(),
{
    let mode = caches[0].padding_mode;
    let shape = cached_shape(ts[0], mode);
    let d = caches[0].caching_info.dim_for(shape.len() as int)->Some_0;
    let n = ts.len() - 1;
    let c = caches.last().cached_tensor->Some_0;
    assert(caches[n].added(ts[n], caches[n + 1]));
    if n == 0 {
        assert(cached_sizes(ts, mode, d, 1) == cached_sizes(ts, mode, d, 0) + shape[d]);
        assert(cached_sizes(ts, mode, d, 0) == 0);
        assert(agree_but(shape, shape, d));
        assert forall|k: int, idx: Seq<int>|
            0 <= k < ts.len() && in_bounds(cached_shape(ts[k], mode), idx) implies c.data@[flat(
            c.shape@,
            #[trigger] moved(idx, d, cached_sizes(ts, mode, d, k as nat)),
        )] == #[trigger] cached_data(ts[k], mode)[flat(cached_shape(ts[k], mode), idx)] by {
            assert(moved(idx, d, 0) =~= idx);
        }
    } else {
        let before = caches.drop_last();
        let first = ts.drop_last();
        assert(first[0] == ts[0]);
        assert forall|i: int| 0 <= i < first.len() implies before[i].added(
            #[trigger] first[i],
            before[i + 1],
        ) by {
            assert(caches[i].added(ts[i], caches[i + 1]));
        }
        lemma_joined(before, first);
        assert(before.last() == caches[n]);
        let t = caches[n].cached_tensor->Some_0;
        assert(agree_but(t.shape@, cached_shape(first[0], mode), d));
        lemma_join_one(ts, mode, d, t.shape@, t.data@);
    }
}

/// A dimension is counted from the front, or, where it is negative, from the back; one that
/// a tensor does not have is none. A fixed dimension is what it is.
pub proof fn law_dimension(d: isize, fixed_rank: usize, fixed: usize, rank: int)
    requires
        rank >= 0,
    ensures
        (CachingInfo::Static { rank: fixed_rank, concatenation_dim: fixed }).dim_for(rank) == Some(
            fixed as int,
        ),
        match CachingInfo::Dynamic(d).dim_for(rank) {
            Some(k) => 0 <= k < rank && (k == d || k - rank == d),
            None => d >= rank || d < -rank,
        },
{
}

} // verus!
