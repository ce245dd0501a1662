//! Caches that put the tensors of successive steps one after the other.
use vstd::prelude::*;
use crate::error::Error;
use crate::padding::PaddingMode;
use crate::shape::{next_pow2, numel, padded, Shape};
use crate::tensor::{agree_but, can_pad, concatenated, resized, with_dim, Tensor};

pub mod laws;

verus! {

/// Along which dimension a cache puts tensors one after the other.
#[derive(Clone, Copy, Debug, PartialEq, Eq, Structural)]
pub enum CachingInfo {
    /// The rank of the tensors is known beforehand.
    Static { rank: usize, concatenation_dim: usize },
    /// The rank is that of the tensors that come; a negative dimension counts from
    /// the last.
    Dynamic(isize),
}

impl CachingInfo {
    /// The dimension for a tensor of the given rank, where there is one.
    pub open spec fn dim_for(self, rank: int) -> Option<int> {
        match self {
            CachingInfo::Static { concatenation_dim, .. } => Some(concatenation_dim as int),
            CachingInfo::Dynamic(d) => if d < 0 {
                if rank + d >= 0 {
                    Some(rank + d)
                } else {
                    None
                }
            } else if d < rank {
                Some(d as int)
            } else {
                None
            },
        }
    }

    pub fn new_static(rank: usize, concatenation_dim: usize) -> (r: CachingInfo)
        ensures
            r == (CachingInfo::Static { rank, concatenation_dim }),
    {
        CachingInfo::Static { rank, concatenation_dim }
    }

    pub fn new_dynamic(concatenation_dim: isize) -> (r: CachingInfo)
        ensures
            r == CachingInfo::Dynamic(concatenation_dim),
    {
        CachingInfo::Dynamic(concatenation_dim)
    }

    /// The dimension along which a tensor of the given rank is cached. It is
    /// refused where the rank is too small.
    pub fn get_concatenation_dim(&self, tensor_rank: usize) -> (r: Result<usize, Error>)
        requires
            tensor_rank <= isize::MAX,
        ensures
            match r {
                Ok(d) => self.dim_for(tensor_rank as int) == Some(d as int),
                Err(e) => self.dim_for(tensor_rank as int) is None && e
                    == Error::DimensionOutOfBounds,
            },
    {
        match *self {
            CachingInfo::Static { concatenation_dim, .. } => Ok(concatenation_dim),
            CachingInfo::Dynamic(concatenation_dim) => {
                if concatenation_dim < 0 {
                    let dim: isize = tensor_rank as isize + concatenation_dim;
                    if dim < 0 {
                        return Err(Error::DimensionOutOfBounds);
                    }
                    Ok(dim as usize)
                } else {
                    let dim: usize = concatenation_dim as usize;
                    if dim >= tensor_rank {
                        return Err(Error::DimensionOutOfBounds);
                    }
                    Ok(dim)
                }
            },
        }
    }
}

/// A cache that holds what has been computed for the tokens so far.
#[derive(Debug)]
pub struct ConcatenationCache<N> {
    pub cached_tensor: Option<Tensor<N>>,
    pub caching_info: CachingInfo,
    pub padding_mode: PaddingMode,
}

/// The shape of what is cached of a tensor.
pub open spec fn cached_shape<N>(t: Tensor<N>, mode: PaddingMode) -> Seq<usize> {
    match mode {
        PaddingMode::NoPadding => t.shape@,
        PaddingMode::Padding => t.unpadded_shape@,
    }
}

/// The values of what is cached of a tensor.
pub open spec fn cached_data<N>(t: Tensor<N>, mode: PaddingMode) -> Seq<N> {
    match mode {
        PaddingMode::NoPadding => t.data@,
        PaddingMode::Padding => t.unpadded_data(),
    }
}

/// A tensor as it leaves a cache.
pub open spec fn leaves<N>(inner: Tensor<N>, mode: PaddingMode, zero: N, out: Tensor<N>) -> bool {
    &&& out.wf()
    &&& out.unpadded_shape@ == inner.unpadded_shape@
    &&& match mode {
        PaddingMode::NoPadding => out.shape@ == inner.shape@ && out.data@ == inner.data@,
        PaddingMode::Padding => {
            &&& out.shape@ == padded(inner.shape@)
            &&& out.data@ == resized(inner.data@, inner.shape@, padded(inner.shape@), zero)
        },
    }
}

impl<N> ConcatenationCache<N> {
    /// What is cached is a tensor.
    pub open spec fn wf(&self) -> bool {
        self.cached_tensor matches Some(t) ==> t.wf()
    }

    /// The number of tokens that are cached.
    pub open spec fn seq_len(&self) -> int {
        match self.cached_tensor {
            Some(t) => t.shape@[self.caching_info.dim_for(t.shape@.len() as int)->Some_0] as int,
            None => 0,
        }
    }

    /// What is cached has the dimension along which it is cached.
    pub open spec fn has_dim(&self) -> bool {
        self.cached_tensor matches Some(t) ==> {
            &&& t.shape@.len() <= isize::MAX
            &&& self.caching_info.dim_for(t.shape@.len() as int) matches Some(d) && d < t.shape@.len()
        }
    }

    /// An empty cache for tensors of the given rank.
    pub fn new(rank: usize, concatenation_dim: usize, padding_mode: PaddingMode) -> (r: Self)
        ensures
            r.wf(),
            r.cached_tensor is None,
            r.caching_info == (CachingInfo::Static { rank, concatenation_dim }),
            r.padding_mode == padding_mode,
    {
        ConcatenationCache {
            cached_tensor: None,
            caching_info: CachingInfo::new_static(rank, concatenation_dim),
            padding_mode,
        }
    }

    /// An empty cache for tensors of any rank.
    pub fn new_dynamic(concatenation_dim: isize, padding_mode: PaddingMode) -> (r: Self)
        ensures
            r.wf(),
            r.cached_tensor is None,
            r.caching_info == CachingInfo::Dynamic(concatenation_dim),
            r.padding_mode == padding_mode,
    {
        ConcatenationCache {
            cached_tensor: None,
            caching_info: CachingInfo::new_dynamic(concatenation_dim),
            padding_mode,
        }
    }

    /// Empties the cache.
    pub fn reset(&mut self)
        ensures
            final(self).cached_tensor is None,
            final(self).caching_info == old(self).caching_info,
            final(self).padding_mode == old(self).padding_mode,
    {
        self.cached_tensor = None;
    }

    /// Whether something is cached.
    pub fn is_initialized(&self) -> (r: bool)
        ensures
            r == self.cached_tensor is Some,
    {
        self.cached_tensor.is_some()
    }

    /// The dimension along which a tensor of the given rank is cached.
    pub fn get_concatenation_dim(&self, tensor_rank: usize) -> (r: Result<usize, Error>)
        requires
            tensor_rank <= isize::MAX,
        ensures
            match r {
                Ok(d) => self.caching_info.dim_for(tensor_rank as int) == Some(d as int),
                Err(e) => self.caching_info.dim_for(tensor_rank as int) is None && e
                    == Error::DimensionOutOfBounds,
            },
    {
        self.caching_info.get_concatenation_dim(tensor_rank)
    }

    /// Empties the cache and changes its padding mode.
    pub fn set_padding_mode(&mut self, padding_mode: PaddingMode)
        ensures
            final(self).cached_tensor is None,
            final(self).caching_info == old(self).caching_info,
            final(self).padding_mode == padding_mode,
    {
        self.reset();
        self.padding_mode = padding_mode;
    }

    /// The number of tokens that are cached.
    pub fn current_sequence_length(&self) -> (r: usize)
        requires
            self.has_dim(),
        ensures
            r == self.seq_len(),
    {
        match &self.cached_tensor {
            Some(tensor) => {
                let rank = tensor.shape.rank();
                match self.get_concatenation_dim(rank) {
                    Ok(d) => tensor.shape.dims[d],
                    Err(_) => 0,
                }
            },
            None => 0,
        }
    }

    /// The rank and the dimension of a cache for tensors of a known rank.
    pub fn cache_info(&self) -> (r: (usize, usize))
        requires
            self.caching_info is Static,
        ensures
            self.caching_info == (CachingInfo::Static { rank: r.0, concatenation_dim: r.1 }),
    {
        match self.caching_info {
            CachingInfo::Static { rank, concatenation_dim } => (rank, concatenation_dim),
            CachingInfo::Dynamic(_) => (0, 0),
        }
    }

    /// The shape that a tensor of the given shape has once it follows what is cached.
    pub open spec fn announced_shape(&self, shape: Seq<usize>, padding_mode: PaddingMode) -> Seq<
        usize,
    > {
        let d = self.caching_info.dim_for(shape.len() as int)->Some_0;
        let next = with_dim(shape, d, shape[d] + self.seq_len());
        match padding_mode {
            PaddingMode::NoPadding => next,
            PaddingMode::Padding => padded(next),
        }
    }

    /// The shape that a tensor of the given shape has once it follows what is
    /// cached. It is refused where its rank is too small.
    pub fn next_shape(&self, shape: Shape, padding_mode: PaddingMode) -> (r: Result<Shape, Error>)
        requires
            self.has_dim(),
            shape@.len() <= isize::MAX,
            self.caching_info.dim_for(shape@.len() as int) matches Some(d) ==> {
                &&& d < shape@.len()
                &&& shape@[d] + self.seq_len() <= usize::MAX
                &&& padding_mode == PaddingMode::Padding ==> forall|k: int|
                    0 <= k < shape@.len() ==> next_pow2(
                        #[trigger] with_dim(shape@, d, shape@[d] + self.seq_len())[k] as nat,
                    ) <= usize::MAX
            },
        ensures
            r is Ok <==> self.caching_info.dim_for(shape@.len() as int) is Some,
            match r {
                Ok(s) => s@ == self.announced_shape(shape@, padding_mode),
                Err(e) => e == Error::DimensionOutOfBounds,
            },
    {
        let mut new_shape = shape;
        let rank = new_shape.rank();
        let d = match self.get_concatenation_dim(rank) {
            Ok(d) => d,
            Err(e) => {
                return Err(e);
            },
        };
        let ghost start = new_shape@;
        let total: usize = new_shape.dims[d] + self.current_sequence_length();
        new_shape.dims.set(d, total);
        assert(new_shape@ =~= with_dim(start, d as int, start[d as int] + self.seq_len()));
        match padding_mode {
            PaddingMode::NoPadding => Ok(new_shape),
            PaddingMode::Padding => Ok(new_shape.next_power_of_two()),
        }
    }
}

impl<N: Copy> ConcatenationCache<N> {
    /// What is cached once a tensor has been added to it.
    pub open spec fn extended(&self, new: Tensor<N>, c: Tensor<N>) -> bool {
        let shape = cached_shape(new, self.padding_mode);
        let data = cached_data(new, self.padding_mode);
        let d = self.caching_info.dim_for(shape.len() as int)->Some_0;
        match self.cached_tensor {
            None => {
                &&& c.shape@ == shape
                &&& c.data@ == data
                &&& c.unpadded_shape@ == new.unpadded_shape@
            },
            Some(t) => {
                &&& c.shape@ == with_dim(t.shape@, d, t.shape@[d] + shape[d])
                &&& c.unpadded_shape@ == c.shape@
                &&& c.data@ == concatenated(t.data@, t.shape@, data, shape, d)
            },
        }
    }

    /// The cache takes a tensor and is `after` once it holds it.
    pub open spec fn added(&self, new: Tensor<N>, after: Self) -> bool {
        let shape = cached_shape(new, self.padding_mode);
        &&& after.caching_info == self.caching_info
        &&& after.padding_mode == self.padding_mode
        &&& after.wf()
        &&& self.caching_info.dim_for(shape.len() as int) matches Some(d) && {
            &&& self.cached_tensor matches Some(t) ==> agree_but(t.shape@, shape, d)
                && t.shape@[d] + shape[d] <= usize::MAX
            &&& after.cached_tensor matches Some(c) && self.extended(new, c)
        }
    }

    /// Adds a tensor to the cache and returns all that is cached. The tensor is
    /// refused where its rank is too small, and the cache then keeps what it holds.
    /// It is refused, too, where its other dimensions differ from those of what is
    /// cached, and the cache is then empty.
    pub fn concatenate(&mut self, new_tensor: &Tensor<N>, zero: N) -> (r: Result<Tensor<N>, Error>)
        requires
            old(self).wf(),
            new_tensor.wf(),
            new_tensor.shape@.len() <= isize::MAX,
            ({
                let mode = old(self).padding_mode;
                let shape = cached_shape(*new_tensor, mode);
                let dim = old(self).caching_info.dim_for(shape.len() as int);
                &&& (dim matches Some(d) && old(self).cached_tensor matches Some(t) && agree_but(
                    t.shape@,
                    shape,
                    d,
                )) ==> {
                    let t = old(self).cached_tensor->Some_0;
                    let d = dim->Some_0;
                    let total = with_dim(t.shape@, d, t.shape@[d] + shape[d]);
                    &&& t.shape@[d] + shape[d] <= usize::MAX
                    &&& numel(total) <= usize::MAX
                    &&& mode == PaddingMode::Padding ==> can_pad(total)
                }
                &&& mode == PaddingMode::Padding && old(self).cached_tensor is None ==> can_pad(shape)
            }),
        ensures
            final(self).wf(),
            final(self).caching_info == old(self).caching_info,
            final(self).padding_mode == old(self).padding_mode,
            ({
                let mode = old(self).padding_mode;
                let shape = cached_shape(*new_tensor, mode);
                let dim = old(self).caching_info.dim_for(shape.len() as int);
                match r {
                    Ok(out) => {
                        &&& old(self).added(*new_tensor, *final(self))
                        &&& leaves(final(self).cached_tensor->Some_0, mode, zero, out)
                    },
                    Err(Error::DimensionOutOfBounds) => {
                        &&& dim is None
                        &&& final(self).cached_tensor == old(self).cached_tensor
                    },
                    Err(e) => {
                        &&& e == Error::InvalidShape
                        &&& dim is Some
                        &&& old(self).cached_tensor matches Some(t) && !agree_but(
                            t.shape@,
                            shape,
                            dim->Some_0,
                        )
                        &&& final(self).cached_tensor is None
                    },
                }
            }),
    {
        let reduced = match self.padding_mode {
            PaddingMode::NoPadding => new_tensor.duplicate(),
            PaddingMode::Padding => new_tensor.reduce_to_unpadded_shape(),
        };
        let rank = reduced.shape.rank();
        let dim = match self.get_concatenation_dim(rank) {
            Ok(d) => d,
            Err(e) => {
                return Err(e);
            },
        };
        let inner = match self.cached_tensor.take() {
            Some(cached) => {
                match cached.cat(&reduced, dim) {
                    Ok(t) => t,
                    Err(e) => {
                        return Err(e);
                    },
                }
            },
            None => reduced,
        };
        let out = match self.padding_mode {
            PaddingMode::NoPadding => inner.duplicate(),
            PaddingMode::Padding => inner.pad_next_power_of_two(zero),
        };
        self.cached_tensor = Some(inner);
        Ok(out)
    }

    /// All that is cached. An empty cache holds nothing.
    pub fn get_cached(&self, zero: N) -> (r: Result<Tensor<N>, Error>)
        requires
            self.wf(),
            self.padding_mode == PaddingMode::Padding ==> (self.cached_tensor matches Some(t)
                ==> can_pad(t.shape@)),
        ensures
            r is Ok <==> self.cached_tensor is Some,
            match r {
                Ok(out) => leaves(self.cached_tensor->Some_0, self.padding_mode, zero, out),
                Err(e) => e == Error::NotInitialized,
            },
    {
        match &self.cached_tensor {
            Some(t) => match self.padding_mode {
                PaddingMode::NoPadding => Ok(t.duplicate()),
                PaddingMode::Padding => Ok(t.pad_next_power_of_two(zero)),
            },
            None => Err(Error::NotInitialized),
        }
    }
}

} // verus!
