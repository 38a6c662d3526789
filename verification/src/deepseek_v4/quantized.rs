//! fp8/fp4 weight loading with a bounded offload cache.

use vstd::prelude::*;
use vstd::string::StringExecFns;

use crate::blocks::{counts_fit, elem_count, tile_of};
use crate::cache::{
    distinct, holds_name, inserted, law_insert_keeps_the_most_recent, position, total_bytes, touched,
    CachedTensor, Entry, LruCache,
};
use crate::dequant::{
    check_tiling, dequantize_block_scale, law_other_tilings_are_rejected,
    law_whole_tiles_are_accepted, tile_count, tiles_evenly,
};
use crate::dtype::DType;
use crate::error::LmError;
use crate::float::F32;
use crate::formats::{e8m0_f32, fp4_reserved_f32, fp8_f32, nibble, nibble_at};
use crate::plan::{
    copy_dims, rows_and_cols, PartView, SourceView, WeightPart, WeightSource,
};
use crate::text::{contains, is_listed, listed, occurs_at, occurs_in};

pub use crate::formats::fp4_e2m1_reserved_to_f32 as fp4_e2m1_to_f32;
pub use crate::formats::{e8m0_to_f32, fp8_e4m3_to_f32};

verus! {

/// Why fp8 bytes are rejected, if they are: the tiling is looked at first, then
/// the weight, then the scale.
pub open spec fn fp8_error(
    n: usize,
    m: usize,
    block: (usize, usize),
    weight_len: nat,
    scale_len: nat,
) -> Option<LmError> {
    if !tiles_evenly(n, m, block) {
        Some(LmError::BlockTiling { bn: block.0, bm: block.1, n, m })
    } else if weight_len != n * m {
        Some(LmError::WeightLen { len: weight_len as usize, n, m })
    } else if scale_len != tile_count(n, m, block) {
        Some(LmError::ScaleLen { len: scale_len as usize, tiles: tile_count(n, m, block) as usize })
    } else {
        None
    }
}

/// Why packed fp4 bytes are rejected, if they are.
pub open spec fn fp4_error(
    n: usize,
    m: usize,
    block: (usize, usize),
    packed_len: nat,
    scale_len: nat,
) -> Option<LmError> {
    if !tiles_evenly(n, m, block) {
        Some(LmError::BlockTiling { bn: block.0, bm: block.1, n, m })
    } else if packed_len != (n * m) / 2 {
        Some(LmError::PackedLen { len: packed_len as usize, n, m })
    } else if scale_len != tile_count(n, m, block) {
        Some(LmError::ScaleLen { len: scale_len as usize, tiles: tile_count(n, m, block) as usize })
    } else {
        None
    }
}

/// Dequantizes a block-scaled FP8 E4M3 weight.
///
/// `weight` is `n * m` raw bytes and `scale` one E8M0 byte per `block` tile; every
/// element is scaled by its tile's scale.
pub fn dequantize_fp8_block_scale(
    weight: &[u8],
    scale: &[u8],
    n: usize,
    m: usize,
    block: (usize, usize),
) -> (r: Result<Vec<F32>, LmError>)
    requires
        n * m <= usize::MAX,
    ensures
        match fp8_error(n, m, block, weight@.len(), scale@.len()) {
            Some(e) => r == Err::<Vec<F32>, LmError>(e),
            None => r is Ok && r->Ok_0@.len() == n * m && forall|p: int|
                0 <= p < n * m ==> #[trigger] r->Ok_0@[p] == fp8_f32(weight@[p]).product(
                    e8m0_f32(scale@[tile_of(p, m as int, block.0 as int, block.1 as int)]),
                ),
        },
        r is Ok ==> forall|p: int|
            0 <= p < n * m ==> #[trigger] r->Ok_0@[p] == fp8_f32(weight@[p]).product(
                e8m0_f32(scale@[((p / m as int) / block.0 as int) * (m as int
                    / block.1 as int) + (p % m as int) / block.1 as int]),
            ),
{
    if !check_tiling(n, m, block) {
        return Err(LmError::BlockTiling { bn: block.0, bm: block.1, n, m });
    }
    if weight.len() != n * m {
        return Err(LmError::WeightLen { len: weight.len(), n, m });
    }
    let decode = |p: usize| -> (v: F32)
        requires
            p < weight@.len(),
        ensures
            v == fp8_f32(weight@[p as int]),
        { fp8_e4m3_to_f32(weight[p]) };
    dequantize_block_scale(n, m, block, scale, decode)
}

/// Dequantizes a block-scaled FP4 E2M1 weight, two nibbles to a byte, low nibble
/// first.
pub fn dequantize_fp4_block_scale(
    packed: &[u8],
    scale: &[u8],
    n: usize,
    m: usize,
    block: (usize, usize),
) -> (r: Result<Vec<F32>, LmError>)
    requires
        n * m <= usize::MAX,
        (n * m) % 2 == 0 || fp4_error(n, m, block, packed@.len(), scale@.len()) is Some,
    ensures
        match fp4_error(n, m, block, packed@.len(), scale@.len()) {
            Some(e) => r == Err::<Vec<F32>, LmError>(e),
            None => r is Ok && r->Ok_0@.len() == n * m && forall|p: int|
                0 <= p < n * m ==> #[trigger] r->Ok_0@[p] == fp4_reserved_f32(
                    nibble_at(packed@, p),
                ).product(
                    e8m0_f32(scale@[tile_of(p, m as int, block.0 as int, block.1 as int)]),
                ),
        },
        r is Ok ==> forall|p: int|
            0 <= p < n * m ==> #[trigger] r->Ok_0@[p] == fp4_reserved_f32(nibble_at(packed@, p)).product(
                e8m0_f32(scale@[((p / m as int) / block.0 as int) * (m as int
                    / block.1 as int) + (p % m as int) / block.1 as int]),
            ),
{
    if !check_tiling(n, m, block) {
        return Err(LmError::BlockTiling { bn: block.0, bm: block.1, n, m });
    }
    if packed.len() != n * m / 2 {
        return Err(LmError::PackedLen { len: packed.len(), n, m });
    }
    let decode = |p: usize| -> (v: F32)
        requires
            p / 2 < packed@.len(),
        ensures
            v == fp4_reserved_f32(nibble_at(packed@, p as int)),
        { fp4_e2m1_to_f32(nibble(packed, p)) };
    dequantize_block_scale(n, m, block, scale, decode)
}

/// A tensor that was asked for.
pub enum Loaded<'a, T> {
    /// It is resident.
    Kept(&'a CachedTensor<T>),
    /// It is larger than the budget and is not kept.
    Passed(CachedTensor<T>),
}

impl<'a, T> Loaded<'a, T> {
    /// The tensor itself.
    pub open spec fn tensor(&self) -> CachedTensor<T> {
        match self {
            Loaded::Kept(t) => **t,
            Loaded::Passed(t) => *t,
        }
    }

    /// The tensor itself.
    pub fn get(&self) -> (r: &CachedTensor<T>)
        ensures
            *r == self.tensor(),
    {
        match self {
            Loaded::Kept(t) => *t,
            Loaded::Passed(t) => t,
        }
    }
}

/// A bounded cache in front of a slow source of tensors.
///
/// Tensors are fetched one at a time on demand; the least recently used ones are
/// dropped once the byte budget is exceeded.
pub struct OffloadCache<T> {
    cache: LruCache<T>,
}

impl<T> OffloadCache<T> {
    /// The invariant of the entries.
    pub closed spec fn wf(&self) -> bool {
        self.cache.wf()
    }

    /// The resident entries, least recently used first.
    pub closed spec fn entries(&self) -> Seq<Entry<T>> {
        self.cache@
    }

    /// The byte budget.
    pub closed spec fn budget(&self) -> nat {
        self.cache.budget()
    }

    /// What the invariant says of the entries.
    pub proof fn lemma_within_budget(&self)
        requires
            self.wf(),
        ensures
            distinct(self.entries()),
            total_bytes(self.entries()) <= self.budget(),
    {
        self.cache.lemma_within_budget();
    }

    /// An empty cache that holds at most `max_bytes`.
    pub fn new(max_bytes: usize) -> (r: Self)
        ensures
            r.wf(),
            r.entries() == Seq::<Entry<T>>::empty(),
            r.budget() == max_bytes,
    {
        OffloadCache { cache: LruCache::new(max_bytes) }
    }

    /// Caches a tensor under `name`, dropping the least recently used entries over
    /// budget.
    pub fn insert(&mut self, name: &str, t: CachedTensor<T>)
        requires
            old(self).wf(),
            t.sized(),
        ensures
            final(self).wf(),
            final(self).budget() == old(self).budget(),
            final(self).entries() == inserted(old(self).entries(), name@, t, old(self).budget()),
    {
        let _dropped: usize = self.cache.insert(name, t);
    }

    /// The tensor under `name`, if it is still resident. Recency does not change.
    pub fn get_cached(&self, name: &str) -> (r: Option<&CachedTensor<T>>)
        requires
            self.wf(),
        ensures
            r is Some <==> holds_name(self.entries(), name@),
            r is Some ==> *r->Some_0 == self.entries()[position(self.entries(), name@)].1,
    {
        self.cache.peek(name)
    }

    /// The tensor under `name`: the resident one, which becomes the most recently
    /// used, or the one that `fetch` gives, which is cached. A fetched tensor over
    /// the budget is handed out and not kept.
    pub fn load<E, F: FnOnce() -> Result<CachedTensor<T>, E>>(
        &mut self,
        name: &str,
        fetch: F,
    ) -> (r: Result<Loaded<'_, T>, E>)
        requires
            old(self).wf(),
            fetch.requires(()),
            forall|t: CachedTensor<T>|
                fetch.ensures((), Ok::<CachedTensor<T>, E>(t)) ==> #[trigger] t.sized(),
        ensures
            final(self).wf(),
            final(self).budget() == old(self).budget(),
            holds_name(old(self).entries(), name@) ==> {
                &&& r is Ok
                &&& r->Ok_0 is Kept
                &&& r->Ok_0.tensor() == old(self).entries()[position(old(self).entries(), name@)].1
                &&& final(self).entries() == touched(old(self).entries(), name@)
            },
            !holds_name(old(self).entries(), name@) ==> match r {
                Ok(got) => {
                    &&& fetch.ensures((), Ok::<CachedTensor<T>, E>(got.tensor()))
                    &&& got is Kept <==> got.tensor().bytes() <= old(self).budget()
                    &&& final(self).entries() == inserted(
                        old(self).entries(),
                        name@,
                        got.tensor(),
                        old(self).budget(),
                    )
                    &&& got is Kept ==> final(self).entries().last() == (name@, got.tensor())
                    &&& got is Passed ==> final(self).entries().len() == 0
                },
                Err(e) => {
                    &&& fetch.ensures((), Err::<CachedTensor<T>, E>(e))
                    &&& final(self).entries() == old(self).entries()
                },
            },
    {
        if self.cache.touch(name) {
            return Ok(Loaded::Kept(self.cache.newest()));
        }
        match fetch() {
            Ok(t) => {
                proof {
                    assert(t.sized());
                    self.cache.lemma_within_budget();
                    law_insert_keeps_the_most_recent(
                        self.cache@,
                        name@,
                        t,
                        self.cache.budget(),
                    );
                }
                if t.bytes_of() > self.cache.max_bytes() {
                    self.cache.clear();
                    return Ok(Loaded::Passed(t));
                }
                let _dropped: usize = self.cache.insert(name, t);
                Ok(Loaded::Kept(self.cache.newest()))
            },
            Err(e) => Err(e),
        }
    }

    /// Resident size in bytes.
    pub fn current_bytes(&self) -> (r: usize)
        requires
            self.wf(),
        ensures
            r == total_bytes(self.entries()),
            r <= self.budget(),
    {
        self.cache.resident_bytes()
    }

    /// Number of resident tensors.
    pub fn len(&self) -> (r: usize)
        ensures
            r == self.entries().len(),
    {
        self.cache.len()
    }

    pub fn is_empty(&self) -> (r: bool)
        ensures
            r <==> self.entries().len() == 0,
    {
        self.cache.is_empty()
    }

    /// Drops everything, to free memory between layers.
    pub fn clear(&mut self)
        requires
            old(self).wf(),
        ensures
            final(self).wf(),
            final(self).entries() == Seq::<Entry<T>>::empty(),
            final(self).budget() == old(self).budget(),
    {
        self.cache.clear();
    }
}

/// One of `needles` occurs in `name`.
pub open spec fn any_occurs(needles: Seq<String>, name: Seq<char>) -> bool {
    exists|i: int| 0 <= i < needles.len() && occurs_in(name, (#[trigger] needles[i])@)
}

/// A checkpoint whose tensors carry the model's own names, with on-demand
/// dequantization and a bounded cache of the dequantized weights.
///
/// The scale of a weight is the tensor named like it with `scale_suffix` appended;
/// weights named in `fp4_prefixes` are packed fp4.
pub struct DeepseekV4Quantized<T> {
    names: Vec<String>,
    block: (usize, usize),
    scale_suffix: String,
    fp4_prefixes: Vec<String>,
    out_dtype: DType,
    cache: LruCache<T>,
}

impl<T> DeepseekV4Quantized<T> {
    /// The invariant of the cache.
    pub closed spec fn wf(&self) -> bool {
        self.cache.wf()
    }

    /// The tensor is present in the checkpoint.
    pub closed spec fn stored(&self, name: Seq<char>) -> bool {
        listed(self.names@, name)
    }

    /// The weight is stored as packed fp4.
    pub closed spec fn packed(&self, name: Seq<char>) -> bool {
        any_occurs(self.fp4_prefixes@, name)
    }

    /// What is appended to a weight's name for its scale.
    pub closed spec fn suffix(&self) -> Seq<char> {
        self.scale_suffix@
    }

    /// The dequantization block.
    pub closed spec fn scale_block(&self) -> (usize, usize) {
        self.block
    }

    /// The element type of the weights.
    pub closed spec fn float_dtype(&self) -> DType {
        self.out_dtype
    }

    /// The cached weights, least recently used first.
    pub closed spec fn entries(&self) -> Seq<Entry<T>> {
        self.cache@
    }

    /// The byte budget of the cache.
    pub closed spec fn budget(&self) -> nat {
        self.cache.budget()
    }

    /// What the invariant says of the cache.
    pub proof fn lemma_within_budget(&self)
        requires
            self.wf(),
        ensures
            distinct(self.entries()),
            total_bytes(self.entries()) <= self.budget(),
    {
        self.cache.lemma_within_budget();
    }

    /// Everything but the cache is the same.
    pub open spec fn same_checkpoint(&self, other: &Self) -> bool {
        &&& forall|n: Seq<char>| #[trigger] self.stored(n) == other.stored(n)
        &&& forall|n: Seq<char>| #[trigger] self.packed(n) == other.packed(n)
        &&& self.suffix() == other.suffix()
        &&& self.scale_block() == other.scale_block()
        &&& self.float_dtype() == other.float_dtype()
        &&& self.budget() == other.budget()
    }

    /// How the tensor `name` is read into a weight of shape `dims`. Weights of fewer
    /// than two dimensions are plain and keep their stored shape.
    pub open spec fn part_of(&self, name: Seq<char>, dims: Seq<usize>) -> PartView {
        let scale = name + self.suffix();
        let rows = elem_count(dims.drop_last());
        let cols = dims.last() as nat;
        let block = self.scale_block();
        PartView {
            name,
            source: if dims.len() < 2 {
                SourceView::Plain
            } else if self.packed(name) {
                SourceView::Fp4 { scale, rows, cols, block }
            } else if self.stored(scale) {
                SourceView::Fp8 { scale, rows, cols, block }
            } else {
                SourceView::Plain
            },
            dims,
            reshape: dims.len() >= 2,
        }
    }

    /// A checkpoint with the stored tensor `names`. `block` is the fp8/fp4 block and
    /// `max_bytes` caps the cache.
    pub fn new(
        names: Vec<String>,
        block: (usize, usize),
        scale_suffix: &str,
        fp4_prefixes: Vec<String>,
        out_dtype: DType,
        max_bytes: usize,
    ) -> (r: Self)
        ensures
            r.wf(),
            forall|n: Seq<char>| #[trigger] r.stored(n) == listed(names@, n),
            forall|n: Seq<char>| #[trigger] r.packed(n) == any_occurs(fp4_prefixes@, n),
            r.suffix() == scale_suffix@,
            r.scale_block() == block,
            r.float_dtype() == out_dtype,
            r.entries() == Seq::<Entry<T>>::empty(),
            r.budget() == max_bytes,
    {
        DeepseekV4Quantized {
            names,
            block,
            scale_suffix: scale_suffix.to_owned(),
            fp4_prefixes,
            out_dtype,
            cache: LruCache::new(max_bytes),
        }
    }

    /// Whether `name` is a tensor of the checkpoint.
    pub fn contains(&self, name: &str) -> (r: bool)
        ensures
            r == self.stored(name@),
    {
        is_listed(&self.names, name)
    }

    /// Whether `name` is stored as packed fp4.
    pub fn is_fp4(&self, name: &str) -> (r: bool)
        ensures
            r == self.packed(name@),
    {
        let mut i: usize = 0;
        while i < self.fp4_prefixes.len()
            invariant
                i <= self.fp4_prefixes@.len(),
                forall|a: int|
                    0 <= a < i ==> !occurs_in(name@, (#[trigger] self.fp4_prefixes@[a])@),
            decreases self.fp4_prefixes@.len() - i,
        {
            if contains(name, self.fp4_prefixes[i].as_str()) {
                return true;
            }
            i = i + 1;
        }
        false
    }

    /// The name of the scale tensor of `name`.
    pub fn scale_name(&self, name: &str) -> (r: String)
        ensures
            r@ == name@ + self.suffix(),
    {
        let mut t: String = name.to_owned();
        t.append(self.scale_suffix.as_str());
        t
    }

    /// Plans the reading of one stored tensor. The result is converted to the
    /// element type of the weights.
    pub fn dequantize(&self, name: &str, dims: &[usize]) -> (r: WeightPart)
        requires
            counts_fit(dims@),
        ensures
            r@ == self.part_of(name@, dims@),
    {
        let kept: Vec<usize> = copy_dims(dims);
        if dims.len() < 2 {
            return WeightPart {
                name: name.to_owned(),
                source: WeightSource::Plain,
                dims: kept,
                reshape: false,
            };
        }
        let (rows, cols): (usize, usize) = rows_and_cols(dims);
        let scale: String = self.scale_name(name);
        let source: WeightSource = if self.is_fp4(name) {
            WeightSource::Fp4 { scale, rows, cols, block: self.block }
        } else if self.contains(scale.as_str()) {
            WeightSource::Fp8 { scale, rows, cols, block: self.block }
        } else {
            WeightSource::Plain
        };
        WeightPart { name: name.to_owned(), source, dims: kept, reshape: true }
    }

    /// Looks a weight up in the cache; a hit becomes the most recently used entry, a
    /// miss tells how to read the weight.
    pub fn load_weight(&mut self, name: &str, dims: &[usize]) -> (r: Result<
        &CachedTensor<T>,
        WeightPart,
    >)
        requires
            old(self).wf(),
            counts_fit(dims@),
        ensures
            final(self).wf(),
            final(self).same_checkpoint(old(self)),
            match r {
                Ok(t) => holds_name(old(self).entries(), name@) && *t == old(self).entries()[position(
                    old(self).entries(),
                    name@,
                )].1 && final(self).entries() == touched(old(self).entries(), name@),
                Err(part) => !holds_name(old(self).entries(), name@) && final(self).entries()
                    == old(self).entries() && part@ == old(self).part_of(name@, dims@),
            },
    {
        if self.cache.touch(name) {
            Ok(self.cache.newest())
        } else {
            Err(self.dequantize(name, dims))
        }
    }

    /// Keeps a dequantized weight in the cache.
    pub fn keep(&mut self, name: &str, t: CachedTensor<T>)
        requires
            old(self).wf(),
            t.sized(),
        ensures
            final(self).wf(),
            final(self).same_checkpoint(old(self)),
            final(self).entries() == inserted(old(self).entries(), name@, t, old(self).budget()),
    {
        let _dropped: usize = self.cache.insert(name, t);
    }

    /// Resident bytes of the cache.
    pub fn resident_bytes(&self) -> (r: usize)
        requires
            self.wf(),
        ensures
            r == total_bytes(self.entries()),
            r <= self.budget(),
    {
        self.cache.resident_bytes()
    }

    /// Number of cached weights.
    pub fn cached_len(&self) -> (r: usize)
        ensures
            r == self.entries().len(),
    {
        self.cache.len()
    }
}

/// A weight of `gn` x `gm` whole tiles is accepted with exactly one byte per element and
/// one scale per tile; the weight is looked at before the scale.
pub proof fn law_fp8_sizes(
    n: usize,
    m: usize,
    block: (usize, usize),
    gn: nat,
    gm: nat,
    weight_len: nat,
    scale_len: nat,
)
    requires
        gn > 0,
        gm > 0,
        block.0 > 0,
        block.1 > 0,
        n == gn * block.0,
        m == gm * block.1,
        n * m <= usize::MAX,
        weight_len <= usize::MAX,
        scale_len <= usize::MAX,
    ensures
        weight_len != n * m ==> fp8_error(n, m, block, weight_len, scale_len) == Some(
            LmError::WeightLen { len: weight_len as usize, n, m },
        ),
        weight_len == n * m && scale_len != gn * gm ==> fp8_error(
            n,
            m,
            block,
            weight_len,
            scale_len,
        ) == Some(LmError::ScaleLen { len: scale_len as usize, tiles: (gn * gm) as usize }),
        weight_len == n * m && scale_len == gn * gm ==> fp8_error(
            n,
            m,
            block,
            weight_len,
            scale_len,
        ) is None,
{
    law_whole_tiles_are_accepted(n, m, block, gn, gm, scale_len);
}

/// Packed fp4 of `gn` x `gm` whole tiles is accepted with exactly half a byte per element
/// and one scale per tile.
pub proof fn law_fp4_sizes(
    n: usize,
    m: usize,
    block: (usize, usize),
    gn: nat,
    gm: nat,
    packed_len: nat,
    scale_len: nat,
)
    requires
        gn > 0,
        gm > 0,
        block.0 > 0,
        block.1 > 0,
        n == gn * block.0,
        m == gm * block.1,
        n * m <= usize::MAX,
        (n * m) % 2 == 0,
        packed_len <= usize::MAX,
        scale_len <= usize::MAX,
    ensures
        2 * packed_len != n * m ==> fp4_error(n, m, block, packed_len, scale_len) == Some(
            LmError::PackedLen { len: packed_len as usize, n, m },
        ),
        2 * packed_len == n * m && scale_len != gn * gm ==> fp4_error(
            n,
            m,
            block,
            packed_len,
            scale_len,
        ) == Some(LmError::ScaleLen { len: scale_len as usize, tiles: (gn * gm) as usize }),
        2 * packed_len == n * m && scale_len == gn * gm ==> fp4_error(
            n,
            m,
            block,
            packed_len,
            scale_len,
        ) is None,
{
    law_whole_tiles_are_accepted(n, m, block, gn, gm, scale_len);
}

/// A weight that does not tile is rejected for that, whatever its length.
pub proof fn law_bad_tilings_are_rejected(
    n: usize,
    m: usize,
    block: (usize, usize),
    len: nat,
    scale_len: nat,
)
    requires
        n == 0 || m == 0 || block.0 == 0 || block.1 == 0 || n as int % block.0 as int != 0
            || m as int % block.1 as int != 0,
    ensures
        fp8_error(n, m, block, len, scale_len) == Some(
            LmError::BlockTiling { bn: block.0, bm: block.1, n, m },
        ),
        fp4_error(n, m, block, len, scale_len) == Some(
            LmError::BlockTiling { bn: block.0, bm: block.1, n, m },
        ),
{
    law_other_tilings_are_rejected(n, m, block, scale_len);
}

/// One tensor is read in the shape asked for: as it is stored, and in its stored shape,
/// below two dimensions; as packed fp4 where the name says so; as fp8 where a scale is
/// stored under the name with the suffix behind it; as it is stored otherwise. Rows and
/// columns multiply to the elements of the shape.
pub proof fn law_tensors_are_read_by_kind<T>(
    loader: &DeepseekV4Quantized<T>,
    name: Seq<char>,
    dims: Seq<usize>,
)
    ensures
        ({
            let part = loader.part_of(name, dims);
            let scale = name + loader.suffix();
            &&& part.name == name
            &&& part.dims == dims
            &&& part.reshape <==> dims.len() >= 2
            &&& dims.len() < 2 ==> part.source is Plain
            &&& dims.len() >= 2 && loader.packed(name) ==> part.source is Fp4
            &&& dims.len() >= 2 && !loader.packed(name) && loader.stored(scale)
                ==> part.source is Fp8
            &&& dims.len() >= 2 && !loader.packed(name) && !loader.stored(scale)
                ==> part.source is Plain
            &&& match part.source {
                SourceView::Plain => true,
                SourceView::Fp4 { scale: s, rows, cols, block } => s == scale && rows * cols
                    == elem_count(dims) && cols == dims.last() && block == loader.scale_block(),
                SourceView::Fp8 { scale: s, rows, cols, block } => s == scale && rows * cols
                    == elem_count(dims) && cols == dims.last() && block == loader.scale_block(),
            }
        }),
{
}

/// A name is packed where one of the given texts stands anywhere in it.
pub proof fn law_packed_names(needles: Seq<String>, a: Seq<char>, b: Seq<char>, i: int)
    requires
        0 <= i < needles.len(),
    ensures
        any_occurs(needles, a + needles[i]@ + b),
{
    let name = a + needles[i]@ + b;
    let needle = needles[i]@;
    assert(name.subrange(a.len() as int, (a.len() + needle.len()) as int) =~= needle);
    assert(occurs_at(name, needle, a.len() as int));
    assert(occurs_in(name, needle));
}

} // verus!
