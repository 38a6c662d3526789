//! Loading of flat-named DeepSeek-V4-Flash checkpoints with fp8/fp4 weights.

use vstd::prelude::*;
use vstd::string::StringExecFns;

use crate::blocks::{counts_fit, elem_count, tile_of};
use crate::cache::{
    distinct, evicted_by, holds_name, inserted, position, total_bytes, touched, CachedTensor, Entry,
    WeightCache,
};
use crate::dequant::{
    check_layout, dequantize_block_scale, law_other_tilings_are_rejected,
    law_whole_tiles_are_accepted, tiling_error,
};
use crate::dtype::DType;
use crate::error::LmError;
use crate::float::F32;
use crate::formats::{e8m0_f32, fp4_f32, fp8_f32, nibble, nibble_at};
use crate::deepseek_v4::DeepseekV4Config;
use crate::plan::{
    copy_dims, rows_and_cols, PartView, SourceView, WeightPart, WeightSource,
};
use crate::text::{
    contains, decimal, decimal_string, find_char, find_from, is_digit, law_decimal_parses_back,
    is_listed, lemma_decimal_digits, listed, occurs_at, occurs_in, parse_usize, parsed, same,
    strip_prefix, strip_suffix, to_chars,
};

pub use crate::formats::{e8m0_to_f32, fp4_e2m1_to_f32, fp8_e4m3_to_f32};

verus! {

/// Why fp8 bytes are rejected, if they are: the weight is looked at first, then
/// the tiling, then the scale.
pub open spec fn fp8_error(
    n: usize,
    m: usize,
    block: (usize, usize),
    weight_len: nat,
    scale_len: nat,
) -> Option<LmError> {
    if weight_len != n * m {
        Some(LmError::WeightLen { len: weight_len as usize, n, m })
    } else {
        tiling_error(n, m, block, scale_len)
    }
}

/// Why packed fp4 bytes are rejected, if they are.
pub open spec fn fp4_error(
    n: usize,
    m: usize,
    block: (usize, usize),
    packed_len: nat,
    scale_len: nat,
) -> Option<LmError> {
    if packed_len != (n * m) / 2 {
        Some(LmError::PackedLen { len: packed_len as usize, n, m })
    } else {
        tiling_error(n, m, block, scale_len)
    }
}

/// Validates the sizes of a block-scaled fp8 weight.
pub fn check_fp8(
    weight_len: usize,
    scale_len: usize,
    n: usize,
    m: usize,
    block: (usize, usize),
) -> (r: Result<(), LmError>)
    requires
        n * m <= usize::MAX,
    ensures
        match fp8_error(n, m, block, weight_len as nat, scale_len as nat) {
            Some(e) => r == Err::<(), LmError>(e),
            None => r is Ok,
        },
{
    if weight_len != n * m {
        return Err(LmError::WeightLen { len: weight_len, n, m });
    }
    check_layout(n, m, block, scale_len)
}

/// Validates the sizes of a packed fp4 weight.
pub fn check_fp4(
    packed_len: usize,
    scale_len: usize,
    n: usize,
    m: usize,
    block: (usize, usize),
) -> (r: Result<(), LmError>)
    requires
        n * m <= usize::MAX,
    ensures
        match fp4_error(n, m, block, packed_len as nat, scale_len as nat) {
            Some(e) => r == Err::<(), LmError>(e),
            None => r is Ok,
        },
{
    if packed_len != n * m / 2 {
        return Err(LmError::PackedLen { len: packed_len, n, m });
    }
    check_layout(n, m, block, scale_len)
}

/// Dequantizes a block-scaled FP8 E4M3 weight; `scale` is one E8M0 byte per tile.
pub fn dequantize_fp8_block_scale(
    weight: &[u8],
    scale: &[u8],
    n: usize,
    m: usize,
    block: (usize, usize),
) -> (r: Result<Vec<F32>, LmError>)
    requires
        n * m <= usize::MAX,
    ensures
        match fp8_error(n, m, block, weight@.len(), scale@.len()) {
            Some(e) => r == Err::<Vec<F32>, LmError>(e),
            None => r is Ok && r->Ok_0@.len() == n * m && forall|p: int|
                0 <= p < n * m ==> #[trigger] r->Ok_0@[p] == fp8_f32(weight@[p]).product(
                    e8m0_f32(scale@[tile_of(p, m as int, block.0 as int, block.1 as int)]),
                ),
        },
        r is Ok ==> forall|p: int|
            0 <= p < n * m ==> #[trigger] r->Ok_0@[p] == fp8_f32(weight@[p]).product(
                e8m0_f32(scale@[((p / m as int) / block.0 as int) * (m as int
                    / block.1 as int) + (p % m as int) / block.1 as int]),
            ),
{
    match check_fp8(weight.len(), scale.len(), n, m, block) {
        Ok(()) => {},
        Err(e) => {
            return Err(e);
        },
    }
    let decode = |p: usize| -> (v: F32)
        requires
            p < weight@.len(),
        ensures
            v == fp8_f32(weight@[p as int]),
        { fp8_e4m3_to_f32(weight[p]) };
    dequantize_block_scale(n, m, block, scale, decode)
}

/// Dequantizes a block-scaled FP4 E2M1 weight, two nibbles to a byte, low nibble
/// first.
pub fn dequantize_fp4_block_scale(
    packed: &[u8],
    scale: &[u8],
    n: usize,
    m: usize,
    block: (usize, usize),
) -> (r: Result<Vec<F32>, LmError>)
    requires
        n * m <= usize::MAX,
        (n * m) % 2 == 0 || fp4_error(n, m, block, packed@.len(), scale@.len()) is Some,
    ensures
        match fp4_error(n, m, block, packed@.len(), scale@.len()) {
            Some(e) => r == Err::<Vec<F32>, LmError>(e),
            None => r is Ok && r->Ok_0@.len() == n * m && forall|p: int|
                0 <= p < n * m ==> #[trigger] r->Ok_0@[p] == fp4_f32(nibble_at(packed@, p)).product(
                    e8m0_f32(scale@[tile_of(p, m as int, block.0 as int, block.1 as int)]),
                ),
        },
        r is Ok ==> forall|p: int|
            0 <= p < n * m ==> #[trigger] r->Ok_0@[p] == fp4_f32(nibble_at(packed@, p)).product(
                e8m0_f32(scale@[((p / m as int) / block.0 as int) * (m as int
                    / block.1 as int) + (p % m as int) / block.1 as int]),
            ),
{
    match check_fp4(packed.len(), scale.len(), n, m, block) {
        Ok(()) => {},
        Err(e) => {
            return Err(e);
        },
    }
    let decode = |p: usize| -> (v: F32)
        requires
            p / 2 < packed@.len(),
        ensures
            v == fp4_f32(nibble_at(packed@, p as int)),
        { fp4_e2m1_to_f32(nibble(packed, p)) };
    dequantize_block_scale(n, m, block, scale, decode)
}

/// The checkpoint name of a weight outside the decoder layers.
pub open spec fn root_name(name: Seq<char>) -> Option<Seq<char>> {
    if name == "model.embed_tokens.weight"@ {
        Some("embed.weight"@)
    } else if name == "model.norm.weight"@ {
        Some("norm.weight"@)
    } else if name == "lm_head.weight"@ {
        Some("head.weight"@)
    } else if name == "model.hc_head.hc_fn"@ {
        Some("hc_head_fn"@)
    } else if name == "model.hc_head.hc_base"@ {
        Some("hc_head_base"@)
    } else if name == "model.hc_head.hc_scale"@ {
        Some("hc_head_scale"@)
    } else {
        None
    }
}

/// The checkpoint name, within its layer, of a weight that one stored tensor holds.
pub open spec fn layer_name(body: Seq<char>) -> Option<Seq<char>> {
    if body == "self_attn.q_a_proj.weight"@ {
        Some("attn.wq_a.weight"@)
    } else if body == "self_attn.q_a_norm.weight"@ {
        Some("attn.q_norm.weight"@)
    } else if body == "self_attn.q_b_proj.weight"@ {
        Some("attn.wq_b.weight"@)
    } else if body == "self_attn.kv_proj.weight"@ {
        Some("attn.wkv.weight"@)
    } else if body == "self_attn.kv_norm.weight"@ {
        Some("attn.kv_norm.weight"@)
    } else if body == "self_attn.o_a_proj.weight"@ {
        Some("attn.wo_a.weight"@)
    } else if body == "self_attn.o_b_proj.weight"@ {
        Some("attn.wo_b.weight"@)
    } else if body == "self_attn.sinks"@ {
        Some("attn.attn_sink"@)
    } else if body == "self_attn.compressor.kv_proj.weight"@ {
        Some("attn.compressor.wkv.weight"@)
    } else if body == "self_attn.compressor.gate_proj.weight"@ {
        Some("attn.compressor.wgate.weight"@)
    } else if body == "self_attn.compressor.position_bias"@ {
        Some("attn.compressor.ape"@)
    } else if body == "self_attn.compressor.kv_norm.weight"@ {
        Some("attn.compressor.norm.weight"@)
    } else if body == "self_attn.compressor.indexer.kv_proj.weight"@ {
        Some("attn.indexer.compressor.wkv.weight"@)
    } else if body == "self_attn.compressor.indexer.gate_proj.weight"@ {
        Some("attn.indexer.compressor.wgate.weight"@)
    } else if body == "self_attn.compressor.indexer.position_bias"@ {
        Some("attn.indexer.compressor.ape"@)
    } else if body == "self_attn.compressor.indexer.kv_norm.weight"@ {
        Some("attn.indexer.compressor.norm.weight"@)
    } else if body == "self_attn.compressor.indexer.q_b_proj.weight"@ {
        Some("attn.indexer.wq_b.weight"@)
    } else if body == "self_attn.compressor.indexer.scorer.weights_proj.weight"@ {
        Some("attn.indexer.weights_proj.weight"@)
    } else if body == "attn_hc.fn"@ {
        Some("hc_attn_fn"@)
    } else if body == "attn_hc.base"@ {
        Some("hc_attn_base"@)
    } else if body == "attn_hc.scale"@ {
        Some("hc_attn_scale"@)
    } else if body == "ffn_hc.fn"@ {
        Some("hc_ffn_fn"@)
    } else if body == "ffn_hc.base"@ {
        Some("hc_ffn_base"@)
    } else if body == "ffn_hc.scale"@ {
        Some("hc_ffn_scale"@)
    } else if body == "input_layernorm.weight"@ {
        Some("attn_norm.weight"@)
    } else if body == "post_attention_layernorm.weight"@ {
        Some("ffn_norm.weight"@)
    } else if body == "mlp.gate.weight"@ {
        Some("ffn.gate.weight"@)
    } else if body == "mlp.gate.tid2eid"@ {
        Some("ffn.gate.tid2eid"@)
    } else if body == "mlp.shared_experts.gate_proj.weight"@ {
        Some("ffn.shared_experts.w1.weight"@)
    } else if body == "mlp.shared_experts.up_proj.weight"@ {
        Some("ffn.shared_experts.w3.weight"@)
    } else if body == "mlp.shared_experts.down_proj.weight"@ {
        Some("ffn.shared_experts.w2.weight"@)
    } else {
        None
    }
}

/// What a model weight name stands for in the checkpoint.
pub enum TargetView {
    Single(Seq<char>),
    GateUp { layer: nat },
    Down { layer: nat },
}

/// The layer number and the rest of a name `model.layers.<number>.<rest>`.
pub open spec fn split_layer(name: Seq<char>) -> Option<(nat, Seq<char>)> {
    if !occurs_at(name, "model.layers."@, 0) {
        None
    } else {
        let rest = name.skip("model.layers."@.len() as int);
        let dot = find_from(rest, '.', 0);
        if dot >= rest.len() {
            None
        } else {
            match parsed(rest.take(dot)) {
                Some(layer) => Some((layer, rest.skip(dot + 1))),
                None => None,
            }
        }
    }
}

/// The checkpoint name of tensor `s` of a layer.
pub open spec fn in_layer(layer: nat, s: Seq<char>) -> Seq<char> {
    "layers."@ + decimal(layer) + "."@ + s
}

/// What a name within a layer stands for.
pub open spec fn layer_target(layer: nat, body: Seq<char>) -> Option<TargetView> {
    match layer_name(body) {
        Some(s) => Some(TargetView::Single(in_layer(layer, s))),
        None => if body == "mlp.experts.gate_up_proj"@ {
            Some(TargetView::GateUp { layer })
        } else if body == "mlp.experts.down_proj"@ {
            Some(TargetView::Down { layer })
        } else {
            None
        },
    }
}

/// The checkpoint target of a model weight name: flat names for single tensors,
/// and the routed experts assembled from their per-expert tensors. Names without
/// a counterpart have no target.
pub open spec fn schema_target(name: Seq<char>) -> Option<TargetView> {
    match root_name(name) {
        Some(s) => Some(TargetView::Single(s)),
        None => match split_layer(name) {
            Some((layer, body)) => layer_target(layer, body),
            None => None,
        },
    }
}

/// A resolved checkpoint target for a model weight name.
#[derive(Debug)]
pub enum RealTarget {
    /// One stored tensor.
    Single(String),
    /// `gate_up_proj [e, 2 * inter, hidden]` from every expert's `w1` and `w3`.
    GateUp { layer: usize },
    /// `down_proj [e, hidden, inter]` from every expert's `w2`.
    Down { layer: usize },
}

impl View for RealTarget {
    type V = TargetView;

    open spec fn view(&self) -> TargetView {
        match self {
            RealTarget::Single(s) => TargetView::Single(s@),
            RealTarget::GateUp { layer } => TargetView::GateUp { layer: *layer as nat },
            RealTarget::Down { layer } => TargetView::Down { layer: *layer as nat },
        }
    }
}

fn find_root_name(name: &str) -> (r: Option<&'static str>)
    ensures
        match r {
            Some(s) => root_name(name@) == Some(s@),
            None => root_name(name@) is None,
        },
{
    if same(name, "model.embed_tokens.weight") {
        Some("embed.weight")
    } else if same(name, "model.norm.weight") {
        Some("norm.weight")
    } else if same(name, "lm_head.weight") {
        Some("head.weight")
    } else if same(name, "model.hc_head.hc_fn") {
        Some("hc_head_fn")
    } else if same(name, "model.hc_head.hc_base") {
        Some("hc_head_base")
    } else if same(name, "model.hc_head.hc_scale") {
        Some("hc_head_scale")
    } else {
        None
    }
}

fn find_layer_name(body: &str) -> (r: Option<&'static str>)
    ensures
        match r {
            Some(s) => layer_name(body@) == Some(s@),
            None => layer_name(body@) is None,
        },
{
    if same(body, "self_attn.q_a_proj.weight") {
        Some("attn.wq_a.weight")
    } else if same(body, "self_attn.q_a_norm.weight") {
        Some("attn.q_norm.weight")
    } else if same(body, "self_attn.q_b_proj.weight") {
        Some("attn.wq_b.weight")
    } else if same(body, "self_attn.kv_proj.weight") {
        Some("attn.wkv.weight")
    } else if same(body, "self_attn.kv_norm.weight") {
        Some("attn.kv_norm.weight")
    } else if same(body, "self_attn.o_a_proj.weight") {
        Some("attn.wo_a.weight")
    } else if same(body, "self_attn.o_b_proj.weight") {
        Some("attn.wo_b.weight")
    } else if same(body, "self_attn.sinks") {
        Some("attn.attn_sink")
    } else if same(body, "self_attn.compressor.kv_proj.weight") {
        Some("attn.compressor.wkv.weight")
    } else if same(body, "self_attn.compressor.gate_proj.weight") {
        Some("attn.compressor.wgate.weight")
    } else if same(body, "self_attn.compressor.position_bias") {
        Some("attn.compressor.ape")
    } else if same(body, "self_attn.compressor.kv_norm.weight") {
        Some("attn.compressor.norm.weight")
    } else if same(body, "self_attn.compressor.indexer.kv_proj.weight") {
        Some("attn.indexer.compressor.wkv.weight")
    } else if same(body, "self_attn.compressor.indexer.gate_proj.weight") {
        Some("attn.indexer.compressor.wgate.weight")
    } else if same(body, "self_attn.compressor.indexer.position_bias") {
        Some("attn.indexer.compressor.ape")
    } else if same(body, "self_attn.compressor.indexer.kv_norm.weight") {
        Some("attn.indexer.compressor.norm.weight")
    } else if same(body, "self_attn.compressor.indexer.q_b_proj.weight") {
        Some("attn.indexer.wq_b.weight")
    } else if same(body, "self_attn.compressor.indexer.scorer.weights_proj.weight") {
        Some("attn.indexer.weights_proj.weight")
    } else if same(body, "attn_hc.fn") {
        Some("hc_attn_fn")
    } else if same(body, "attn_hc.base") {
        Some("hc_attn_base")
    } else if same(body, "attn_hc.scale") {
        Some("hc_attn_scale")
    } else if same(body, "ffn_hc.fn") {
        Some("hc_ffn_fn")
    } else if same(body, "ffn_hc.base") {
        Some("hc_ffn_base")
    } else if same(body, "ffn_hc.scale") {
        Some("hc_ffn_scale")
    } else if same(body, "input_layernorm.weight") {
        Some("attn_norm.weight")
    } else if same(body, "post_attention_layernorm.weight") {
        Some("ffn_norm.weight")
    } else if same(body, "mlp.gate.weight") {
        Some("ffn.gate.weight")
    } else if same(body, "mlp.gate.tid2eid") {
        Some("ffn.gate.tid2eid")
    } else if same(body, "mlp.shared_experts.gate_proj.weight") {
        Some("ffn.shared_experts.w1.weight")
    } else if same(body, "mlp.shared_experts.up_proj.weight") {
        Some("ffn.shared_experts.w3.weight")
    } else if same(body, "mlp.shared_experts.down_proj.weight") {
        Some("ffn.shared_experts.w2.weight")
    } else {
        None
    }
}

/// Joins a layer number and a tensor name.
fn name_in_layer(layer: usize, s: &str) -> (r: String)
    ensures
        r@ == in_layer(layer as nat, s@),
{
    let mut t: String = "layers.".to_owned();
    let d: String = decimal_string(layer);
    t.append(d.as_str());
    t.append(".");
    t.append(s);
    t
}

/// Resolves a model weight name to its checkpoint target.
pub fn real_schema_target(name: &str) -> (r: Option<RealTarget>)
    ensures
        match r {
            Some(t) => schema_target(name@) == Some(t@),
            None => schema_target(name@) is None,
        },
{
    match find_root_name(name) {
        Some(s) => {
            return Some(RealTarget::Single(s.to_owned()));
        },
        None => {},
    }
    let rest: &str = match strip_prefix(name, "model.layers.") {
        Some(s) => s,
        None => {
            return None;
        },
    };
    let chars: Vec<char> = to_chars(rest);
    let len: usize = chars.len();
    let dot: usize = match find_char(&chars, '.') {
        Some(i) => i,
        None => {
            return None;
        },
    };
    let number: &str = rest.substring_char(0, dot);
    let body: &str = rest.substring_char(dot + 1, len);
    proof {
        assert(rest@.subrange(0, dot as int) =~= rest@.take(dot as int));
        assert(rest@.subrange(dot + 1, rest@.len() as int) =~= rest@.skip(dot + 1));
    }
    let layer: usize = match parse_usize(number) {
        Some(n) => n,
        None => {
            return None;
        },
    };
    match find_layer_name(body) {
        Some(s) => Some(RealTarget::Single(name_in_layer(layer, s))),
        None => {
            if same(body, "mlp.experts.gate_up_proj") {
                Some(RealTarget::GateUp { layer })
            } else if same(body, "mlp.experts.down_proj") {
                Some(RealTarget::Down { layer })
            } else {
                None
            }
        },
    }
}

/// The name under which a layer's model weight is requested.
pub open spec fn full_name_of(layer: nat, name: Seq<char>) -> Seq<char> {
    "model.layers."@ + decimal(layer) + "."@ + name
}

/// Serves the weights of one decoder layer under their names within the layer.
#[derive(Debug, Clone, Copy, PartialEq, Eq, Structural)]
pub struct LayerBackend {
    pub layer: usize,
}

impl LayerBackend {
    /// The full model weight name of `name` within this layer.
    pub fn full_name(&self, name: &str) -> (r: String)
        ensures
            r@ == full_name_of(self.layer as nat, name@),
    {
        let mut t: String = "model.layers.".to_owned();
        let d: String = decimal_string(self.layer);
        t.append(d.as_str());
        t.append(".");
        t.append(name);
        t
    }
}

/// A layer's requests reach that layer's tensors: the full name of `name` in a
/// layer resolves as `name` within that layer.
pub proof fn law_full_name_resolves_in_layer(layer: nat, name: Seq<char>)
    requires
        layer <= usize::MAX,
    ensures
        schema_target(full_name_of(layer, name)) == layer_target(layer, name),
{
    let full = full_name_of(layer, name);
    let prefix = "model.layers."@;
    let d = decimal(layer);
    reveal_strlit("model.layers.");
    reveal_strlit(".");
    lemma_root_names_differ(full);
    assert(full.subrange(0, prefix.len() as int) =~= prefix);
    let rest = full.skip(prefix.len() as int);
    assert(rest =~= d + "."@ + name);
    lemma_decimal_digits(layer);
    law_decimal_parses_back(layer);
    lemma_find_after_digits(rest, d.len() as int, 0);
    assert(rest.take(d.len() as int) =~= d);
    assert(rest.skip(d.len() as int + 1) =~= name);
}

/// The first dot after a run of digits is found right behind it.
proof fn lemma_find_after_digits(s: Seq<char>, n: int, i: int)
    requires
        0 <= i <= n < s.len(),
        s[n] == '.',
        forall|j: int| 0 <= j < n ==> is_digit(#[trigger] s[j]),
    ensures
        find_from(s, '.', i) == n,
    decreases n - i,
{
    if i < n {
        assert(is_digit(s[i]));
        lemma_find_after_digits(s, n, i + 1);
    }
}

/// A layer's full name is none of the names outside the layers.
pub proof fn lemma_root_names_differ(full: Seq<char>)
    requires
        full.len() >= 13,
        full.subrange(0, 13) == "model.layers."@,
    ensures
        root_name(full) is None,
{
    reveal_strlit("model.layers.");
    reveal_strlit("model.embed_tokens.weight");
    reveal_strlit("model.norm.weight");
    reveal_strlit("lm_head.weight");
    reveal_strlit("model.hc_head.hc_fn");
    reveal_strlit("model.hc_head.hc_base");
    reveal_strlit("model.hc_head.hc_scale");
    assert(full[6] == "model.layers."@[6]) by {
        assert(full.subrange(0, 13)[6] == full[6]);
    }
    assert(full[0] == "model.layers."@[0]) by {
        assert(full.subrange(0, 13)[0] == full[0]);
    }
}

/// The tensor name without a trailing `.weight`, with `.scale` behind it.
pub open spec fn scale_name_of(name: Seq<char>) -> Seq<char> {
    if occurs_at(name, ".weight"@, name.len() - ".weight"@.len()) {
        name.take(name.len() - ".weight"@.len()) + ".scale"@
    } else {
        name + ".scale"@
    }
}

/// The reading of a whole weight.
pub enum LoadView {
    One(PartView),
    /// For every expert, `w1` above `w3`; the experts stacked.
    GateUp(Seq<(PartView, PartView)>),
    /// `w2` of every expert, stacked.
    Down(Seq<PartView>),
}

/// The reading of a whole weight.
#[derive(Debug)]
pub enum LoadPlan {
    One(WeightPart),
    GateUp(Vec<(WeightPart, WeightPart)>),
    Down(Vec<WeightPart>),
}

impl View for LoadPlan {
    type V = LoadView;

    open spec fn view(&self) -> LoadView {
        match self {
            LoadPlan::One(p) => LoadView::One(p@),
            LoadPlan::GateUp(v) => LoadView::GateUp(
                Seq::new(v@.len(), |i: int| (v@[i].0@, v@[i].1@)),
            ),
            LoadPlan::Down(v) => LoadView::Down(Seq::new(v@.len(), |i: int| v@[i]@)),
        }
    }
}

/// The checkpoint name of one matrix of one expert.
pub open spec fn expert_name(layer: nat, expert: nat, which: Seq<char>) -> Seq<char> {
    "layers."@ + decimal(layer) + ".ffn.experts."@ + decimal(expert) + "."@ + which + ".weight"@
}

fn name_of_expert(layer: usize, expert: usize, which: &str) -> (r: String)
    ensures
        r@ == expert_name(layer as nat, expert as nat, which@),
{
    let mut t: String = "layers.".to_owned();
    let l: String = decimal_string(layer);
    let e: String = decimal_string(expert);
    t.append(l.as_str());
    t.append(".ffn.experts.");
    t.append(e.as_str());
    t.append(".");
    t.append(which);
    t.append(".weight");
    t
}

/// Where a requested weight is found.
pub enum Lookup<'a, T> {
    /// On the compute device.
    Device(&'a CachedTensor<T>),
    /// In the offload cache; it is to be copied to the device and kept there.
    Offloaded(&'a CachedTensor<T>),
    /// Nowhere; it is to be read as planned, kept in the offload cache, copied to
    /// the device and kept there.
    Missing(LoadPlan),
}

/// A checkpoint with on-demand dequantization and two bounded caches: the
/// dequantized weights in host memory, and the weights in use on the device.
pub struct DeepseekV4Quantized<T> {
    names: Vec<String>,
    block: (usize, usize),
    out_dtype: DType,
    cache: WeightCache<T>,
    gpu_cache: WeightCache<T>,
}

impl<T> DeepseekV4Quantized<T> {
    /// Both caches are well formed.
    pub closed spec fn wf(&self) -> bool {
        &&& self.cache.wf()
        &&& self.gpu_cache.wf()
    }

    /// The tensor is present in the checkpoint.
    pub closed spec fn stored(&self, name: Seq<char>) -> bool {
        listed(self.names@, name)
    }

    /// The fp8 dequantization block.
    pub closed spec fn fp8_block(&self) -> (usize, usize) {
        self.block
    }

    /// The element type of floating-point weights.
    pub closed spec fn float_dtype(&self) -> DType {
        self.out_dtype
    }

    /// Entries of the offload cache.
    pub closed spec fn offloaded(&self) -> Seq<Entry<T>> {
        self.cache@
    }

    pub closed spec fn offload_budget(&self) -> nat {
        self.cache.budget()
    }

    pub closed spec fn offload_evictions(&self) -> nat {
        self.cache.evicted()
    }

    /// Entries of the device cache.
    pub closed spec fn on_device(&self) -> Seq<Entry<T>> {
        self.gpu_cache@
    }

    pub closed spec fn device_budget(&self) -> nat {
        self.gpu_cache.budget()
    }

    pub closed spec fn device_evictions(&self) -> nat {
        self.gpu_cache.evicted()
    }

    /// What the invariant says of the two caches.
    pub proof fn lemma_within_budget(&self)
        requires
            self.wf(),
        ensures
            distinct(self.offloaded()),
            distinct(self.on_device()),
            total_bytes(self.offloaded()) <= self.offload_budget(),
            total_bytes(self.on_device()) <= self.device_budget(),
    {
        self.cache.lemma_within_budget();
        self.gpu_cache.lemma_within_budget();
    }

    /// Everything but the caches is the same.
    pub open spec fn same_checkpoint(&self, other: &Self) -> bool {
        &&& forall|n: Seq<char>| #[trigger] self.stored(n) == other.stored(n)
        &&& self.fp8_block() == other.fp8_block()
        &&& self.float_dtype() == other.float_dtype()
        &&& self.offload_budget() == other.offload_budget()
        &&& self.device_budget() == other.device_budget()
    }

    /// How the tensor `name` is read into a weight of shape `dims`: expert
    /// tensors are packed fp4 scaled per row over 32 columns, a tensor with a
    /// stored scale is block-scaled fp8, anything else is plain, and so is every
    /// weight of fewer than two dimensions.
    pub open spec fn source_of(&self, name: Seq<char>, dims: Seq<usize>) -> SourceView {
        let scale = scale_name_of(name);
        let rows = elem_count(dims.drop_last());
        if dims.len() < 2 {
            SourceView::Plain
        } else if occurs_in(name, ".ffn.experts."@) {
            SourceView::Fp4 { scale, rows, cols: dims.last() as nat, block: (1, 32) }
        } else if self.stored(scale) {
            SourceView::Fp8 { scale, rows, cols: dims.last() as nat, block: self.fp8_block() }
        } else {
            SourceView::Plain
        }
    }

    /// The part that reads `name` into a weight of shape `dims`.
    pub open spec fn part_of(&self, name: Seq<char>, dims: Seq<usize>) -> PartView {
        PartView { name, source: self.source_of(name, dims), dims, reshape: true }
    }

    /// How the model weight `name` of shape `dims` is read.
    pub open spec fn plan_of(&self, name: Seq<char>, dims: Seq<usize>) -> LoadView {
        match schema_target(name) {
            Some(TargetView::Single(flat)) => LoadView::One(self.part_of(flat, dims)),
            Some(TargetView::GateUp { layer }) => {
                let shape = seq![(dims[1] / 2) as usize, dims[2]];
                LoadView::GateUp(
                    Seq::new(
                        dims[0] as nat,
                        |i: int|
                            (
                                self.part_of(expert_name(layer, i as nat, "w1"@), shape),
                                self.part_of(expert_name(layer, i as nat, "w3"@), shape),
                            ),
                    ),
                )
            },
            Some(TargetView::Down { layer }) => {
                let shape = seq![dims[1], dims[2]];
                LoadView::Down(
                    Seq::new(
                        dims[0] as nat,
                        |i: int| self.part_of(expert_name(layer, i as nat, "w2"@), shape),
                    ),
                )
            },
            None => LoadView::One(self.part_of(name, dims)),
        }
    }

    /// Plans depend on the checkpoint alone, not on the caches.
    proof fn lemma_plan_of_checkpoint(a: &Self, b: &Self, name: Seq<char>, dims: Seq<usize>)
        requires
            a.same_checkpoint(b),
        ensures
            a.plan_of(name, dims) == b.plan_of(name, dims),
    {
        assert forall|n: Seq<char>, d: Seq<usize>| #[trigger]
            a.part_of(n, d) == b.part_of(n, d) by {
            assert(a.stored(scale_name_of(n)) == b.stored(scale_name_of(n)));
        }
        match schema_target(name) {
            Some(TargetView::GateUp { .. }) => {
                assert(a.plan_of(name, dims)->GateUp_0 =~= b.plan_of(name, dims)->GateUp_0);
            },
            Some(TargetView::Down { .. }) => {
                assert(a.plan_of(name, dims)->Down_0 =~= b.plan_of(name, dims)->Down_0);
            },
            _ => {},
        }
    }

    /// A shape that the weight `name` can be read into: stacked experts have
    /// three dimensions.
    pub open spec fn loadable(name: Seq<char>, dims: Seq<usize>) -> bool {
        &&& counts_fit(dims)
        &&& match schema_target(name) {
            Some(TargetView::GateUp { .. }) => dims.len() >= 3,
            Some(TargetView::Down { .. }) => dims.len() >= 3,
            _ => true,
        }
    }

    /// A checkpoint with the stored tensor `names`, the fp8 `block`, the element
    /// type of floating-point weights and the budgets of the two caches.
    pub fn new(
        names: Vec<String>,
        block: (usize, usize),
        out_dtype: DType,
        max_bytes: usize,
        gpu_max_bytes: usize,
    ) -> (r: Self)
        ensures
            r.wf(),
            forall|n: Seq<char>| #[trigger] r.stored(n) == listed(names@, n),
            r.fp8_block() == block,
            r.float_dtype() == out_dtype,
            r.offloaded() == Seq::<Entry<T>>::empty(),
            r.offload_budget() == max_bytes,
            r.offload_evictions() == 0,
            r.on_device() == Seq::<Entry<T>>::empty(),
            r.device_budget() == gpu_max_bytes,
            r.device_evictions() == 0,
    {
        DeepseekV4Quantized {
            names,
            block,
            out_dtype,
            cache: WeightCache::new(max_bytes),
            gpu_cache: WeightCache::new(gpu_max_bytes),
        }
    }

    /// As `new`, with the fp8 block of the released checkpoint, 128 x 128.
    pub fn new_real(
        names: Vec<String>,
        out_dtype: DType,
        max_bytes: usize,
        gpu_max_bytes: usize,
    ) -> (r: Self)
        ensures
            r.wf(),
            forall|n: Seq<char>| #[trigger] r.stored(n) == listed(names@, n),
            r.fp8_block() == (128usize, 128usize),
            r.float_dtype() == out_dtype,
            r.offloaded() == Seq::<Entry<T>>::empty(),
            r.offload_budget() == max_bytes,
            r.offload_evictions() == 0,
            r.on_device() == Seq::<Entry<T>>::empty(),
            r.device_budget() == gpu_max_bytes,
            r.device_evictions() == 0,
    {
        Self::new(names, (128, 128), out_dtype, max_bytes, gpu_max_bytes)
    }

    /// Whether `name` is a tensor of the checkpoint.
    pub fn contains(&self, name: &str) -> (r: bool)
        ensures
            r == self.stored(name@),
    {
        is_listed(&self.names, name)
    }

    /// Whether `name` is stored as packed fp4.
    pub fn is_fp4(&self, name: &str) -> (r: bool)
        ensures
            r == occurs_in(name@, ".ffn.experts."@),
    {
        contains(name, ".ffn.experts.")
    }

    /// The name of the scale tensor of `name`.
    pub fn real_scale_name(&self, name: &str) -> (r: String)
        ensures
            r@ == scale_name_of(name@),
    {
        let mut t: String = match strip_suffix(name, ".weight") {
            Some(base) => base.to_owned(),
            None => name.to_owned(),
        };
        t.append(".scale");
        t
    }

    /// The element type a weight ends up with: integers stay as they are, anything
    /// else is converted to the floating-point type.
    pub fn finalize_dtype(&self, dtype: DType) -> (r: DType)
        ensures
            r == match dtype {
                DType::I64 | DType::I32 | DType::I16 | DType::U32 | DType::U8 => dtype,
                _ => self.float_dtype(),
            },
    {
        match dtype {
            DType::I64 | DType::I32 | DType::I16 | DType::U32 | DType::U8 => dtype,
            _ => self.out_dtype,
        }
    }

    /// Plans the reading of one stored tensor.
    pub fn dequantize(&self, name: &str, dims: &[usize]) -> (r: WeightPart)
        requires
            counts_fit(dims@),
        ensures
            r@ == self.part_of(name@, dims@),
    {
        let kept: Vec<usize> = copy_dims(dims);
        if dims.len() < 2 {
            return WeightPart {
                name: name.to_owned(),
                source: WeightSource::Plain,
                dims: kept,
                reshape: true,
            };
        }
        let (rows, cols): (usize, usize) = rows_and_cols(dims);
        let scale: String = self.real_scale_name(name);
        let source: WeightSource = if self.is_fp4(name) {
            WeightSource::Fp4 { scale, rows, cols, block: (1, 32) }
        } else if self.contains(scale.as_str()) {
            WeightSource::Fp8 { scale, rows, cols, block: self.block }
        } else {
            WeightSource::Plain
        };
        WeightPart { name: name.to_owned(), source, dims: kept, reshape: true }
    }

    /// Plans `gate_up_proj [e, 2 * inter, hidden]` of a layer: for every expert its
    /// gate `w1` and its up projection `w3`.
    pub fn assemble_gate_up(&self, layer: usize, dims: &[usize]) -> (r: Vec<
        (WeightPart, WeightPart),
    >)
        requires
            counts_fit(dims@),
            dims@.len() >= 3,
        ensures
            r@.len() == dims@[0],
            forall|i: int|
                0 <= i < r@.len() ==> (#[trigger] r@[i]).0@ == self.part_of(
                    expert_name(layer as nat, i as nat, "w1"@),
                    seq![(dims@[1] / 2) as usize, dims@[2]],
                ) && r@[i].1@ == self.part_of(
                    expert_name(layer as nat, i as nat, "w3"@),
                    seq![(dims@[1] / 2) as usize, dims@[2]],
                ),
    {
        let e: usize = dims[0];
        let shape: [usize; 2] = [dims[1] / 2, dims[2]];
        let ghost want = seq![(dims@[1] / 2) as usize, dims@[2]];
        let mut rows: Vec<(WeightPart, WeightPart)> = Vec::new();
        let mut i: usize = 0;
        proof {
            assert(shape@ =~= want);
            if e > 0 {
                lemma_expert_counts(dims@, want);
            }
        }
        while i < e
            invariant
                i <= e,
                shape@ == want,
                e > 0 ==> counts_fit(want),
                rows@.len() == i,
                forall|a: int|
                    0 <= a < i ==> (#[trigger] rows@[a]).0@ == self.part_of(
                        expert_name(layer as nat, a as nat, "w1"@),
                        want,
                    ) && rows@[a].1@ == self.part_of(
                        expert_name(layer as nat, a as nat, "w3"@),
                        want,
                    ),
            decreases e - i,
        {
            let n1: String = name_of_expert(layer, i, "w1");
            let n3: String = name_of_expert(layer, i, "w3");
            let w1: WeightPart = self.dequantize(n1.as_str(), shape.as_slice());
            let w3: WeightPart = self.dequantize(n3.as_str(), shape.as_slice());
            rows.push((w1, w3));
            i = i + 1;
        }
        rows
    }

    /// Plans `down_proj [e, hidden, inter]` of a layer: `w2` of every expert.
    pub fn assemble_down(&self, layer: usize, dims: &[usize]) -> (r: Vec<WeightPart>)
        requires
            counts_fit(dims@),
            dims@.len() >= 3,
        ensures
            r@.len() == dims@[0],
            forall|i: int|
                0 <= i < r@.len() ==> (#[trigger] r@[i])@ == self.part_of(
                    expert_name(layer as nat, i as nat, "w2"@),
                    seq![dims@[1], dims@[2]],
                ),
    {
        let e: usize = dims[0];
        let shape: [usize; 2] = [dims[1], dims[2]];
        let ghost want = seq![dims@[1], dims@[2]];
        let mut rows: Vec<WeightPart> = Vec::new();
        let mut i: usize = 0;
        proof {
            assert(shape@ =~= want);
            if e > 0 {
                lemma_expert_counts(dims@, want);
            }
        }
        while i < e
            invariant
                i <= e,
                shape@ == want,
                e > 0 ==> counts_fit(want),
                rows@.len() == i,
                forall|a: int|
                    0 <= a < i ==> (#[trigger] rows@[a])@ == self.part_of(
                        expert_name(layer as nat, a as nat, "w2"@),
                        want,
                    ),
            decreases e - i,
        {
            let n2: String = name_of_expert(layer, i, "w2");
            rows.push(self.dequantize(n2.as_str(), shape.as_slice()));
            i = i + 1;
        }
        rows
    }

    /// Plans the reading of a model weight: an assembled expert tensor or one
    /// stored tensor. Names without a checkpoint target are looked for as they are.
    pub fn load_real(&self, name: &str, dims: &[usize]) -> (r: LoadPlan)
        requires
            Self::loadable(name@, dims@),
        ensures
            r@ == self.plan_of(name@, dims@),
    {
        match real_schema_target(name) {
            Some(RealTarget::GateUp { layer }) => {
                let v = self.assemble_gate_up(layer, dims);
                let r = LoadPlan::GateUp(v);
                proof {
                    assert(r@->GateUp_0 =~= self.plan_of(name@, dims@)->GateUp_0);
                }
                r
            },
            Some(RealTarget::Down { layer }) => {
                let v = self.assemble_down(layer, dims);
                let r = LoadPlan::Down(v);
                proof {
                    assert(r@->Down_0 =~= self.plan_of(name@, dims@)->Down_0);
                }
                r
            },
            Some(RealTarget::Single(flat)) => LoadPlan::One(self.dequantize(flat.as_str(), dims)),
            None => LoadPlan::One(self.dequantize(name, dims)),
        }
    }

    /// The stored tensor whose shape a weight has when none is requested.
    pub fn unchecked_name(&self, name: &str) -> (r: String)
        ensures
            r@ == match schema_target(name@) {
                Some(TargetView::Single(flat)) => flat,
                _ => name@,
            },
    {
        match real_schema_target(name) {
            Some(RealTarget::Single(flat)) => flat,
            _ => name.to_owned(),
        }
    }

    /// Looks a weight up in the offload cache; a hit becomes its most recently
    /// used entry, a miss tells how to read the weight.
    pub fn load_weight(&mut self, name: &str, dims: &[usize]) -> (r: Result<&CachedTensor<T>, LoadPlan>)
        requires
            old(self).wf(),
            Self::loadable(name@, dims@),
        ensures
            final(self).wf(),
            final(self).same_checkpoint(old(self)),
            final(self).on_device() == old(self).on_device(),
            final(self).offload_evictions() == old(self).offload_evictions(),
            final(self).device_evictions() == old(self).device_evictions(),
            match r {
                Ok(t) => holds_name(old(self).offloaded(), name@) && *t == old(
                    self,
                ).offloaded()[position(old(self).offloaded(), name@)].1 && final(self).offloaded()
                    == touched(old(self).offloaded(), name@),
                Err(plan) => !holds_name(old(self).offloaded(), name@) && final(self).offloaded()
                    == old(self).offloaded() && plan@ == old(self).plan_of(name@, dims@),
            },
    {
        if self.cache.touch(name) {
            Ok(self.cache.newest())
        } else {
            proof {
                Self::lemma_plan_of_checkpoint(self, old(self), name@, dims@);
            }
            Err(self.load_real(name, dims))
        }
    }

    /// Looks a weight up for use on the compute device: there first, then in the
    /// offload cache. A hit becomes the most recently used entry of its cache.
    pub fn gpu_weight(&mut self, name: &str, dims: &[usize]) -> (r: Lookup<'_, T>)
        requires
            old(self).wf(),
            Self::loadable(name@, dims@),
        ensures
            final(self).wf(),
            final(self).same_checkpoint(old(self)),
            final(self).offload_evictions() == old(self).offload_evictions(),
            final(self).device_evictions() == old(self).device_evictions(),
            match r {
                Lookup::Device(t) => holds_name(old(self).on_device(), name@) && *t == old(
                    self,
                ).on_device()[position(old(self).on_device(), name@)].1 && final(self).on_device()
                    == touched(old(self).on_device(), name@)
                    && final(self).offloaded() == old(self).offloaded(),
                Lookup::Offloaded(t) => !holds_name(old(self).on_device(), name@) && holds_name(
                    old(self).offloaded(),
                    name@,
                ) && *t == old(self).offloaded()[position(old(self).offloaded(), name@)].1
                    && final(self).offloaded() == touched(old(self).offloaded(), name@) && final(self).on_device() == old(self).on_device(),
                Lookup::Missing(plan) => !holds_name(old(self).on_device(), name@) && !holds_name(
                    old(self).offloaded(),
                    name@,
                ) && final(self).on_device() == old(self).on_device() && final(self).offloaded()
                    == old(self).offloaded() && plan@ == old(self).plan_of(name@, dims@),
            },
    {
        if self.gpu_cache.touch(name) {
            Lookup::Device(self.gpu_cache.newest())
        } else if self.cache.touch(name) {
            Lookup::Offloaded(self.cache.newest())
        } else {
            proof {
                Self::lemma_plan_of_checkpoint(self, old(self), name@, dims@);
            }
            Lookup::Missing(self.load_real(name, dims))
        }
    }

    /// Keeps a dequantized weight in the offload cache.
    pub fn keep_offloaded(&mut self, name: &str, t: CachedTensor<T>)
        requires
            old(self).wf(),
            t.sized(),
            old(self).offload_evictions() + evicted_by(
                old(self).offloaded(),
                name@,
                t,
                old(self).offload_budget(),
            ) <= usize::MAX,
        ensures
            final(self).wf(),
            final(self).same_checkpoint(old(self)),
            final(self).on_device() == old(self).on_device(),
            final(self).device_evictions() == old(self).device_evictions(),
            final(self).offloaded() == inserted(
                old(self).offloaded(),
                name@,
                t,
                old(self).offload_budget(),
            ),
            final(self).offload_evictions() == old(self).offload_evictions() + evicted_by(
                old(self).offloaded(),
                name@,
                t,
                old(self).offload_budget(),
            ),
    {
        self.cache.insert(name, t);
    }

    /// Keeps a weight on the compute device.
    pub fn keep_on_device(&mut self, name: &str, t: CachedTensor<T>)
        requires
            old(self).wf(),
            t.sized(),
            old(self).device_evictions() + evicted_by(
                old(self).on_device(),
                name@,
                t,
                old(self).device_budget(),
            ) <= usize::MAX,
        ensures
            final(self).wf(),
            final(self).same_checkpoint(old(self)),
            final(self).offloaded() == old(self).offloaded(),
            final(self).offload_evictions() == old(self).offload_evictions(),
            final(self).on_device() == inserted(
                old(self).on_device(),
                name@,
                t,
                old(self).device_budget(),
            ),
            final(self).device_evictions() == old(self).device_evictions() + evicted_by(
                old(self).on_device(),
                name@,
                t,
                old(self).device_budget(),
            ),
    {
        self.gpu_cache.insert(name, t);
    }

    /// Resident bytes of the offload cache.
    pub fn resident_bytes(&self) -> (r: usize)
        requires
            self.wf(),
        ensures
            r == total_bytes(self.offloaded()),
            r <= self.offload_budget(),
    {
        self.cache.resident_bytes()
    }

    /// Evictions from the offload cache since construction.
    pub fn evictions(&self) -> (r: usize)
        ensures
            r == self.offload_evictions(),
    {
        self.cache.evictions()
    }

    /// Number of tensors in the offload cache.
    pub fn cached_len(&self) -> (r: usize)
        ensures
            r == self.offloaded().len(),
    {
        self.cache.len()
    }

    /// Resident bytes on the compute device.
    pub fn gpu_resident_bytes(&self) -> (r: usize)
        requires
            self.wf(),
        ensures
            r == total_bytes(self.on_device()),
            r <= self.device_budget(),
    {
        self.gpu_cache.resident_bytes()
    }

    /// Number of tensors on the compute device.
    pub fn gpu_cached_len(&self) -> (r: usize)
        ensures
            r == self.on_device().len(),
    {
        self.gpu_cache.len()
    }

    /// Evictions from the compute device since construction.
    pub fn gpu_evictions(&self) -> (r: usize)
        ensures
            r == self.device_evictions(),
    {
        self.gpu_cache.evictions()
    }
}

/// A weight outside the decoder layers.
#[derive(Debug)]
pub struct RootWeight {
    pub name: String,
    pub dims: Vec<usize>,
}

/// A streaming pass: what stays loaded throughout, and the decoder layers, which are
/// built, run and dropped one at a time.
pub struct StreamPlan {
    pub embed: RootWeight,
    pub norm: RootWeight,
    /// The head that collapses the residual streams: mixing matrix, base and scale.
    pub hc_fn: RootWeight,
    pub hc_base: RootWeight,
    pub hc_scale: RootWeight,
    /// Batch, sequence, residual streams and width of the hidden states.
    pub hidden: (usize, usize, usize, usize),
    /// The layers in the order in which they run.
    pub layers: Vec<LayerBackend>,
    pub head: RootWeight,
    /// Batch, sequence and vocabulary of the logits.
    pub logits: (usize, usize, usize),
}

/// Plans a streaming pass over `batch` sequences of `seq` tokens.
pub fn forward_real(cfg: &DeepseekV4Config, batch: usize, seq: usize) -> (r: StreamPlan)
    requires
        cfg.hc_mult * cfg.hidden_size <= usize::MAX,
    ensures
        r.embed.name@ == "model.embed_tokens.weight"@,
        r.embed.dims@ == seq![cfg.vocab_size, cfg.hidden_size],
        r.norm.name@ == "model.norm.weight"@,
        r.norm.dims@ == seq![cfg.hidden_size],
        r.hc_fn.name@ == "model.hc_head.hc_fn"@,
        r.hc_fn.dims@ == seq![cfg.hc_mult, (cfg.hc_mult * cfg.hidden_size) as usize],
        r.hc_base.name@ == "model.hc_head.hc_base"@,
        r.hc_base.dims@ == seq![cfg.hc_mult],
        r.hc_scale.name@ == "model.hc_head.hc_scale"@,
        r.hc_scale.dims@ == seq![1usize],
        r.hidden == (batch, seq, cfg.hc_mult, cfg.hidden_size),
        r.layers@.len() == cfg.num_hidden_layers,
        forall|i: int| 0 <= i < r.layers@.len() ==> (#[trigger] r.layers@[i]).layer == i,
        r.head.name@ == "lm_head.weight"@,
        r.head.dims@ == seq![cfg.vocab_size, cfg.hidden_size],
        r.logits == (batch, seq, cfg.vocab_size),
{
    let mut layers: Vec<LayerBackend> = Vec::new();
    let mut i: usize = 0;
    while i < cfg.num_hidden_layers
        invariant
            i <= cfg.num_hidden_layers,
            layers@.len() == i,
            forall|a: int| 0 <= a < i ==> (#[trigger] layers@[a]).layer == a,
        decreases cfg.num_hidden_layers - i,
    {
        layers.push(LayerBackend { layer: i });
        i = i + 1;
    }
    StreamPlan {
        embed: RootWeight {
            name: "model.embed_tokens.weight".to_owned(),
            dims: vec![cfg.vocab_size, cfg.hidden_size],
        },
        norm: RootWeight { name: "model.norm.weight".to_owned(), dims: vec![cfg.hidden_size] },
        hc_fn: RootWeight {
            name: "model.hc_head.hc_fn".to_owned(),
            dims: vec![cfg.hc_mult, cfg.hc_mult * cfg.hidden_size],
        },
        hc_base: RootWeight {
            name: "model.hc_head.hc_base".to_owned(),
            dims: vec![cfg.hc_mult],
        },
        hc_scale: RootWeight { name: "model.hc_head.hc_scale".to_owned(), dims: vec![1] },
        hidden: (batch, seq, cfg.hc_mult, cfg.hidden_size),
        layers,
        head: RootWeight {
            name: "lm_head.weight".to_owned(),
            dims: vec![cfg.vocab_size, cfg.hidden_size],
        },
        logits: (batch, seq, cfg.vocab_size),
    }
}

/// The matrices of the routed experts are always read as packed fp4, scaled per row
/// over 32 columns by the tensor named `.scale` in place of `.weight`.
pub proof fn law_expert_weights_are_fp4<T>(
    loader: &DeepseekV4Quantized<T>,
    layer: nat,
    expert: nat,
    which: Seq<char>,
    dims: Seq<usize>,
)
    requires
        dims.len() == 2,
    ensures
        loader.source_of(expert_name(layer, expert, which), dims) == (SourceView::Fp4 {
            scale: "layers."@ + decimal(layer) + ".ffn.experts."@ + decimal(expert) + "."@ + which
                + ".scale"@,
            rows: dims[0] as nat,
            cols: dims[1] as nat,
            block: (1, 32),
        }),
{
    let name = expert_name(layer, expert, which);
    let head = "layers."@ + decimal(layer);
    let stem = head + ".ffn.experts."@ + decimal(expert) + "."@ + which;
    assert(name =~= stem + ".weight"@);
    assert(name.subrange(
        head.len() as int,
        (head.len() + ".ffn.experts."@.len()) as int,
    ) =~= ".ffn.experts."@);
    assert(occurs_at(name, ".ffn.experts."@, head.len() as int));
    assert(name.subrange(stem.len() as int, name.len() as int) =~= ".weight"@);
    assert(occurs_at(name, ".weight"@, name.len() - ".weight"@.len()));
    assert(name.take(name.len() - ".weight"@.len()) =~= stem);
    assert(dims.drop_last().drop_last() =~= Seq::<usize>::empty());
    assert(elem_count(Seq::<usize>::empty()) == 1);
    assert(elem_count(dims.drop_last()) == 1 * dims[0]);
}

/// The matrix of one expert is no larger than the stack of all of them.
proof fn lemma_expert_counts(dims: Seq<usize>, shape: Seq<usize>)
    requires
        dims.len() >= 3,
        counts_fit(dims),
        dims[0] > 0,
        shape.len() == 2,
        shape[0] <= dims[1],
        shape[1] == dims[2],
    ensures
        counts_fit(shape),
{
    let d0 = dims[0] as nat;
    let d1 = dims[1] as nat;
    let d2 = dims[2] as nat;
    let a = shape[0] as nat;
    let b = shape[1] as nat;
    let t1 = dims.take(1);
    let t2 = dims.take(2);
    let t3 = dims.take(3);
    assert(t1.drop_last() =~= Seq::<usize>::empty());
    assert(t2.drop_last() =~= t1);
    assert(t3.drop_last() =~= t2);
    assert(elem_count(Seq::<usize>::empty()) == 1);
    assert(t1.last() == dims[0]);
    assert(elem_count(t1) == 1 * d0);
    assert(elem_count(t2) == d0 * d1);
    assert(elem_count(t3) == d0 * d1 * d2);
    assert(elem_count(t3) <= usize::MAX);
    assert(a * b <= d0 * d1 * d2) by (nonlinear_arith)
        requires
            a <= d1,
            b == d2,
            d0 >= 1,
    ;
    let s1 = shape.take(1);
    assert(s1.drop_last() =~= Seq::<usize>::empty());
    assert(shape.drop_last() =~= s1);
    assert(s1.last() == shape[0]);
    assert(elem_count(s1) == 1 * a);
    assert(elem_count(shape) == a * b);
    assert forall|i: int| 0 <= i <= shape.len() implies #[trigger] elem_count(shape.take(i))
        <= usize::MAX by {
        if i == 0 {
            assert(shape.take(0) =~= Seq::<usize>::empty());
        } else if i == 2 {
            assert(shape.take(2) =~= shape);
        }
    }
}

/// A weight of `gn` x `gm` whole tiles is accepted with exactly one byte per element and
/// one scale per tile; the weight is looked at before the scale.
pub proof fn law_fp8_sizes(
    n: usize,
    m: usize,
    block: (usize, usize),
    gn: nat,
    gm: nat,
    weight_len: nat,
    scale_len: nat,
)
    requires
        gn > 0,
        gm > 0,
        block.0 > 0,
        block.1 > 0,
        n == gn * block.0,
        m == gm * block.1,
        n * m <= usize::MAX,
        weight_len <= usize::MAX,
        scale_len <= usize::MAX,
    ensures
        weight_len != n * m ==> fp8_error(n, m, block, weight_len, scale_len) == Some(
            LmError::WeightLen { len: weight_len as usize, n, m },
        ),
        weight_len == n * m && scale_len != gn * gm ==> fp8_error(
            n,
            m,
            block,
            weight_len,
            scale_len,
        ) == Some(LmError::ScaleLen { len: scale_len as usize, tiles: (gn * gm) as usize }),
        weight_len == n * m && scale_len == gn * gm ==> fp8_error(
            n,
            m,
            block,
            weight_len,
            scale_len,
        ) is None,
{
    law_whole_tiles_are_accepted(n, m, block, gn, gm, scale_len);
}

/// Packed fp4 of `gn` x `gm` whole tiles is accepted with exactly half a byte per element
/// and one scale per tile.
pub proof fn law_fp4_sizes(
    n: usize,
    m: usize,
    block: (usize, usize),
    gn: nat,
    gm: nat,
    packed_len: nat,
    scale_len: nat,
)
    requires
        gn > 0,
        gm > 0,
        block.0 > 0,
        block.1 > 0,
        n == gn * block.0,
        m == gm * block.1,
        n * m <= usize::MAX,
        (n * m) % 2 == 0,
        packed_len <= usize::MAX,
        scale_len <= usize::MAX,
    ensures
        2 * packed_len != n * m ==> fp4_error(n, m, block, packed_len, scale_len) == Some(
            LmError::PackedLen { len: packed_len as usize, n, m },
        ),
        2 * packed_len == n * m && scale_len != gn * gm ==> fp4_error(
            n,
            m,
            block,
            packed_len,
            scale_len,
        ) == Some(LmError::ScaleLen { len: scale_len as usize, tiles: (gn * gm) as usize }),
        2 * packed_len == n * m && scale_len == gn * gm ==> fp4_error(
            n,
            m,
            block,
            packed_len,
            scale_len,
        ) is None,
{
    law_whole_tiles_are_accepted(n, m, block, gn, gm, scale_len);
}

/// A weight that does not tile is rejected, for its length where that is wrong too.
pub proof fn law_bad_tilings_are_rejected(
    n: usize,
    m: usize,
    block: (usize, usize),
    len: nat,
    scale_len: nat,
)
    requires
        n == 0 || m == 0 || block.0 == 0 || block.1 == 0 || n as int % block.0 as int != 0
            || m as int % block.1 as int != 0,
        len <= usize::MAX,
        n * m <= usize::MAX,
    ensures
        fp8_error(n, m, block, len, scale_len) == Some(
            if len != n * m {
                LmError::WeightLen { len: len as usize, n, m }
            } else {
                LmError::BlockTiling { bn: block.0, bm: block.1, n, m }
            },
        ),
        fp4_error(n, m, block, len, scale_len) == Some(
            if len != (n * m) / 2 {
                LmError::PackedLen { len: len as usize, n, m }
            } else {
                LmError::BlockTiling { bn: block.0, bm: block.1, n, m }
            },
        ),
{
    law_other_tilings_are_rejected(n, m, block, scale_len);
}

} // verus!
