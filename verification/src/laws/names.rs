//! Names, numbers in names, and the plans that weights are read by.

use vstd::prelude::*;

use crate::blocks::elem_count;
use crate::deepseek_v4::quantized as named;
use crate::deepseek_v4::DeepseekV4Config;
use crate::dtype::DType;
use crate::plan::{rows_and_cols, WeightPart, WeightSource};
use crate::quantized_deepseek_v4::{
    forward_real, full_name_of, law_full_name_resolves_in_layer, layer_name, real_schema_target,
    schema_target, DeepseekV4Quantized, LayerBackend, LoadPlan, LoadView, RealTarget,
    StreamPlan, TargetView,
};
use crate::schema::{
    law_expert_names, law_expert_stacks_are_found, law_root_weights_are_found, law_scale_names,
    law_tensors_are_read_by_kind,
};
use crate::text::{
    contains, decimal, decimal_string, find_char, law_decimal_parses_back, law_found_is_the_first,
    occurs_at, parse_usize, strip_prefix, strip_suffix,
};

verus! {

/// Numbers that are written in decimal are read back.
pub proof fn law_written_numbers_are_read_back(n: usize, s: String, t: &str, r: Option<usize>)
    requires
        call_ensures(decimal_string, (n,), s),
        t@ == s@,
        call_ensures(parse_usize, (t,), r),
    ensures
        r == Some(n),
{
    law_decimal_parses_back(n as nat);
}

/// A prefix comes off exactly where the text starts with it, and what is left is the rest.
pub proof fn law_prefixes<'a>(s: &'a str, prefix: &str, rest: Seq<char>, r: Option<&'a str>)
    requires
        call_ensures(strip_prefix, (s, prefix), r),
    ensures
        s@ == prefix@ + rest ==> r is Some && r->Some_0@ == rest,
        r is Some ==> s@ == prefix@ + r->Some_0@,
{
    if s@ == prefix@ + rest {
        assert(s@.subrange(0, prefix@.len() as int) =~= prefix@);
        assert(occurs_at(s@, prefix@, 0));
        assert(s@.skip(prefix@.len() as int) =~= rest);
    }
    if r is Some {
        assert(occurs_at(s@, prefix@, 0));
        assert(s@ =~= s@.subrange(0, prefix@.len() as int) + s@.skip(prefix@.len() as int));
    }
}

/// A suffix comes off exactly where the text ends with it, and what is left is the rest.
pub proof fn law_suffixes<'a>(s: &'a str, suffix: &str, rest: Seq<char>, r: Option<&'a str>)
    requires
        call_ensures(strip_suffix, (s, suffix), r),
    ensures
        s@ == rest + suffix@ ==> r is Some && r->Some_0@ == rest,
        r is Some ==> s@ == r->Some_0@ + suffix@,
{
    if s@ == rest + suffix@ {
        assert(s@.subrange(rest.len() as int, s@.len() as int) =~= suffix@);
        assert(occurs_at(s@, suffix@, s@.len() - suffix@.len()));
        assert(s@.take(rest.len() as int) =~= rest);
    }
    if r is Some {
        let i = s@.len() - suffix@.len();
        assert(occurs_at(s@, suffix@, i));
        assert(s@ =~= s@.take(i) + s@.subrange(i, s@.len() as int));
    }
}

/// A text is contained exactly where it stands somewhere in the other.
pub proof fn law_contained_texts(
    hay: &str,
    needle: &str,
    a: Seq<char>,
    b: Seq<char>,
    r: bool,
)
    requires
        call_ensures(contains, (hay, needle), r),
    ensures
        hay@ == a + needle@ + b ==> r,
        r ==> exists|x: Seq<char>, y: Seq<char>| hay@ == #[trigger] (x + needle@ + y),
{
    if hay@ == a + needle@ + b {
        assert(hay@.subrange(a.len() as int, (a.len() + needle@.len()) as int) =~= needle@);
        assert(occurs_at(hay@, needle@, a.len() as int));
    }
    if r {
        let i = choose|i: int| #[trigger] occurs_at(hay@, needle@, i);
        let x = hay@.take(i);
        let y = hay@.skip(i + needle@.len());
        assert(hay@ =~= x + needle@ + y);
    }
}

/// A character is found at its first place.
pub proof fn law_first_places(s: &Vec<char>, c: char, r: Option<usize>, j: int)
    requires
        call_ensures(find_char, (s, c), r),
        0 <= j < s@.len(),
    ensures
        r is Some ==> r->Some_0 < s@.len() && s@[r->Some_0 as int] == c,
        r is Some && j < r->Some_0 ==> s@[j] != c,
        r is None ==> s@[j] != c,
{
    law_found_is_the_first(s@, c, 0, j);
}

/// A weight of a layer resolves to its tensor in that layer: `model.layers.<n>.` in front of
/// a name goes, `layers.<n>.` comes in front of the stored one.
pub proof fn law_layer_weight_resolves(
    name: &str,
    layer: usize,
    body: Seq<char>,
    stored: Seq<char>,
    r: Option<RealTarget>,
)
    requires
        call_ensures(real_schema_target, (name,), r),
        name@ == "model.layers."@ + decimal(layer as nat) + "."@ + body,
        layer_name(body) == Some(stored),
    ensures
        r is Some,
        r->Some_0 is Single,
        r->Some_0->Single_0@ == "layers."@ + decimal(layer as nat) + "."@ + stored,
{
    law_full_name_resolves_in_layer(layer as nat, body);
    assert(name@ == full_name_of(layer as nat, body));
    assert(schema_target(name@) == Some(r->Some_0@));
}

/// The stacked expert weights of a layer resolve to the experts of that layer.
pub proof fn law_expert_stack_resolves(
    gate_up: &str,
    down: &str,
    layer: usize,
    r: Option<RealTarget>,
    d: Option<RealTarget>,
)
    requires
        call_ensures(real_schema_target, (gate_up,), r),
        call_ensures(real_schema_target, (down,), d),
        gate_up@ == "model.layers."@ + decimal(layer as nat) + "."@ + "mlp.experts.gate_up_proj"@,
        down@ == "model.layers."@ + decimal(layer as nat) + "."@ + "mlp.experts.down_proj"@,
    ensures
        r matches Some(RealTarget::GateUp { layer: l }) && l == layer,
        d matches Some(RealTarget::Down { layer: l }) && l == layer,
{
    law_expert_stacks_are_found(layer as nat);
}

/// A layer's own names reach that layer: the full name that a layer gives to one of its
/// weights resolves to the layer's tensor.
pub proof fn law_layer_backend_resolves(
    backend: &LayerBackend,
    name: &str,
    full: String,
    asked: &str,
    stored: Seq<char>,
    r: Option<RealTarget>,
)
    requires
        call_ensures(LayerBackend::full_name, (backend, name), full),
        asked@ == full@,
        call_ensures(real_schema_target, (asked,), r),
        layer_name(name@) == Some(stored),
    ensures
        r is Some,
        r->Some_0 is Single,
        r->Some_0->Single_0@ == "layers."@ + decimal(backend.layer as nat) + "."@ + stored,
{
    law_layer_weight_resolves(asked, backend.layer, name@, stored, r);
}

/// The scale of a tensor is named beside it.
pub proof fn law_scale_is_named_beside<T>(
    loader: &DeepseekV4Quantized<T>,
    name: &str,
    base: Seq<char>,
    r: String,
)
    requires
        call_ensures(DeepseekV4Quantized::<T>::real_scale_name, (loader, name), r),
        name@ == base + ".weight"@,
    ensures
        r@ == base + ".scale"@,
{
    law_scale_names(base);
}

/// The experts of a layer are read one by one: expert `i` gives its gate from `w1` and its up
/// projection from `w3`, half the rows each, and its down projection from `w2`.
pub proof fn law_experts_are_read_one_by_one<T>(
    loader: &DeepseekV4Quantized<T>,
    layer: usize,
    dims: &[usize],
    up: Vec<(WeightPart, WeightPart)>,
    down: Vec<WeightPart>,
    i: int,
)
    requires
        dims@.len() >= 3,
        call_ensures(DeepseekV4Quantized::<T>::assemble_gate_up, (loader, layer, dims), up),
        call_ensures(DeepseekV4Quantized::<T>::assemble_down, (loader, layer, dims), down),
        0 <= i < dims@[0],
    ensures
        up@.len() == dims@[0],
        down@.len() == dims@[0],
        ({
            let stem = "layers."@ + decimal(layer as nat) + ".ffn.experts."@ + decimal(i as nat);
            &&& up@[i].0.name@ == stem + ".w1.weight"@
            &&& up@[i].1.name@ == stem + ".w3.weight"@
            &&& down@[i].name@ == stem + ".w2.weight"@
            &&& up@[i].0.dims@ == seq![(dims@[1] / 2) as usize, dims@[2]]
            &&& up@[i].1.dims@ == up@[i].0.dims@
            &&& down@[i].dims@ == seq![dims@[1], dims@[2]]
        }),
{
    law_expert_names(layer as nat, i as nat);
    assert(up@[i].0@.name == up@[i].0.name@);
    assert(up@[i].1@.name == up@[i].1.name@);
    assert(down@[i]@.name == down@[i].name@);
    assert(up@[i].0@.dims == up@[i].0.dims@);
    assert(up@[i].1@.dims == up@[i].1.dims@);
    assert(down@[i]@.dims == down@[i].dims@);
}

/// A weight with a tensor of its own is read from it, and one without from a tensor of its
/// own name, in the shape asked for.
pub proof fn law_single_weights_are_read_from_their_tensor<T>(
    loader: &DeepseekV4Quantized<T>,
    name: &str,
    dims: &[usize],
    plan: LoadPlan,
)
    requires
        call_ensures(DeepseekV4Quantized::<T>::load_real, (loader, name, dims), plan),
    ensures
        schema_target(name@) matches Some(TargetView::Single(stored)) ==> plan is One
            && plan->One_0.name@ == stored && plan->One_0.dims@ == dims@ && plan->One_0.reshape,
        schema_target(name@) is None ==> plan is One && plan->One_0.name@ == name@
            && plan->One_0.dims@ == dims@ && plan->One_0.reshape,
{
    assert(plan@ == loader.plan_of(name@, dims@));
    if plan is One {
        assert(plan@ == LoadView::One(plan->One_0@));
        assert(plan->One_0@.name == plan->One_0.name@);
        assert(plan->One_0@.dims == plan->One_0.dims@);
        assert(plan->One_0@.reshape == plan->One_0.reshape);
    }
}

/// Where no shape is asked for, a weight has that of the tensor it resolves to.
pub proof fn law_unchecked_names<T>(
    loader: &DeepseekV4Quantized<T>,
    name: &str,
    r: String,
)
    requires
        call_ensures(DeepseekV4Quantized::<T>::unchecked_name, (loader, name), r),
    ensures
        schema_target(name@) is None ==> r@ == name@,
        schema_target(name@) matches Some(TargetView::Single(stored)) ==> r@ == stored,
{
}

/// Whole numbers keep their element type and everything else takes the loader's, so that
/// converting twice is converting once.
pub proof fn law_element_types_settle<T>(
    loader: &DeepseekV4Quantized<T>,
    dtype: DType,
    r: DType,
    again: DType,
)
    requires
        call_ensures(DeepseekV4Quantized::<T>::finalize_dtype, (loader, dtype), r),
        call_ensures(DeepseekV4Quantized::<T>::finalize_dtype, (loader, r), again),
    ensures
        again == r,
        dtype is I64 || dtype is I32 || dtype is I16 || dtype is U32 || dtype is U8 ==> r == dtype,
        dtype is F64 || dtype is F32 || dtype is F16 || dtype is BF16 || dtype is F8E4M3
            || dtype is F8E8M0 || dtype is F4 || dtype is F6E2M3 || dtype is F6E3M2 ==> r
            == loader.float_dtype(),
{
}

/// A loader of plainly named tensors looks for a scale under the name with the suffix behind
/// it.
pub proof fn law_suffixed_scale_names<T>(
    loader: &named::DeepseekV4Quantized<T>,
    name: &str,
    r: String,
)
    requires
        call_ensures(named::DeepseekV4Quantized::<T>::scale_name, (loader, name), r),
    ensures
        r@.len() == name@.len() + loader.suffix().len(),
        r@.take(name@.len() as int) == name@,
        r@.skip(name@.len() as int) == loader.suffix(),
{
    assert(r@.take(name@.len() as int) =~= name@);
    assert(r@.skip(name@.len() as int) =~= loader.suffix());
}

/// Rows and columns of a weight multiply to its elements.
pub proof fn law_rows_and_cols(dims: &[usize], r: (usize, usize))
    requires
        dims@.len() >= 2,
        call_ensures(rows_and_cols, (dims,), r),
    ensures
        r.0 * r.1 == elem_count(dims@),
        r.1 == dims@.last(),
{
}

/// A streaming pass: the weights outside the layers are found in the checkpoint, the layers run
/// in order, each once, and the shapes fit: what the embedding gives goes through the layers,
/// the head of the residual streams mixes all of them, and the last projection gives the
/// vocabulary.
pub proof fn law_streaming_pass(
    cfg: &DeepseekV4Config,
    batch: usize,
    seq: usize,
    r: StreamPlan,
    i: int,
)
    requires
        cfg.hc_mult * cfg.hidden_size <= usize::MAX,
        call_ensures(forward_real, (cfg, batch, seq), r),
        0 <= i < cfg.num_hidden_layers,
    ensures
        schema_target(r.embed.name@) == Some(TargetView::Single("embed.weight"@)),
        schema_target(r.norm.name@) == Some(TargetView::Single("norm.weight"@)),
        schema_target(r.head.name@) == Some(TargetView::Single("head.weight"@)),
        schema_target(r.hc_fn.name@) == Some(TargetView::Single("hc_head_fn"@)),
        schema_target(r.hc_base.name@) == Some(TargetView::Single("hc_head_base"@)),
        schema_target(r.hc_scale.name@) == Some(TargetView::Single("hc_head_scale"@)),
        r.layers@.len() == cfg.num_hidden_layers,
        r.layers@[i].layer == i,
        r.hidden.0 == batch && r.hidden.1 == seq,
        r.hidden.2 == cfg.hc_mult,
        r.hidden.3 == cfg.hidden_size,
        r.embed.dims@ == seq![cfg.vocab_size, cfg.hidden_size],
        r.head.dims@ == r.embed.dims@,
        r.norm.dims@ == seq![r.hidden.3],
        r.hc_fn.dims@.len() == 2,
        r.hc_fn.dims@[0] == r.hidden.2,
        r.hc_fn.dims@[1] == r.hidden.2 * r.hidden.3,
        r.hc_base.dims@ == seq![r.hidden.2],
        r.hc_scale.dims@ == seq![1usize],
        r.logits == (batch, seq, cfg.vocab_size),
{
    law_root_weights_are_found(r.embed.name@);
}

/// The tensors of experts are packed, and no tensor is whose name has no experts in it.
pub proof fn law_packed_tensors<T>(
    loader: &DeepseekV4Quantized<T>,
    name: &str,
    a: Seq<char>,
    b: Seq<char>,
    r: bool,
)
    requires
        call_ensures(DeepseekV4Quantized::<T>::is_fp4, (loader, name), r),
    ensures
        name@ == a + ".ffn.experts."@ + b ==> r,
        r ==> exists|x: Seq<char>, y: Seq<char>| name@ == #[trigger] (x + ".ffn.experts."@ + y),
{
    let needle = ".ffn.experts."@;
    if name@ == a + needle + b {
        assert(name@.subrange(a.len() as int, (a.len() + needle.len()) as int) =~= needle);
        assert(occurs_at(name@, needle, a.len() as int));
    }
    if r {
        let i = choose|i: int| #[trigger] occurs_at(name@, needle, i);
        let x = name@.take(i);
        let y = name@.skip(i + needle.len());
        assert(name@ =~= x + needle + y);
    }
}

/// A part is planned for the tensor that was asked for, in the shape that was asked for.
pub proof fn law_planned_parts<T>(
    loader: &DeepseekV4Quantized<T>,
    plain: &named::DeepseekV4Quantized<T>,
    name: &str,
    dims: &[usize],
    r: WeightPart,
    p: WeightPart,
)
    requires
        call_ensures(DeepseekV4Quantized::<T>::dequantize, (loader, name, dims), r),
        call_ensures(named::DeepseekV4Quantized::<T>::dequantize, (plain, name, dims), p),
    ensures
        r.name@ == name@ && r.dims@ == dims@ && r.reshape,
        p.name@ == name@ && p.dims@ == dims@ && (p.reshape <==> dims@.len() >= 2),
        dims@.len() < 2 ==> r.source is Plain && p.source is Plain,
        dims@.len() >= 2 && plain.packed(name@) ==> p.source is Fp4,
        dims@.len() >= 2 && !plain.packed(name@) ==> (p.source is Fp8 <==> plain.stored(
            name@ + plain.suffix(),
        )),
        r.source matches WeightSource::Fp4 { rows, cols, block, .. } ==> rows * cols == elem_count(
            dims@,
        ) && block == (1usize, 32usize),
        r.source matches WeightSource::Fp8 { rows, cols, block, .. } ==> rows * cols == elem_count(
            dims@,
        ) && block == loader.fp8_block(),
        p.source matches WeightSource::Fp8 { rows, cols, block, .. } ==> rows * cols == elem_count(
            dims@,
        ) && block == plain.scale_block(),
        p.source matches WeightSource::Fp4 { rows, cols, block, .. } ==> rows * cols == elem_count(
            dims@,
        ) && block == plain.scale_block(),
{
    law_tensors_are_read_by_kind(loader, name@, dims@);
    named::law_tensors_are_read_by_kind(plain, name@, dims@);
    assert(r@.source == r.source@ && p@.source == p.source@);
    assert(r@.name == r.name@ && p@.name == p.name@);
    assert(r@.dims == r.dims@ && p@.dims == p.dims@);
    assert(r@.reshape == r.reshape && p@.reshape == p.reshape);
}

} // verus!
