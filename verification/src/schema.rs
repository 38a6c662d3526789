//! What holds of the checkpoint names as a whole: no stored tensor serves two weights.

use vstd::prelude::*;

use crate::blocks::elem_count;
use crate::plan::SourceView;
use crate::quantized_deepseek_v4::{
    expert_name, full_name_of, in_layer, law_expert_weights_are_fp4,
    law_full_name_resolves_in_layer, layer_name, layer_target, lemma_root_names_differ, root_name,
    scale_name_of, schema_target, split_layer, DeepseekV4Quantized, TargetView,
};
use crate::text::{decimal, is_digit, lemma_decimal_digits, occurs_at, occurs_in};

verus! {

/// The layer number in the name, if there is one, is written in plain decimal, without
/// a sign or leading zeros.
pub open spec fn canonical(name: Seq<char>) -> bool {
    match split_layer(name) {
        Some((layer, body)) => name == full_name_of(layer, body),
        None => true,
    }
}

/// The target is read from the stored tensor `flat`.
pub open spec fn reads(target: TargetView, flat: Seq<char>) -> bool {
    match target {
        TargetView::Single(s) => flat == s,
        TargetView::GateUp { layer } => exists|e: nat|
            flat == #[trigger] expert_name(layer, e, "w1"@) || flat == expert_name(layer, e, "w3"@),
        TargetView::Down { layer } => exists|e: nat|
            flat == #[trigger] expert_name(layer, e, "w2"@),
    }
}

/// The layer that a target belongs to is the layer of its name.
pub open spec fn carries_layer(target: TargetView, layer: nat) -> bool {
    match target {
        TargetView::Single(s) => occurs_at(s, "layers."@ + decimal(layer) + "."@, 0),
        TargetView::GateUp { layer: l } => l == layer,
        TargetView::Down { layer: l } => l == layer,
    }
}

/// A few characters that tell the names within a layer apart.
spec fn mark(s: Seq<char>) -> (nat, char, char) {
    (s.len(), s[6], s[s.len() - 8])
}

/// The model weight with the mark of its checkpoint name.
spec fn body_of(m: (nat, char, char)) -> Seq<char> {
    if m == (16nat, 'q', 'a') {
        "self_attn.q_a_proj.weight"@
    } else if m == (18nat, '_', 'm') {
        "self_attn.q_a_norm.weight"@
    } else if m == (16nat, 'q', 'b') {
        "self_attn.q_b_proj.weight"@
    } else if m == (15nat, 'k', 'v') {
        "self_attn.kv_proj.weight"@
    } else if m == (19nat, 'v', 'm') {
        "self_attn.kv_norm.weight"@
    } else if m == (16nat, 'o', 'a') {
        "self_attn.o_a_proj.weight"@
    } else if m == (16nat, 'o', 'b') {
        "self_attn.o_b_proj.weight"@
    } else if m == (14nat, 't', 't') {
        "self_attn.sinks"@
    } else if m == (26nat, 'o', 'v') {
        "self_attn.compressor.kv_proj.weight"@
    } else if m == (28nat, 'o', 'e') {
        "self_attn.compressor.gate_proj.weight"@
    } else if m == (19nat, 'o', 's') {
        "self_attn.compressor.position_bias"@
    } else if m == (27nat, 'o', 'm') {
        "self_attn.compressor.kv_norm.weight"@
    } else if m == (34nat, 'n', 'v') {
        "self_attn.compressor.indexer.kv_proj.weight"@
    } else if m == (36nat, 'n', 'e') {
        "self_attn.compressor.indexer.gate_proj.weight"@
    } else if m == (27nat, 'n', 's') {
        "self_attn.compressor.indexer.position_bias"@
    } else if m == (35nat, 'n', 'm') {
        "self_attn.compressor.indexer.kv_norm.weight"@
    } else if m == (24nat, 'n', 'b') {
        "self_attn.compressor.indexer.q_b_proj.weight"@
    } else if m == (32nat, 'n', 'j') {
        "self_attn.compressor.indexer.scorer.weights_proj.weight"@
    } else if m == (10nat, 'n', '_') {
        "attn_hc.fn"@
    } else if m == (12nat, 'n', 't') {
        "attn_hc.base"@
    } else if m == (13nat, 'n', 't') {
        "attn_hc.scale"@
    } else if m == (9nat, '_', 'c') {
        "ffn_hc.fn"@
    } else if m == (11nat, '_', 'f') {
        "ffn_hc.base"@
    } else if m == (12nat, '_', 'f') {
        "ffn_hc.scale"@
    } else if m == (16nat, 'o', 'm') {
        "input_layernorm.weight"@
    } else if m == (15nat, 'r', 'm') {
        "post_attention_layernorm.weight"@
    } else if m == (15nat, 't', 'e') {
        "mlp.gate.weight"@
    } else if m == (16nat, 't', '.') {
        "mlp.gate.tid2eid"@
    } else if m == (28nat, 'a', '1') {
        "mlp.shared_experts.gate_proj.weight"@
    } else if m == (28nat, 'a', '3') {
        "mlp.shared_experts.up_proj.weight"@
    } else if m == (28nat, 'a', '2') {
        "mlp.shared_experts.down_proj.weight"@
    } else {
        Seq::empty()
    }
}

/// The root weight with the length and second character of its checkpoint name.
spec fn root_of(m: (nat, char)) -> Seq<char> {
    if m == (12nat, 'm') {
        "model.embed_tokens.weight"@
    } else if m == (11nat, 'o') {
        "model.norm.weight"@
    } else if m == (11nat, 'e') {
        "lm_head.weight"@
    } else if m == (10nat, 'c') {
        "model.hc_head.hc_fn"@
    } else if m == (12nat, 'c') {
        "model.hc_head.hc_base"@
    } else if m == (13nat, 'c') {
        "model.hc_head.hc_scale"@
    } else {
        Seq::empty()
    }
}

/// A name within a layer follows from its checkpoint name, which is none of an expert.
proof fn lemma_layer_name_back(body: Seq<char>)
    requires
        layer_name(body) is Some,
    ensures
        body_of(mark(layer_name(body)->Some_0)) == body,
        layer_name(body)->Some_0.len() >= 9,
        layer_name(body)->Some_0[0] == 'f' ==> layer_name(body)->Some_0[4] != 'e',
{
    if body == "self_attn.q_a_proj.weight"@ {
        reveal_strlit("attn.wq_a.weight");
    } else if body == "self_attn.q_a_norm.weight"@ {
        reveal_strlit("attn.q_norm.weight");
    } else if body == "self_attn.q_b_proj.weight"@ {
        reveal_strlit("attn.wq_b.weight");
    } else if body == "self_attn.kv_proj.weight"@ {
        reveal_strlit("attn.wkv.weight");
    } else if body == "self_attn.kv_norm.weight"@ {
        reveal_strlit("attn.kv_norm.weight");
    } else if body == "self_attn.o_a_proj.weight"@ {
        reveal_strlit("attn.wo_a.weight");
    } else if body == "self_attn.o_b_proj.weight"@ {
        reveal_strlit("attn.wo_b.weight");
    } else if body == "self_attn.sinks"@ {
        reveal_strlit("attn.attn_sink");
    } else if body == "self_attn.compressor.kv_proj.weight"@ {
        reveal_strlit("attn.compressor.wkv.weight");
    } else if body == "self_attn.compressor.gate_proj.weight"@ {
        reveal_strlit("attn.compressor.wgate.weight");
    } else if body == "self_attn.compressor.position_bias"@ {
        reveal_strlit("attn.compressor.ape");
    } else if body == "self_attn.compressor.kv_norm.weight"@ {
        reveal_strlit("attn.compressor.norm.weight");
    } else if body == "self_attn.compressor.indexer.kv_proj.weight"@ {
        reveal_strlit("attn.indexer.compressor.wkv.weight");
    } else if body == "self_attn.compressor.indexer.gate_proj.weight"@ {
        reveal_strlit("attn.indexer.compressor.wgate.weight");
    } else if body == "self_attn.compressor.indexer.position_bias"@ {
        reveal_strlit("attn.indexer.compressor.ape");
    } else if body == "self_attn.compressor.indexer.kv_norm.weight"@ {
        reveal_strlit("attn.indexer.compressor.norm.weight");
    } else if body == "self_attn.compressor.indexer.q_b_proj.weight"@ {
        reveal_strlit("attn.indexer.wq_b.weight");
    } else if body == "self_attn.compressor.indexer.scorer.weights_proj.weight"@ {
        reveal_strlit("attn.indexer.weights_proj.weight");
    } else if body == "attn_hc.fn"@ {
        reveal_strlit("hc_attn_fn");
    } else if body == "attn_hc.base"@ {
        reveal_strlit("hc_attn_base");
    } else if body == "attn_hc.scale"@ {
        reveal_strlit("hc_attn_scale");
    } else if body == "ffn_hc.fn"@ {
        reveal_strlit("hc_ffn_fn");
    } else if body == "ffn_hc.base"@ {
        reveal_strlit("hc_ffn_base");
    } else if body == "ffn_hc.scale"@ {
        reveal_strlit("hc_ffn_scale");
    } else if body == "input_layernorm.weight"@ {
        reveal_strlit("attn_norm.weight");
    } else if body == "post_attention_layernorm.weight"@ {
        reveal_strlit("ffn_norm.weight");
    } else if body == "mlp.gate.weight"@ {
        reveal_strlit("ffn.gate.weight");
    } else if body == "mlp.gate.tid2eid"@ {
        reveal_strlit("ffn.gate.tid2eid");
    } else if body == "mlp.shared_experts.gate_proj.weight"@ {
        reveal_strlit("ffn.shared_experts.w1.weight");
    } else if body == "mlp.shared_experts.up_proj.weight"@ {
        reveal_strlit("ffn.shared_experts.w3.weight");
    } else if body == "mlp.shared_experts.down_proj.weight"@ {
        reveal_strlit("ffn.shared_experts.w2.weight");
    }
}

/// A root name follows from its checkpoint name, which is not that of a layer.
proof fn lemma_root_name_back(name: Seq<char>)
    requires
        root_name(name) is Some,
    ensures
        root_of((root_name(name)->Some_0.len(), root_name(name)->Some_0[1])) == name,
        root_name(name)->Some_0.len() > 1,
        root_name(name)->Some_0[0] != 'l',
        root_name(name)->Some_0[0] != 'm',
{
    if name == "model.embed_tokens.weight"@ {
        reveal_strlit("embed.weight");
    } else if name == "model.norm.weight"@ {
        reveal_strlit("norm.weight");
    } else if name == "lm_head.weight"@ {
        reveal_strlit("head.weight");
    } else if name == "model.hc_head.hc_fn"@ {
        reveal_strlit("hc_head_fn");
    } else if name == "model.hc_head.hc_base"@ {
        reveal_strlit("hc_head_base");
    } else if name == "model.hc_head.hc_scale"@ {
        reveal_strlit("hc_head_scale");
    }
}

/// Two texts of digits, a dot and a rest are equal only if their parts are.
proof fn lemma_number_and_rest(a: nat, x: Seq<char>, b: nat, y: Seq<char>)
    requires
        decimal(a) + "."@ + x == decimal(b) + "."@ + y,
    ensures
        a == b,
        x == y,
{
    reveal_strlit(".");
    let da = decimal(a);
    let db = decimal(b);
    let s = da + "."@ + x;
    lemma_decimal_digits(a);
    lemma_decimal_digits(b);
    assert(s[da.len() as int] == '.');
    assert(s[db.len() as int] == '.') by {
        assert((db + "."@ + y)[db.len() as int] == '.');
    }
    assert(da.len() == db.len()) by {
        if da.len() < db.len() {
            assert(s[da.len() as int] == db[da.len() as int]);
            assert(is_digit(db[da.len() as int]));
        } else if db.len() < da.len() {
            assert(s[db.len() as int] == da[db.len() as int]);
            assert(is_digit(da[db.len() as int]));
        }
    }
    assert(da =~= s.take(da.len() as int));
    assert(db =~= s.take(da.len() as int));
    assert(x =~= s.skip(da.len() as int + 1));
    assert(y =~= s.skip(da.len() as int + 1));
}

/// Names in layers are equal only if the layers and the rests are.
proof fn lemma_in_layer(a: nat, x: Seq<char>, b: nat, y: Seq<char>)
    requires
        in_layer(a, x) == in_layer(b, y),
    ensures
        a == b,
        x == y,
{
    let n = "layers."@.len() as int;
    let p = decimal(a) + "."@ + x;
    let q = decimal(b) + "."@ + y;
    assert(in_layer(a, x).skip(n) =~= p);
    assert(in_layer(b, y).skip(n) =~= q);
    lemma_number_and_rest(a, x, b, y);
}

/// The name of an expert's matrix within its layer.
spec fn expert_body(expert: nat, which: Seq<char>) -> Seq<char> {
    "ffn.experts."@ + (decimal(expert) + "."@ + (which + ".weight"@))
}

proof fn lemma_expert_body(layer: nat, expert: nat, which: Seq<char>)
    ensures
        expert_name(layer, expert, which) == in_layer(layer, expert_body(expert, which)),
        expert_body(expert, which).len() > 4,
        expert_body(expert, which)[0] == 'f',
        expert_body(expert, which)[4] == 'e',
{
    reveal_strlit("ffn.experts.");
    reveal_strlit(".ffn.experts.");
    reveal_strlit(".");
    assert(".ffn.experts."@ =~= "."@ + "ffn.experts."@);
    assert(expert_name(layer, expert, which) =~= in_layer(layer, expert_body(expert, which)));
}

/// The matrices of experts are told apart by layer, expert and matrix.
proof fn lemma_experts_differ(l: nat, e: nat, w: Seq<char>, m: nat, f: nat, v: Seq<char>)
    requires
        expert_name(l, e, w) == expert_name(m, f, v),
        w.len() == v.len(),
    ensures
        l == m,
        e == f,
        w == v,
{
    lemma_expert_body(l, e, w);
    lemma_expert_body(m, f, v);
    let x = expert_body(e, w);
    let y = expert_body(f, v);
    lemma_in_layer(l, x, m, y);
    let n = "ffn.experts."@.len() as int;
    assert(x.skip(n) =~= decimal(e) + "."@ + (w + ".weight"@));
    assert(y.skip(n) =~= decimal(f) + "."@ + (v + ".weight"@));
    lemma_number_and_rest(e, w + ".weight"@, f, v + ".weight"@);
    assert(w =~= (w + ".weight"@).take(w.len() as int));
    assert(v =~= (v + ".weight"@).take(w.len() as int));
}

/// A stored tensor in a layer is read for one name within that layer.
proof fn lemma_reads_in_layer(layer: nat, body: Seq<char>, flat: Seq<char>)
    requires
        layer_target(layer, body) is Some,
        reads(layer_target(layer, body)->Some_0, flat),
    ensures
        flat.len() > 0,
        flat[0] == 'l',
        exists|s: Seq<char>| flat == #[trigger] in_layer(layer, s),
{
    reveal_strlit("layers.");
    match layer_target(layer, body)->Some_0 {
        TargetView::Single(s) => {
            assert(flat == in_layer(layer, layer_name(body)->Some_0));
        },
        TargetView::GateUp { .. } => {
            let e = choose|e: nat|
                flat == #[trigger] expert_name(layer, e, "w1"@) || flat == expert_name(
                    layer,
                    e,
                    "w3"@,
                );
            lemma_expert_body(layer, e, "w1"@);
            lemma_expert_body(layer, e, "w3"@);
        },
        TargetView::Down { .. } => {
            let e = choose|e: nat| flat == #[trigger] expert_name(layer, e, "w2"@);
            lemma_expert_body(layer, e, "w2"@);
        },
    }
}

/// A stored tensor that an expert stack reads is no single tensor of a layer.
proof fn lemma_single_is_no_expert(l: nat, body: Seq<char>, m: nat, e: nat, w: Seq<char>)
    requires
        layer_name(body) is Some,
    ensures
        in_layer(l, layer_name(body)->Some_0) != expert_name(m, e, w),
{
    let s = layer_name(body)->Some_0;
    lemma_layer_name_back(body);
    lemma_expert_body(m, e, w);
    if in_layer(l, s) == expert_name(m, e, w) {
        lemma_in_layer(l, s, m, expert_body(e, w));
    }
}

/// Within one layer, a stored tensor is read for one name only.
proof fn lemma_bodies_differ(layer: nat, x: Seq<char>, y: Seq<char>, flat: Seq<char>)
    requires
        layer_target(layer, x) is Some,
        layer_target(layer, y) is Some,
        reads(layer_target(layer, x)->Some_0, flat),
        reads(layer_target(layer, y)->Some_0, flat),
    ensures
        x == y,
{
    let tx = layer_target(layer, x)->Some_0;
    let ty = layer_target(layer, y)->Some_0;
    if layer_name(x) is Some && layer_name(y) is Some {
        lemma_in_layer(layer, layer_name(x)->Some_0, layer, layer_name(y)->Some_0);
        lemma_layer_name_back(x);
        lemma_layer_name_back(y);
    } else if layer_name(x) is Some || layer_name(y) is Some {
        let (single, stack) = if layer_name(x) is Some {
            (x, ty)
        } else {
            (y, tx)
        };
        let w = lemma_stack_reads(stack, flat);
        lemma_single_is_no_expert(layer, single, layer, w.0, w.1);
    } else {
        let v = lemma_stack_reads(tx, flat);
        let w = lemma_stack_reads(ty, flat);
        lemma_experts_differ(layer, v.0, v.1, layer, w.0, w.1);
        reveal_strlit("w1");
        reveal_strlit("w2");
        reveal_strlit("w3");
        assert("w2"@[1] != "w1"@[1] && "w2"@[1] != "w3"@[1]);
    }
}

/// The expert and the matrix that a stack of experts reads from a stored tensor.
proof fn lemma_stack_reads(target: TargetView, flat: Seq<char>) -> (r: (nat, Seq<char>))
    requires
        !(target is Single),
        reads(target, flat),
    ensures
        match target {
            TargetView::GateUp { layer } => flat == expert_name(layer, r.0, r.1) && (r.1 == "w1"@
                || r.1 == "w3"@),
            TargetView::Down { layer } => flat == expert_name(layer, r.0, r.1) && r.1 == "w2"@,
            _ => false,
        },
        r.1.len() == 2,
{
    reveal_strlit("w1");
    reveal_strlit("w2");
    reveal_strlit("w3");
    match target {
        TargetView::GateUp { layer } => {
            let e = choose|e: nat|
                flat == #[trigger] expert_name(layer, e, "w1"@) || flat == expert_name(
                    layer,
                    e,
                    "w3"@,
                );
            if flat == expert_name(layer, e, "w1"@) {
                (e, "w1"@)
            } else {
                (e, "w3"@)
            }
        },
        TargetView::Down { layer } => {
            let e = choose|e: nat| flat == #[trigger] expert_name(layer, e, "w2"@);
            (e, "w2"@)
        },
        _ => (0, Seq::empty()),
    }
}

/// Two different weights never share a stored tensor, and so have different targets.
pub proof fn law_weights_share_no_tensor(a: Seq<char>, b: Seq<char>, flat: Seq<char>)
    requires
        canonical(a),
        canonical(b),
        a != b,
        schema_target(a) is Some,
        schema_target(b) is Some,
    ensures
        !(reads(schema_target(a)->Some_0, flat) && reads(schema_target(b)->Some_0, flat)),
        schema_target(a) != schema_target(b),
{
    if reads(schema_target(a)->Some_0, flat) && reads(schema_target(b)->Some_0, flat) {
        lemma_shared_tensor(a, b, flat);
    }
    if schema_target(a) == schema_target(b) {
        let t = schema_target(a)->Some_0;
        let some = match t {
            TargetView::Single(s) => s,
            TargetView::GateUp { layer } => expert_name(layer, 0, "w1"@),
            TargetView::Down { layer } => expert_name(layer, 0, "w2"@),
        };
        assert(reads(t, some));
        lemma_shared_tensor(a, b, some);
    }
}

proof fn lemma_shared_tensor(a: Seq<char>, b: Seq<char>, flat: Seq<char>)
    requires
        canonical(a),
        canonical(b),
        schema_target(a) is Some,
        schema_target(b) is Some,
        reads(schema_target(a)->Some_0, flat),
        reads(schema_target(b)->Some_0, flat),
    ensures
        a == b,
{
    if root_name(a) is Some {
        lemma_root_name_back(a);
    } else {
        let (l, x) = split_layer(a)->Some_0;
        lemma_reads_in_layer(l, x, flat);
    }
    if root_name(b) is Some {
        lemma_root_name_back(b);
    } else {
        let (m, y) = split_layer(b)->Some_0;
        lemma_reads_in_layer(m, y, flat);
    }
    if root_name(a) is None && root_name(b) is None {
        let (l, x) = split_layer(a)->Some_0;
        let (m, y) = split_layer(b)->Some_0;
        let s = choose|s: Seq<char>| flat == #[trigger] in_layer(l, s);
        let t = choose|t: Seq<char>| flat == #[trigger] in_layer(m, t);
        lemma_in_layer(l, s, m, t);
        lemma_bodies_differ(l, x, y, flat);
    }
}

/// The target of a weight of a layer carries that layer's own number, and a stack of
/// experts reads tensors of that layer alone.
pub proof fn law_target_carries_its_layer(name: Seq<char>)
    requires
        split_layer(name) is Some,
        schema_target(name) is Some,
    ensures
        carries_layer(schema_target(name)->Some_0, (split_layer(name)->Some_0).0),
        forall|flat: Seq<char>|
            reads(schema_target(name)->Some_0, flat) ==> occurs_at(
                flat,
                "layers."@ + decimal((split_layer(name)->Some_0).0) + "."@,
                0,
            ),
{
    reveal_strlit("model.layers.");
    lemma_root_names_differ(name);
    let (layer, body) = split_layer(name)->Some_0;
    let t = layer_target(layer, body)->Some_0;
    let head = "layers."@ + decimal(layer) + "."@;
    assert forall|flat: Seq<char>| reads(t, flat) implies occurs_at(flat, head, 0) by {
        lemma_reads_in_layer(layer, body, flat);
        let s = choose|s: Seq<char>| flat == #[trigger] in_layer(layer, s);
        assert(flat.subrange(0, head.len() as int) =~= head);
    }
    if t is Single {
        assert(reads(t, t->Single_0));
    }
}

/// The name of a stored tensor is not itself the name of a weight.
pub proof fn law_stored_names_have_no_target(name: Seq<char>)
    requires
        schema_target(name) matches Some(TargetView::Single(_)),
    ensures
        schema_target(schema_target(name)->Some_0->Single_0) is None,
{
    let flat = schema_target(name)->Some_0->Single_0;
    reveal_strlit("model.layers.");
    if root_name(name) is Some {
        lemma_root_name_back(name);
    } else {
        let (l, x) = split_layer(name)->Some_0;
        reveal_strlit("layers.");
        assert(flat == in_layer(l, layer_name(x)->Some_0));
        assert(flat[0] == 'l' && flat[1] == 'a');
    }
    if root_name(flat) is Some {
        lemma_root_names_begin(flat);
    }
    assert(!occurs_at(flat, "model.layers."@, 0)) by {
        if occurs_at(flat, "model.layers."@, 0) {
            assert(flat.subrange(0, 13)[0] == flat[0]);
        }
    }
}

/// How root names begin.
proof fn lemma_root_names_begin(name: Seq<char>)
    requires
        root_name(name) is Some,
    ensures
        name.len() > 1,
        name[0] == 'm' || name[0] == 'l' && name[1] == 'm',
{
    if name == "model.embed_tokens.weight"@ {
        reveal_strlit("model.embed_tokens.weight");
    } else if name == "model.norm.weight"@ {
        reveal_strlit("model.norm.weight");
    } else if name == "lm_head.weight"@ {
        reveal_strlit("lm_head.weight");
    } else if name == "model.hc_head.hc_fn"@ {
        reveal_strlit("model.hc_head.hc_fn");
    } else if name == "model.hc_head.hc_base"@ {
        reveal_strlit("model.hc_head.hc_base");
    } else if name == "model.hc_head.hc_scale"@ {
        reveal_strlit("model.hc_head.hc_scale");
    }
}

/// The checkpoint name of every weight within a layer, and no other weight has one.
pub proof fn law_layer_names(body: Seq<char>)
    ensures
        layer_name("self_attn.q_a_proj.weight"@) == Some("attn.wq_a.weight"@),
        layer_name("self_attn.q_a_norm.weight"@) == Some("attn.q_norm.weight"@),
        layer_name("self_attn.q_b_proj.weight"@) == Some("attn.wq_b.weight"@),
        layer_name("self_attn.kv_proj.weight"@) == Some("attn.wkv.weight"@),
        layer_name("self_attn.kv_norm.weight"@) == Some("attn.kv_norm.weight"@),
        layer_name("self_attn.o_a_proj.weight"@) == Some("attn.wo_a.weight"@),
        layer_name("self_attn.o_b_proj.weight"@) == Some("attn.wo_b.weight"@),
        layer_name("self_attn.sinks"@) == Some("attn.attn_sink"@),
        layer_name("self_attn.compressor.kv_proj.weight"@) == Some("attn.compressor.wkv.weight"@),
        layer_name("self_attn.compressor.gate_proj.weight"@) == Some("attn.compressor.wgate.weight"@),
        layer_name("self_attn.compressor.position_bias"@) == Some("attn.compressor.ape"@),
        layer_name("self_attn.compressor.kv_norm.weight"@) == Some("attn.compressor.norm.weight"@),
        layer_name("self_attn.compressor.indexer.kv_proj.weight"@) == Some("attn.indexer.compressor.wkv.weight"@),
        layer_name("self_attn.compressor.indexer.gate_proj.weight"@) == Some("attn.indexer.compressor.wgate.weight"@),
        layer_name("self_attn.compressor.indexer.position_bias"@) == Some("attn.indexer.compressor.ape"@),
        layer_name("self_attn.compressor.indexer.kv_norm.weight"@) == Some("attn.indexer.compressor.norm.weight"@),
        layer_name("self_attn.compressor.indexer.q_b_proj.weight"@) == Some("attn.indexer.wq_b.weight"@),
        layer_name("self_attn.compressor.indexer.scorer.weights_proj.weight"@) == Some("attn.indexer.weights_proj.weight"@),
        layer_name("attn_hc.fn"@) == Some("hc_attn_fn"@),
        layer_name("attn_hc.base"@) == Some("hc_attn_base"@),
        layer_name("attn_hc.scale"@) == Some("hc_attn_scale"@),
        layer_name("ffn_hc.fn"@) == Some("hc_ffn_fn"@),
        layer_name("ffn_hc.base"@) == Some("hc_ffn_base"@),
        layer_name("ffn_hc.scale"@) == Some("hc_ffn_scale"@),
        layer_name("input_layernorm.weight"@) == Some("attn_norm.weight"@),
        layer_name("post_attention_layernorm.weight"@) == Some("ffn_norm.weight"@),
        layer_name("mlp.gate.weight"@) == Some("ffn.gate.weight"@),
        layer_name("mlp.gate.tid2eid"@) == Some("ffn.gate.tid2eid"@),
        layer_name("mlp.shared_experts.gate_proj.weight"@) == Some("ffn.shared_experts.w1.weight"@),
        layer_name("mlp.shared_experts.up_proj.weight"@) == Some("ffn.shared_experts.w3.weight"@),
        layer_name("mlp.shared_experts.down_proj.weight"@) == Some("ffn.shared_experts.w2.weight"@),
        layer_name(body) is Some ==> body == "self_attn.q_a_proj.weight"@
            || body == "self_attn.q_a_norm.weight"@
            || body == "self_attn.q_b_proj.weight"@
            || body == "self_attn.kv_proj.weight"@
            || body == "self_attn.kv_norm.weight"@
            || body == "self_attn.o_a_proj.weight"@
            || body == "self_attn.o_b_proj.weight"@
            || body == "self_attn.sinks"@
            || body == "self_attn.compressor.kv_proj.weight"@
            || body == "self_attn.compressor.gate_proj.weight"@
            || body == "self_attn.compressor.position_bias"@
            || body == "self_attn.compressor.kv_norm.weight"@
            || body == "self_attn.compressor.indexer.kv_proj.weight"@
            || body == "self_attn.compressor.indexer.gate_proj.weight"@
            || body == "self_attn.compressor.indexer.position_bias"@
            || body == "self_attn.compressor.indexer.kv_norm.weight"@
            || body == "self_attn.compressor.indexer.q_b_proj.weight"@
            || body == "self_attn.compressor.indexer.scorer.weights_proj.weight"@
            || body == "attn_hc.fn"@
            || body == "attn_hc.base"@
            || body == "attn_hc.scale"@
            || body == "ffn_hc.fn"@
            || body == "ffn_hc.base"@
            || body == "ffn_hc.scale"@
            || body == "input_layernorm.weight"@
            || body == "post_attention_layernorm.weight"@
            || body == "mlp.gate.weight"@
            || body == "mlp.gate.tid2eid"@
            || body == "mlp.shared_experts.gate_proj.weight"@
            || body == "mlp.shared_experts.up_proj.weight"@
            || body == "mlp.shared_experts.down_proj.weight"@,
{
    reveal_strlit("self_attn.q_a_proj.weight");
    reveal_strlit("self_attn.q_a_norm.weight");
    reveal_strlit("self_attn.q_b_proj.weight");
    reveal_strlit("self_attn.kv_proj.weight");
    reveal_strlit("self_attn.kv_norm.weight");
    reveal_strlit("self_attn.o_a_proj.weight");
    reveal_strlit("self_attn.o_b_proj.weight");
    reveal_strlit("self_attn.sinks");
    reveal_strlit("self_attn.compressor.kv_proj.weight");
    reveal_strlit("self_attn.compressor.gate_proj.weight");
    reveal_strlit("self_attn.compressor.position_bias");
    reveal_strlit("self_attn.compressor.kv_norm.weight");
    reveal_strlit("self_attn.compressor.indexer.kv_proj.weight");
    reveal_strlit("self_attn.compressor.indexer.gate_proj.weight");
    reveal_strlit("self_attn.compressor.indexer.position_bias");
    reveal_strlit("self_attn.compressor.indexer.kv_norm.weight");
    reveal_strlit("self_attn.compressor.indexer.q_b_proj.weight");
    reveal_strlit("self_attn.compressor.indexer.scorer.weights_proj.weight");
    reveal_strlit("attn_hc.fn");
    reveal_strlit("attn_hc.base");
    reveal_strlit("attn_hc.scale");
    reveal_strlit("ffn_hc.fn");
    reveal_strlit("ffn_hc.base");
    reveal_strlit("ffn_hc.scale");
    reveal_strlit("input_layernorm.weight");
    reveal_strlit("post_attention_layernorm.weight");
    reveal_strlit("mlp.gate.weight");
    reveal_strlit("mlp.gate.tid2eid");
    reveal_strlit("mlp.shared_experts.gate_proj.weight");
    reveal_strlit("mlp.shared_experts.up_proj.weight");
    reveal_strlit("mlp.shared_experts.down_proj.weight");
    assert("self_attn.q_a_proj.weight"@.len() == 25);
    assert("self_attn.q_a_norm.weight"@.len() == 25);
    assert("self_attn.q_b_proj.weight"@.len() == 25);
    assert("self_attn.kv_proj.weight"@.len() == 24);
    assert("self_attn.kv_norm.weight"@.len() == 24);
    assert("self_attn.o_a_proj.weight"@.len() == 25);
    assert("self_attn.o_b_proj.weight"@.len() == 25);
    assert("self_attn.sinks"@.len() == 15);
    assert("self_attn.compressor.kv_proj.weight"@.len() == 35);
    assert("self_attn.compressor.gate_proj.weight"@.len() == 37);
    assert("self_attn.compressor.position_bias"@.len() == 34);
    assert("self_attn.compressor.kv_norm.weight"@.len() == 35);
    assert("self_attn.compressor.indexer.kv_proj.weight"@.len() == 43);
    assert("self_attn.compressor.indexer.gate_proj.weight"@.len() == 45);
    assert("self_attn.compressor.indexer.position_bias"@.len() == 42);
    assert("self_attn.compressor.indexer.kv_norm.weight"@.len() == 43);
    assert("self_attn.compressor.indexer.q_b_proj.weight"@.len() == 44);
    assert("self_attn.compressor.indexer.scorer.weights_proj.weight"@.len() == 55);
    assert("attn_hc.fn"@.len() == 10);
    assert("attn_hc.base"@.len() == 12);
    assert("attn_hc.scale"@.len() == 13);
    assert("ffn_hc.fn"@.len() == 9);
    assert("ffn_hc.base"@.len() == 11);
    assert("ffn_hc.scale"@.len() == 12);
    assert("input_layernorm.weight"@.len() == 22);
    assert("post_attention_layernorm.weight"@.len() == 31);
    assert("mlp.gate.weight"@.len() == 15);
    assert("mlp.gate.tid2eid"@.len() == 16);
    assert("mlp.shared_experts.gate_proj.weight"@.len() == 35);
    assert("mlp.shared_experts.up_proj.weight"@.len() == 33);
    assert("mlp.shared_experts.down_proj.weight"@.len() == 35);
    assert("self_attn.q_a_norm.weight"@[14] != "self_attn.q_a_proj.weight"@[14]);
    assert("self_attn.q_b_proj.weight"@[12] != "self_attn.q_a_proj.weight"@[12]);
    assert("self_attn.q_b_proj.weight"@[12] != "self_attn.q_a_norm.weight"@[12]);
    assert("self_attn.kv_norm.weight"@[13] != "self_attn.kv_proj.weight"@[13]);
    assert("self_attn.o_a_proj.weight"@[10] != "self_attn.q_a_proj.weight"@[10]);
    assert("self_attn.o_a_proj.weight"@[10] != "self_attn.q_a_norm.weight"@[10]);
    assert("self_attn.o_a_proj.weight"@[10] != "self_attn.q_b_proj.weight"@[10]);
    assert("self_attn.o_b_proj.weight"@[10] != "self_attn.q_a_proj.weight"@[10]);
    assert("self_attn.o_b_proj.weight"@[10] != "self_attn.q_a_norm.weight"@[10]);
    assert("self_attn.o_b_proj.weight"@[10] != "self_attn.q_b_proj.weight"@[10]);
    assert("self_attn.o_b_proj.weight"@[12] != "self_attn.o_a_proj.weight"@[12]);
    assert("self_attn.compressor.kv_norm.weight"@[24] != "self_attn.compressor.kv_proj.weight"@[24]);
    assert("self_attn.compressor.indexer.kv_norm.weight"@[32] != "self_attn.compressor.indexer.kv_proj.weight"@[32]);
    assert("ffn_hc.scale"@[0] != "attn_hc.base"@[0]);
    assert("mlp.gate.weight"@[0] != "self_attn.sinks"@[0]);
    assert("mlp.shared_experts.gate_proj.weight"@[0] != "self_attn.compressor.kv_proj.weight"@[0]);
    assert("mlp.shared_experts.gate_proj.weight"@[0] != "self_attn.compressor.kv_norm.weight"@[0]);
    assert("mlp.shared_experts.down_proj.weight"@[0] != "self_attn.compressor.kv_proj.weight"@[0]);
    assert("mlp.shared_experts.down_proj.weight"@[0] != "self_attn.compressor.kv_norm.weight"@[0]);
    assert("mlp.shared_experts.down_proj.weight"@[19] != "mlp.shared_experts.gate_proj.weight"@[19]);
}

/// The checkpoint name of every weight outside the layers, and no other name has one.
pub proof fn law_root_names(name: Seq<char>)
    ensures
        root_name("model.embed_tokens.weight"@) == Some("embed.weight"@),
        root_name("model.norm.weight"@) == Some("norm.weight"@),
        root_name("lm_head.weight"@) == Some("head.weight"@),
        root_name("model.hc_head.hc_fn"@) == Some("hc_head_fn"@),
        root_name("model.hc_head.hc_base"@) == Some("hc_head_base"@),
        root_name("model.hc_head.hc_scale"@) == Some("hc_head_scale"@),
        root_name(name) is Some ==> name == "model.embed_tokens.weight"@
            || name == "model.norm.weight"@
            || name == "lm_head.weight"@
            || name == "model.hc_head.hc_fn"@
            || name == "model.hc_head.hc_base"@
            || name == "model.hc_head.hc_scale"@,
{
    reveal_strlit("model.embed_tokens.weight");
    reveal_strlit("model.norm.weight");
    reveal_strlit("lm_head.weight");
    reveal_strlit("model.hc_head.hc_fn");
    reveal_strlit("model.hc_head.hc_base");
    reveal_strlit("model.hc_head.hc_scale");
    assert("model.embed_tokens.weight"@.len() == 25);
    assert("model.norm.weight"@.len() == 17);
    assert("lm_head.weight"@.len() == 14);
    assert("model.hc_head.hc_fn"@.len() == 19);
    assert("model.hc_head.hc_base"@.len() == 21);
    assert("model.hc_head.hc_scale"@.len() == 22);
}

/// Where the weights outside the layers are found.
pub proof fn law_root_weights_are_found(name: Seq<char>)
    ensures
        schema_target("model.embed_tokens.weight"@) == Some(TargetView::Single("embed.weight"@)),
        schema_target("model.norm.weight"@) == Some(TargetView::Single("norm.weight"@)),
        schema_target("lm_head.weight"@) == Some(TargetView::Single("head.weight"@)),
        schema_target("model.hc_head.hc_fn"@) == Some(TargetView::Single("hc_head_fn"@)),
        schema_target("model.hc_head.hc_base"@) == Some(TargetView::Single("hc_head_base"@)),
        schema_target("model.hc_head.hc_scale"@) == Some(TargetView::Single("hc_head_scale"@)),
{
    law_root_names(name);
}

/// Where the weights of every layer are found: each in its own tensor of that layer.
pub proof fn law_layer_weights_are_found(layer: nat)
    requires
        layer <= usize::MAX,
    ensures
        schema_target("model.layers."@ + decimal(layer) + "."@ + "self_attn.q_a_proj.weight"@) == Some(
            TargetView::Single("layers."@ + decimal(layer) + "."@ + "attn.wq_a.weight"@),
        ),
        schema_target("model.layers."@ + decimal(layer) + "."@ + "self_attn.q_a_norm.weight"@) == Some(
            TargetView::Single("layers."@ + decimal(layer) + "."@ + "attn.q_norm.weight"@),
        ),
        schema_target("model.layers."@ + decimal(layer) + "."@ + "self_attn.q_b_proj.weight"@) == Some(
            TargetView::Single("layers."@ + decimal(layer) + "."@ + "attn.wq_b.weight"@),
        ),
        schema_target("model.layers."@ + decimal(layer) + "."@ + "self_attn.kv_proj.weight"@) == Some(
            TargetView::Single("layers."@ + decimal(layer) + "."@ + "attn.wkv.weight"@),
        ),
        schema_target("model.layers."@ + decimal(layer) + "."@ + "self_attn.kv_norm.weight"@) == Some(
            TargetView::Single("layers."@ + decimal(layer) + "."@ + "attn.kv_norm.weight"@),
        ),
        schema_target("model.layers."@ + decimal(layer) + "."@ + "self_attn.o_a_proj.weight"@) == Some(
            TargetView::Single("layers."@ + decimal(layer) + "."@ + "attn.wo_a.weight"@),
        ),
        schema_target("model.layers."@ + decimal(layer) + "."@ + "self_attn.o_b_proj.weight"@) == Some(
            TargetView::Single("layers."@ + decimal(layer) + "."@ + "attn.wo_b.weight"@),
        ),
        schema_target("model.layers."@ + decimal(layer) + "."@ + "self_attn.sinks"@) == Some(
            TargetView::Single("layers."@ + decimal(layer) + "."@ + "attn.attn_sink"@),
        ),
        schema_target("model.layers."@ + decimal(layer) + "."@ + "self_attn.compressor.kv_proj.weight"@) == Some(
            TargetView::Single("layers."@ + decimal(layer) + "."@ + "attn.compressor.wkv.weight"@),
        ),
        schema_target("model.layers."@ + decimal(layer) + "."@ + "self_attn.compressor.gate_proj.weight"@) == Some(
            TargetView::Single("layers."@ + decimal(layer) + "."@ + "attn.compressor.wgate.weight"@),
        ),
        schema_target("model.layers."@ + decimal(layer) + "."@ + "self_attn.compressor.position_bias"@) == Some(
            TargetView::Single("layers."@ + decimal(layer) + "."@ + "attn.compressor.ape"@),
        ),
        schema_target("model.layers."@ + decimal(layer) + "."@ + "self_attn.compressor.kv_norm.weight"@) == Some(
            TargetView::Single("layers."@ + decimal(layer) + "."@ + "attn.compressor.norm.weight"@),
        ),
        schema_target("model.layers."@ + decimal(layer) + "."@ + "self_attn.compressor.indexer.kv_proj.weight"@) == Some(
            TargetView::Single("layers."@ + decimal(layer) + "."@ + "attn.indexer.compressor.wkv.weight"@),
        ),
        schema_target("model.layers."@ + decimal(layer) + "."@ + "self_attn.compressor.indexer.gate_proj.weight"@) == Some(
            TargetView::Single("layers."@ + decimal(layer) + "."@ + "attn.indexer.compressor.wgate.weight"@),
        ),
        schema_target("model.layers."@ + decimal(layer) + "."@ + "self_attn.compressor.indexer.position_bias"@) == Some(
            TargetView::Single("layers."@ + decimal(layer) + "."@ + "attn.indexer.compressor.ape"@),
        ),
        schema_target("model.layers."@ + decimal(layer) + "."@ + "self_attn.compressor.indexer.kv_norm.weight"@) == Some(
            TargetView::Single("layers."@ + decimal(layer) + "."@ + "attn.indexer.compressor.norm.weight"@),
        ),
        schema_target("model.layers."@ + decimal(layer) + "."@ + "self_attn.compressor.indexer.q_b_proj.weight"@) == Some(
            TargetView::Single("layers."@ + decimal(layer) + "."@ + "attn.indexer.wq_b.weight"@),
        ),
        schema_target("model.layers."@ + decimal(layer) + "."@ + "self_attn.compressor.indexer.scorer.weights_proj.weight"@) == Some(
            TargetView::Single("layers."@ + decimal(layer) + "."@ + "attn.indexer.weights_proj.weight"@),
        ),
        schema_target("model.layers."@ + decimal(layer) + "."@ + "attn_hc.fn"@) == Some(
            TargetView::Single("layers."@ + decimal(layer) + "."@ + "hc_attn_fn"@),
        ),
        schema_target("model.layers."@ + decimal(layer) + "."@ + "attn_hc.base"@) == Some(
            TargetView::Single("layers."@ + decimal(layer) + "."@ + "hc_attn_base"@),
        ),
        schema_target("model.layers."@ + decimal(layer) + "."@ + "attn_hc.scale"@) == Some(
            TargetView::Single("layers."@ + decimal(layer) + "."@ + "hc_attn_scale"@),
        ),
        schema_target("model.layers."@ + decimal(layer) + "."@ + "ffn_hc.fn"@) == Some(
            TargetView::Single("layers."@ + decimal(layer) + "."@ + "hc_ffn_fn"@),
        ),
        schema_target("model.layers."@ + decimal(layer) + "."@ + "ffn_hc.base"@) == Some(
            TargetView::Single("layers."@ + decimal(layer) + "."@ + "hc_ffn_base"@),
        ),
        schema_target("model.layers."@ + decimal(layer) + "."@ + "ffn_hc.scale"@) == Some(
            TargetView::Single("layers."@ + decimal(layer) + "."@ + "hc_ffn_scale"@),
        ),
        schema_target("model.layers."@ + decimal(layer) + "."@ + "input_layernorm.weight"@) == Some(
            TargetView::Single("layers."@ + decimal(layer) + "."@ + "attn_norm.weight"@),
        ),
        schema_target("model.layers."@ + decimal(layer) + "."@ + "post_attention_layernorm.weight"@) == Some(
            TargetView::Single("layers."@ + decimal(layer) + "."@ + "ffn_norm.weight"@),
        ),
        schema_target("model.layers."@ + decimal(layer) + "."@ + "mlp.gate.weight"@) == Some(
            TargetView::Single("layers."@ + decimal(layer) + "."@ + "ffn.gate.weight"@),
        ),
        schema_target("model.layers."@ + decimal(layer) + "."@ + "mlp.gate.tid2eid"@) == Some(
            TargetView::Single("layers."@ + decimal(layer) + "."@ + "ffn.gate.tid2eid"@),
        ),
        schema_target("model.layers."@ + decimal(layer) + "."@ + "mlp.shared_experts.gate_proj.weight"@) == Some(
            TargetView::Single("layers."@ + decimal(layer) + "."@ + "ffn.shared_experts.w1.weight"@),
        ),
        schema_target("model.layers."@ + decimal(layer) + "."@ + "mlp.shared_experts.up_proj.weight"@) == Some(
            TargetView::Single("layers."@ + decimal(layer) + "."@ + "ffn.shared_experts.w3.weight"@),
        ),
        schema_target("model.layers."@ + decimal(layer) + "."@ + "mlp.shared_experts.down_proj.weight"@) == Some(
            TargetView::Single("layers."@ + decimal(layer) + "."@ + "ffn.shared_experts.w2.weight"@),
        ),
{
    law_layer_names(Seq::empty());
    law_full_name_resolves_in_layer(layer, "self_attn.q_a_proj.weight"@);
    law_full_name_resolves_in_layer(layer, "self_attn.q_a_norm.weight"@);
    law_full_name_resolves_in_layer(layer, "self_attn.q_b_proj.weight"@);
    law_full_name_resolves_in_layer(layer, "self_attn.kv_proj.weight"@);
    law_full_name_resolves_in_layer(layer, "self_attn.kv_norm.weight"@);
    law_full_name_resolves_in_layer(layer, "self_attn.o_a_proj.weight"@);
    law_full_name_resolves_in_layer(layer, "self_attn.o_b_proj.weight"@);
    law_full_name_resolves_in_layer(layer, "self_attn.sinks"@);
    law_full_name_resolves_in_layer(layer, "self_attn.compressor.kv_proj.weight"@);
    law_full_name_resolves_in_layer(layer, "self_attn.compressor.gate_proj.weight"@);
    law_full_name_resolves_in_layer(layer, "self_attn.compressor.position_bias"@);
    law_full_name_resolves_in_layer(layer, "self_attn.compressor.kv_norm.weight"@);
    law_full_name_resolves_in_layer(layer, "self_attn.compressor.indexer.kv_proj.weight"@);
    law_full_name_resolves_in_layer(layer, "self_attn.compressor.indexer.gate_proj.weight"@);
    law_full_name_resolves_in_layer(layer, "self_attn.compressor.indexer.position_bias"@);
    law_full_name_resolves_in_layer(layer, "self_attn.compressor.indexer.kv_norm.weight"@);
    law_full_name_resolves_in_layer(layer, "self_attn.compressor.indexer.q_b_proj.weight"@);
    law_full_name_resolves_in_layer(layer, "self_attn.compressor.indexer.scorer.weights_proj.weight"@);
    law_full_name_resolves_in_layer(layer, "attn_hc.fn"@);
    law_full_name_resolves_in_layer(layer, "attn_hc.base"@);
    law_full_name_resolves_in_layer(layer, "attn_hc.scale"@);
    law_full_name_resolves_in_layer(layer, "ffn_hc.fn"@);
    law_full_name_resolves_in_layer(layer, "ffn_hc.base"@);
    law_full_name_resolves_in_layer(layer, "ffn_hc.scale"@);
    law_full_name_resolves_in_layer(layer, "input_layernorm.weight"@);
    law_full_name_resolves_in_layer(layer, "post_attention_layernorm.weight"@);
    law_full_name_resolves_in_layer(layer, "mlp.gate.weight"@);
    law_full_name_resolves_in_layer(layer, "mlp.gate.tid2eid"@);
    law_full_name_resolves_in_layer(layer, "mlp.shared_experts.gate_proj.weight"@);
    law_full_name_resolves_in_layer(layer, "mlp.shared_experts.up_proj.weight"@);
    law_full_name_resolves_in_layer(layer, "mlp.shared_experts.down_proj.weight"@);
}

/// The stacked expert weights of every layer: gate and up projections together, and the
/// down projections.
pub proof fn law_expert_stacks_are_found(layer: nat)
    requires
        layer <= usize::MAX,
    ensures
        schema_target("model.layers."@ + decimal(layer) + "."@ + "mlp.experts.gate_up_proj"@)
            == Some(TargetView::GateUp { layer }),
        schema_target("model.layers."@ + decimal(layer) + "."@ + "mlp.experts.down_proj"@)
            == Some(TargetView::Down { layer }),
{
    law_full_name_resolves_in_layer(layer, "mlp.experts.gate_up_proj"@);
    law_full_name_resolves_in_layer(layer, "mlp.experts.down_proj"@);
    lemma_stacks_have_no_single_tensor();
}

proof fn lemma_stacks_have_no_single_tensor()
    ensures
        layer_name("mlp.experts.gate_up_proj"@) is None,
        layer_name("mlp.experts.down_proj"@) is None,
        "mlp.experts.gate_up_proj"@ != "mlp.experts.down_proj"@,
{
    reveal_strlit("self_attn.q_a_proj.weight");
    reveal_strlit("self_attn.q_a_norm.weight");
    reveal_strlit("self_attn.q_b_proj.weight");
    reveal_strlit("self_attn.kv_proj.weight");
    reveal_strlit("self_attn.kv_norm.weight");
    reveal_strlit("self_attn.o_a_proj.weight");
    reveal_strlit("self_attn.o_b_proj.weight");
    reveal_strlit("self_attn.sinks");
    reveal_strlit("self_attn.compressor.kv_proj.weight");
    reveal_strlit("self_attn.compressor.gate_proj.weight");
    reveal_strlit("self_attn.compressor.position_bias");
    reveal_strlit("self_attn.compressor.kv_norm.weight");
    reveal_strlit("self_attn.compressor.indexer.kv_proj.weight");
    reveal_strlit("self_attn.compressor.indexer.gate_proj.weight");
    reveal_strlit("self_attn.compressor.indexer.position_bias");
    reveal_strlit("self_attn.compressor.indexer.kv_norm.weight");
    reveal_strlit("self_attn.compressor.indexer.q_b_proj.weight");
    reveal_strlit("self_attn.compressor.indexer.scorer.weights_proj.weight");
    reveal_strlit("attn_hc.fn");
    reveal_strlit("attn_hc.base");
    reveal_strlit("attn_hc.scale");
    reveal_strlit("ffn_hc.fn");
    reveal_strlit("ffn_hc.base");
    reveal_strlit("ffn_hc.scale");
    reveal_strlit("input_layernorm.weight");
    reveal_strlit("post_attention_layernorm.weight");
    reveal_strlit("mlp.gate.weight");
    reveal_strlit("mlp.gate.tid2eid");
    reveal_strlit("mlp.shared_experts.gate_proj.weight");
    reveal_strlit("mlp.shared_experts.up_proj.weight");
    reveal_strlit("mlp.shared_experts.down_proj.weight");
    reveal_strlit("mlp.experts.gate_up_proj");
    reveal_strlit("mlp.experts.down_proj");
    assert("self_attn.q_a_proj.weight"@.len() == 25);
    assert("self_attn.q_a_norm.weight"@.len() == 25);
    assert("self_attn.q_b_proj.weight"@.len() == 25);
    assert("self_attn.kv_proj.weight"@.len() == 24);
    assert("self_attn.kv_norm.weight"@.len() == 24);
    assert("self_attn.o_a_proj.weight"@.len() == 25);
    assert("self_attn.o_b_proj.weight"@.len() == 25);
    assert("self_attn.sinks"@.len() == 15);
    assert("self_attn.compressor.kv_proj.weight"@.len() == 35);
    assert("self_attn.compressor.gate_proj.weight"@.len() == 37);
    assert("self_attn.compressor.position_bias"@.len() == 34);
    assert("self_attn.compressor.kv_norm.weight"@.len() == 35);
    assert("self_attn.compressor.indexer.kv_proj.weight"@.len() == 43);
    assert("self_attn.compressor.indexer.gate_proj.weight"@.len() == 45);
    assert("self_attn.compressor.indexer.position_bias"@.len() == 42);
    assert("self_attn.compressor.indexer.kv_norm.weight"@.len() == 43);
    assert("self_attn.compressor.indexer.q_b_proj.weight"@.len() == 44);
    assert("self_attn.compressor.indexer.scorer.weights_proj.weight"@.len() == 55);
    assert("attn_hc.fn"@.len() == 10);
    assert("attn_hc.base"@.len() == 12);
    assert("attn_hc.scale"@.len() == 13);
    assert("ffn_hc.fn"@.len() == 9);
    assert("ffn_hc.base"@.len() == 11);
    assert("ffn_hc.scale"@.len() == 12);
    assert("input_layernorm.weight"@.len() == 22);
    assert("post_attention_layernorm.weight"@.len() == 31);
    assert("mlp.gate.weight"@.len() == 15);
    assert("mlp.gate.tid2eid"@.len() == 16);
    assert("mlp.shared_experts.gate_proj.weight"@.len() == 35);
    assert("mlp.shared_experts.up_proj.weight"@.len() == 33);
    assert("mlp.shared_experts.down_proj.weight"@.len() == 35);
    assert("mlp.experts.gate_up_proj"@.len() == 24);
    assert("mlp.experts.down_proj"@.len() == 21);
    assert("self_attn.q_a_norm.weight"@[14] != "self_attn.q_a_proj.weight"@[14]);
    assert("self_attn.q_b_proj.weight"@[12] != "self_attn.q_a_proj.weight"@[12]);
    assert("self_attn.q_b_proj.weight"@[12] != "self_attn.q_a_norm.weight"@[12]);
    assert("self_attn.kv_norm.weight"@[13] != "self_attn.kv_proj.weight"@[13]);
    assert("self_attn.o_a_proj.weight"@[10] != "self_attn.q_a_proj.weight"@[10]);
    assert("self_attn.o_a_proj.weight"@[10] != "self_attn.q_a_norm.weight"@[10]);
    assert("self_attn.o_a_proj.weight"@[10] != "self_attn.q_b_proj.weight"@[10]);
    assert("self_attn.o_b_proj.weight"@[10] != "self_attn.q_a_proj.weight"@[10]);
    assert("self_attn.o_b_proj.weight"@[10] != "self_attn.q_a_norm.weight"@[10]);
    assert("self_attn.o_b_proj.weight"@[10] != "self_attn.q_b_proj.weight"@[10]);
    assert("self_attn.o_b_proj.weight"@[12] != "self_attn.o_a_proj.weight"@[12]);
    assert("self_attn.compressor.kv_norm.weight"@[24] != "self_attn.compressor.kv_proj.weight"@[24]);
    assert("self_attn.compressor.indexer.kv_norm.weight"@[32] != "self_attn.compressor.indexer.kv_proj.weight"@[32]);
    assert("ffn_hc.scale"@[0] != "attn_hc.base"@[0]);
    assert("mlp.gate.weight"@[0] != "self_attn.sinks"@[0]);
    assert("mlp.shared_experts.gate_proj.weight"@[0] != "self_attn.compressor.kv_proj.weight"@[0]);
    assert("mlp.shared_experts.gate_proj.weight"@[0] != "self_attn.compressor.kv_norm.weight"@[0]);
    assert("mlp.shared_experts.down_proj.weight"@[0] != "self_attn.compressor.kv_proj.weight"@[0]);
    assert("mlp.shared_experts.down_proj.weight"@[0] != "self_attn.compressor.kv_norm.weight"@[0]);
    assert("mlp.shared_experts.down_proj.weight"@[19] != "mlp.shared_experts.gate_proj.weight"@[19]);
    assert("mlp.experts.gate_up_proj"@[0] != "self_attn.kv_proj.weight"@[0]);
    assert("mlp.experts.gate_up_proj"@[0] != "self_attn.kv_norm.weight"@[0]);
}

/// The names under which the matrices of an expert are stored.
pub proof fn law_expert_names(layer: nat, expert: nat)
    ensures
        expert_name(layer, expert, "w1"@) == "layers."@ + decimal(layer) + ".ffn.experts."@
            + decimal(expert) + ".w1.weight"@,
        expert_name(layer, expert, "w2"@) == "layers."@ + decimal(layer) + ".ffn.experts."@
            + decimal(expert) + ".w2.weight"@,
        expert_name(layer, expert, "w3"@) == "layers."@ + decimal(layer) + ".ffn.experts."@
            + decimal(expert) + ".w3.weight"@,
{
    reveal_strlit(".");
    reveal_strlit("w1");
    reveal_strlit("w2");
    reveal_strlit("w3");
    reveal_strlit(".weight");
    reveal_strlit(".w1.weight");
    reveal_strlit(".w2.weight");
    reveal_strlit(".w3.weight");
    let stem = "layers."@ + decimal(layer) + ".ffn.experts."@ + decimal(expert);
    assert("."@ + "w1"@ + ".weight"@ =~= ".w1.weight"@);
    assert("."@ + "w2"@ + ".weight"@ =~= ".w2.weight"@);
    assert("."@ + "w3"@ + ".weight"@ =~= ".w3.weight"@);
    assert(expert_name(layer, expert, "w1"@) =~= stem + ("."@ + "w1"@ + ".weight"@));
    assert(expert_name(layer, expert, "w2"@) =~= stem + ("."@ + "w2"@ + ".weight"@));
    assert(expert_name(layer, expert, "w3"@) =~= stem + ("."@ + "w3"@ + ".weight"@));
}

/// The scale of a weight is stored beside it: `.scale` in place of `.weight`, or behind a
/// name that does not end so.
pub proof fn law_scale_names(base: Seq<char>)
    ensures
        scale_name_of(base + ".weight"@) == base + ".scale"@,
        (forall|stem: Seq<char>| base != #[trigger] (stem + ".weight"@)) ==> scale_name_of(base)
            == base + ".scale"@,
{
    let name = base + ".weight"@;
    assert(name.subrange(base.len() as int, name.len() as int) =~= ".weight"@);
    assert(occurs_at(name, ".weight"@, name.len() - ".weight"@.len()));
    assert(name.take(base.len() as int) =~= base);
    if occurs_at(base, ".weight"@, base.len() - ".weight"@.len()) {
        let stem = base.take(base.len() - ".weight"@.len());
        assert(base =~= stem + ".weight"@);
    }
}

/// A whole layer is read from that layer's tensors: a weight with its own tensor as that
/// tensor in the shape asked for; the stacked gate and up projections expert by expert,
/// half the rows from `w1` and half from `w3`; the stacked down projections from `w2`.
pub proof fn law_stacks_are_read_expert_by_expert<T>(
    loader: &DeepseekV4Quantized<T>,
    layer: nat,
    dims: Seq<usize>,
    i: int,
)
    requires
        layer <= usize::MAX,
        dims.len() == 3,
        0 <= i < dims[0],
    ensures
        ({
            let name = "model.layers."@ + decimal(layer) + "."@ + "mlp.experts.gate_up_proj"@;
            let stem = "layers."@ + decimal(layer) + ".ffn.experts."@ + decimal(i as nat);
            let plan = loader.plan_of(name, dims);
            &&& plan is GateUp
            &&& plan->GateUp_0.len() == dims[0]
            &&& plan->GateUp_0[i].0.name == stem + ".w1.weight"@
            &&& plan->GateUp_0[i].1.name == stem + ".w3.weight"@
            &&& plan->GateUp_0[i].0.dims == seq![(dims[1] / 2) as usize, dims[2]]
            &&& plan->GateUp_0[i].1.dims == seq![(dims[1] / 2) as usize, dims[2]]
            &&& plan->GateUp_0[i].0.reshape && plan->GateUp_0[i].1.reshape
            &&& plan->GateUp_0[i].0.source == (SourceView::Fp4 {
                scale: stem + ".w1.scale"@,
                rows: (dims[1] / 2) as nat,
                cols: dims[2] as nat,
                block: (1, 32),
            })
            &&& plan->GateUp_0[i].1.source == (SourceView::Fp4 {
                scale: stem + ".w3.scale"@,
                rows: (dims[1] / 2) as nat,
                cols: dims[2] as nat,
                block: (1, 32),
            })
        }),
        ({
            let name = "model.layers."@ + decimal(layer) + "."@ + "mlp.experts.down_proj"@;
            let stem = "layers."@ + decimal(layer) + ".ffn.experts."@ + decimal(i as nat);
            let plan = loader.plan_of(name, dims);
            &&& plan is Down
            &&& plan->Down_0.len() == dims[0]
            &&& plan->Down_0[i].name == stem + ".w2.weight"@
            &&& plan->Down_0[i].dims == seq![dims[1], dims[2]]
            &&& plan->Down_0[i].reshape
            &&& plan->Down_0[i].source == (SourceView::Fp4 {
                scale: stem + ".w2.scale"@,
                rows: dims[1] as nat,
                cols: dims[2] as nat,
                block: (1, 32),
            })
        }),
{
    law_expert_stacks_are_found(layer);
    law_expert_names(layer, i as nat);
    let half = seq![(dims[1] / 2) as usize, dims[2]];
    let whole = seq![dims[1], dims[2]];
    law_expert_weights_are_fp4(loader, layer, i as nat, "w1"@, half);
    law_expert_weights_are_fp4(loader, layer, i as nat, "w3"@, half);
    law_expert_weights_are_fp4(loader, layer, i as nat, "w2"@, whole);
    let stem = "layers."@ + decimal(layer) + ".ffn.experts."@ + decimal(i as nat);
    reveal_strlit(".");
    reveal_strlit("w1");
    reveal_strlit("w2");
    reveal_strlit("w3");
    reveal_strlit(".scale");
    reveal_strlit(".w1.scale");
    reveal_strlit(".w2.scale");
    reveal_strlit(".w3.scale");
    assert("."@ + "w1"@ + ".scale"@ =~= ".w1.scale"@);
    assert("."@ + "w2"@ + ".scale"@ =~= ".w2.scale"@);
    assert("."@ + "w3"@ + ".scale"@ =~= ".w3.scale"@);
    assert(stem + "."@ + "w1"@ + ".scale"@ =~= stem + ("."@ + "w1"@ + ".scale"@));
    assert(stem + "."@ + "w2"@ + ".scale"@ =~= stem + ("."@ + "w2"@ + ".scale"@));
    assert(stem + "."@ + "w3"@ + ".scale"@ =~= stem + ("."@ + "w3"@ + ".scale"@));
}

/// One tensor is read in the shape asked for: as it is stored below two dimensions; as
/// packed fp4, per row over 32 columns, where the name lies under `.ffn.experts.`; as fp8 in
/// the checkpoint's block where a scale is stored beside it; as it is stored otherwise. Rows
/// and columns multiply to the elements of the shape.
pub proof fn law_tensors_are_read_by_kind<T>(
    loader: &DeepseekV4Quantized<T>,
    name: Seq<char>,
    dims: Seq<usize>,
)
    ensures
        ({
            let part = loader.part_of(name, dims);
            let packed = exists|a: Seq<char>, b: Seq<char>|
                name == #[trigger] (a + ".ffn.experts."@ + b);
            let scale = scale_name_of(name);
            &&& part.name == name
            &&& part.dims == dims
            &&& part.reshape
            &&& dims.len() < 2 ==> part.source is Plain
            &&& dims.len() >= 2 && packed ==> part.source is Fp4
            &&& dims.len() >= 2 && !packed ==> (part.source is Fp8 <==> loader.stored(scale))
            &&& dims.len() >= 2 && !packed ==> (part.source is Plain <==> !loader.stored(scale))
            &&& match part.source {
                SourceView::Plain => true,
                SourceView::Fp4 { scale: s, rows, cols, block } => s == scale && rows * cols
                    == elem_count(dims) && cols == dims.last() && block == (1usize, 32usize),
                SourceView::Fp8 { scale: s, rows, cols, block } => s == scale && rows * cols
                    == elem_count(dims) && cols == dims.last() && block == loader.fp8_block(),
            }
        }),
{
    let needle = ".ffn.experts."@;
    if occurs_in(name, needle) {
        let i = choose|i: int| #[trigger] occurs_at(name, needle, i);
        let a = name.take(i);
        let b = name.skip(i + needle.len());
        assert(name =~= a + needle + b);
    }
    if exists|a: Seq<char>, b: Seq<char>| name == #[trigger] (a + ".ffn.experts."@ + b) {
        let (a, b) = choose|a: Seq<char>, b: Seq<char>|
            name == #[trigger] (a + ".ffn.experts."@ + b);
        assert(name.subrange(a.len() as int, (a.len() + needle.len()) as int) =~= needle);
        assert(occurs_at(name, needle, a.len() as int));
    }
}

} // verus!
