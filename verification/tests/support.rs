//! Names, caches, element types and row-wise dequantization.

use candle_lm::cache::{CachedTensor, LruCache, WeightCache};
use candle_lm::dequant::{check_layout, decode_scales, dequantize_row};
use candle_lm::dtype::DType;
use candle_lm::error::LmError;
use candle_lm::glm5_next::attention::Glm5NextTextAttention;
use candle_lm::glm5_next::indexer::Glm5NextTextIndexer;
use candle_lm::indices::{count_blocks, is_among};
use candle_lm::plan::{copy_dims, rows_and_cols};
use candle_lm::quantized_deepseek_v4::{dequantize_fp8_block_scale, fp8_e4m3_to_f32};
use candle_lm::text::{
    contains, decimal_string, is_listed, parse_usize, same, strip_prefix, strip_suffix,
};

#[test]
fn numbers_survive_being_written() {
    for n in [0usize, 7, 10, 42, 100, 65535, usize::MAX] {
        assert_eq!(decimal_string(n), n.to_string());
        assert_eq!(parse_usize(&n.to_string()), Some(n));
    }
    for s in ["", "+", "-1", " 1", "1 ", "0x1", "99999999999999999999999"] {
        assert_eq!(parse_usize(s), s.parse::<usize>().ok(), "{s:?}");
    }
    assert_eq!(parse_usize("+8"), Some(8));
    assert_eq!(parse_usize("008"), Some(8));
}

#[test]
fn names_are_searched_as_text() {
    assert!(contains("layers.0.ffn.experts.3.w1", ".ffn.experts."));
    assert!(!contains("layers.0.ffn.shared_experts.w1", ".ffn.experts."));
    assert!(contains("abc", ""));
    assert!(!contains("", "a"));
    assert!(contains("aab", "ab"));
    assert_eq!(strip_prefix("model.layers.1", "model."), Some("layers.1"));
    assert_eq!(strip_prefix("mode", "model."), None);
    assert_eq!(strip_suffix("w1.weight", ".weight"), Some("w1"));
    assert_eq!(strip_suffix("weight", ".weight"), None);
    assert!(same("a", "a") && !same("a", "b"));
    let names = vec!["a".to_string(), "b".to_string()];
    assert!(is_listed(&names, "b") && !is_listed(&names, "c"));
}

#[test]
fn sizes_are_counted_in_bytes() {
    let sizes: Vec<usize> = [DType::U8, DType::BF16, DType::U32, DType::F64, DType::F4]
        .iter()
        .map(|d| d.size_in_bytes())
        .collect();
    assert_eq!(sizes, vec![1, 2, 4, 8, 0]);
    let t = CachedTensor { dims: vec![3, 5], dtype: DType::I16, data: () };
    assert_eq!(t.bytes_of(), 30);
}

#[test]
fn use_decides_what_is_dropped() {
    let entry = |v: u8| CachedTensor { dims: vec![10], dtype: DType::U8, data: v };
    let mut cache: WeightCache<u8> = WeightCache::new(30);
    cache.insert("a", entry(1));
    cache.insert("b", entry(2));
    cache.insert("c", entry(3));
    assert_eq!(cache.get("a").map(|t| t.data), Some(1));
    cache.insert("d", entry(4));
    assert!(cache.get("b").is_none());
    assert_eq!(cache.get("a").map(|t| t.data), Some(1));
    assert_eq!((cache.len(), cache.resident_bytes(), cache.evictions()), (3, 30, 1));
    // A tensor over the budget leaves nothing behind.
    cache.insert("e", CachedTensor { dims: vec![31], dtype: DType::U8, data: 5 });
    assert_eq!((cache.len(), cache.resident_bytes(), cache.evictions()), (0, 0, 5));
}

#[test]
fn a_history_keeps_the_most_recent() {
    let entry = |n: usize| CachedTensor { dims: vec![n], dtype: DType::U8, data: n };
    let mut cache: WeightCache<usize> = WeightCache::new(10);
    let mut recent: Vec<(usize, usize)> = Vec::new();
    let mut evicted = 0;
    for step in 0..60usize {
        let (id, size) = (step * 7 % 5, step * 3 % 12);
        let name = format!("t{id}");
        if step % 4 == 3 {
            let hit = cache.get(&name).is_some();
            assert_eq!(hit, recent.iter().any(|r| r.0 == id));
            if let Some(at) = recent.iter().position(|r| r.0 == id) {
                let r = recent.remove(at);
                recent.push(r);
            }
        } else {
            recent.retain(|r| r.0 != id);
            recent.push((id, size));
            while recent.iter().map(|r| r.1).sum::<usize>() > 10 {
                recent.remove(0);
                evicted += 1;
            }
            cache.insert(&name, entry(size));
        }
        let total: usize = recent.iter().map(|r| r.1).sum();
        assert_eq!(
            (cache.len(), cache.resident_bytes(), cache.evictions()),
            (recent.len(), total, evicted)
        );
    }
}

#[test]
fn the_largest_budget_does_not_overflow() {
    let huge = usize::MAX / 2 + 1;
    let entry = |v: u8| CachedTensor { dims: vec![huge], dtype: DType::U8, data: v };
    let mut cache: LruCache<u8> = LruCache::new(usize::MAX);
    assert_eq!(cache.insert("a", entry(1)), 0);
    // Replacing a tensor evicts nothing; two of them do not fit together.
    assert_eq!(cache.insert("a", entry(2)), 0);
    assert_eq!(cache.insert("b", entry(3)), 1);
    assert_eq!(cache.resident_bytes(), huge);
    assert!(cache.peek("a").is_none());
    assert_eq!(cache.peek("b").map(|t| t.data), Some(3));
}

#[test]
fn rows_are_dequantized_alone() {
    let weight: Vec<u8> = (0..32).map(|i| (i * 5 % 120) as u8).collect();
    let scale = [127u8, 128, 120, 130];
    let whole = dequantize_fp8_block_scale(&weight, &scale, 4, 8, (2, 4)).unwrap();
    assert!(check_layout(4, 8, (2, 4), 4).is_ok());
    let scales = decode_scales(&scale);
    let decode = |p: usize| fp8_e4m3_to_f32(weight[p]);
    for i in 0..4 {
        let row = dequantize_row(i, 4, 8, (2, 4), &scales, &decode);
        assert_eq!(row, whole[i * 8..(i + 1) * 8]);
    }
    assert_eq!(
        check_layout(4, 8, (2, 4), 3).unwrap_err(),
        LmError::ScaleLen { len: 3, tiles: 4 }
    );
    assert_eq!(
        check_layout(4, 8, (0, 4), 4).unwrap_err(),
        LmError::BlockTiling { bn: 0, bm: 4, n: 4, m: 8 }
    );
    assert_eq!(
        check_layout(4, 8, (8, 4), 4).unwrap_err(),
        LmError::BlockTiling { bn: 8, bm: 4, n: 4, m: 8 }
    );
}

#[test]
fn shapes_are_split_into_rows_and_columns() {
    assert_eq!(rows_and_cols(&[2, 3, 4]), (6, 4));
    assert_eq!(copy_dims(&[2, 3]), vec![2, 3]);
    assert_eq!(count_blocks(130, 64), 3);
    assert_eq!(count_blocks(128, 64), 2);
    assert_eq!(count_blocks(0, 64), 0);
    assert!(is_among(&vec![4, 9], 9) && !is_among(&vec![4, 9], 5));
}

fn indexer() -> Glm5NextTextIndexer {
    Glm5NextTextIndexer {
        num_heads: 1,
        head_dim: 4,
        index_topk: 2,
        index_kpool: 2,
        always_select_tail: true,
        cache: None,
    }
}

#[test]
fn later_and_padding_tokens_are_hidden() {
    let one = candle_lm::float::F32 { bits: 1f32.to_bits() };
    let zero = candle_lm::float::F32 { bits: 0 };
    let mut ix = indexer();
    ix.push_keys(1, 2, Some(&vec![vec![zero, one]])).unwrap();
    ix.push_keys(1, 2, None).unwrap();
    let seen = ix.get_visible_tokens(2);
    assert_eq!(
        seen,
        vec![vec![vec![false, true, true, false], vec![false, true, true, true]]]
    );
    ix.clear_cache();
    assert!(ix.cache.is_none());
}

#[test]
fn cleared_attention_is_fresh() {
    let attention = |layer: Option<Glm5NextTextIndexer>| -> Glm5NextTextAttention {
        let shape = candle_lm::glm5_next::attention::LinearShape { inp: 1, out: 1, bias: false };
        Glm5NextTextAttention {
            q_a_proj: shape,
            q_b_proj: shape,
            kv_a_proj: shape,
            kv_b_proj: shape,
            o_proj: shape,
            num_heads: 1,
            qk_head_dim: 1,
            qk_nope_head_dim: 1,
            v_head_dim: 1,
            kv_lora_rank: 1,
            qk_rope_head_dim: 0,
            indexer: layer,
            next_skip_topk: false,
            kv_cache: None,
        }
    };
    let mut a = attention(Some(indexer()));
    a.push_tokens(2, 3, None).unwrap();
    assert_eq!(a.kv_cache, Some((2, 3)));
    a.clear_kv_cache();
    assert_eq!(a.kv_cache, None);
    assert!(a.indexer.unwrap().cache.is_none());
}
