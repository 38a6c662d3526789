//! Block skipping, masks and paging.

use candle_lm::flash_attn::{
    attended_columns, block_is_skipped, build_hetero_mask, build_indexer_mask, mask_row,
    paged_layout, skipped_blocks,
};
use candle_lm::float::F32;

/// Mask rows of a local prefix with a sliding window and a compressed suffix.
fn float_mask(
    sq: usize,
    local_len: usize,
    compressed_len: usize,
    window: usize,
    compress_rate: usize,
) -> Vec<f32> {
    let skv = local_len + compressed_len;
    let mut mask = Vec::with_capacity(sq * skv);
    for q in 0..sq {
        for j in 0..skv {
            let visible = if j < local_len {
                j <= q && j > q.saturating_sub(window)
            } else {
                let c = j - local_len;
                c < (q + 1) / compress_rate
            };
            mask.push(if visible { 0.0f32 } else { f32::NEG_INFINITY });
        }
    }
    mask
}

fn bits(mask: &[f32]) -> Vec<F32> {
    mask.iter().map(|v| F32 { bits: v.to_bits() }).collect()
}

#[derive(PartialEq, Clone, Copy)]
enum Mode {
    Dense,
    Sparse,
}

/// Online softmax with a sink over one row of keys: every column, or only those of the
/// blocks that are not masked throughout.
fn online_softmax_row(
    q: &[f32],
    k: &[f32],
    v: &[f32],
    mask: &[f32],
    sink: f32,
    scale: f32,
    skv: usize,
    d: usize,
    mode: Mode,
) -> Vec<f32> {
    let mut m = sink;
    let mut l = 1.0f32;
    let mut acc = vec![0.0f32; d];
    let columns: Vec<usize> = match mode {
        Mode::Dense => (0..skv).collect(),
        Mode::Sparse => attended_columns(&bits(mask)),
    };
    for c in columns {
        let s = if mask[c].is_finite() {
            let dot: f32 = (0..d).map(|t| q[t] * k[c * d + t]).sum();
            dot * scale + mask[c]
        } else {
            f32::NEG_INFINITY
        };
        let m_new = m.max(s);
        let rescale = (m - m_new).exp();
        l = l * rescale + (s - m_new).exp();
        for t in 0..d {
            acc[t] = acc[t] * rescale + (s - m_new).exp() * v[c * d + t];
        }
        m = m_new;
    }
    acc.iter().map(|a| a / l).collect()
}

#[test]
fn block_sparse_skip_equals_dense_cpu() {
    let sq = 8;
    let local_len = 64;
    let compressed_len = 320;
    let h = 2;
    let d = 128;
    let skv = local_len + compressed_len;
    let scale = 1.0 / (d as f32).sqrt();
    let mask = float_mask(sq, local_len, compressed_len, 64, 16);

    for qrow in 0..sq {
        let q: Vec<f32> = (0..d).map(|t| ((qrow * 17 + t) as f32) / 31.0).collect();
        let k: Vec<f32> = (0..skv * d).map(|i| (i as f32) / 40.0).collect();
        let v: Vec<f32> = (0..skv * d).map(|i| (i as f32) / 50.0).collect();
        let mask_row = &mask[qrow * skv..(qrow + 1) * skv];
        for hidx in 0..h {
            let sink = hidx as f32 * 0.5;
            let dense = online_softmax_row(&q, &k, &v, mask_row, sink, scale, skv, d, Mode::Dense);
            let sparse =
                online_softmax_row(&q, &k, &v, mask_row, sink, scale, skv, d, Mode::Sparse);
            assert_eq!(
                dense, sparse,
                "sparse (skip masked blocks) deviates from dense at q={qrow} h={hidx}"
            );
        }
    }
}

fn sees(v: F32) -> bool {
    f32::from_bits(v.bits) == 0.0
}

#[test]
fn a_window_and_compressed_entries_are_seen() {
    let (sq, local, comp, window, rate) = (8, 10, 4, 4, 4);
    let mask = build_hetero_mask(sq, local, comp, window, rate);
    assert_eq!(mask.len(), sq * (local + comp));
    for q in 0..sq {
        let row = &mask[q * 14..(q + 1) * 14];
        let seen: Vec<usize> = (0..14).filter(|j| sees(row[*j])).collect();
        let mut want: Vec<usize> = (q.saturating_sub(3)..=q).collect();
        want.extend((0..(q + 1) / 4).map(|c| local + c));
        assert_eq!(seen, want, "query {q}");
        assert!(row.iter().all(|v| v.bits == 0 || f32::from_bits(v.bits) == f32::NEG_INFINITY));
    }
    // The first query sees itself.
    assert!(sees(mask[0]));
}

#[test]
fn selected_blocks_are_seen() {
    let selected = vec![vec![1], vec![], vec![0, 2]];
    let mask = build_indexer_mask(3, 6, 2, 2, &selected);
    let rows: Vec<Vec<usize>> = (0..3)
        .map(|q| (0..9).filter(|j| sees(mask[q * 9 + j])).collect())
        .collect();
    assert_eq!(rows[0], vec![0, 5, 6]);
    assert_eq!(rows[1], vec![0, 1]);
    assert_eq!(rows[2], vec![1, 2, 3, 4, 7, 8]);
}

#[test]
fn masked_blocks_are_counted() {
    let mut row = vec![f32::NEG_INFINITY; 150];
    row[70] = 0.0;
    let row = bits(&row);
    assert!(block_is_skipped(&row, 0));
    assert!(!block_is_skipped(&row, 1));
    assert!(block_is_skipped(&row, 2));
    assert_eq!(skipped_blocks(&row), (2, 3));
    assert_eq!(attended_columns(&row), (64..128).collect::<Vec<usize>>());
    assert_eq!(skipped_blocks(&[]), (0, 0));
    assert!(attended_columns(&[]).is_empty());
}

#[test]
fn decoding_attends_to_the_last_tokens() {
    let row = mask_row(5, 2);
    let seen: Vec<bool> = row.iter().map(|v| sees(*v)).collect();
    assert_eq!(seen, vec![false, false, false, true, true]);
    assert!(mask_row(2, 7).iter().all(|v| sees(*v)));
    assert!(mask_row(0, 7).is_empty());
}

#[test]
fn sequences_are_laid_out_in_pages() {
    let layout = paged_layout(&vec![80, 200, 150], 64);
    assert_eq!(
        layout.block_table,
        vec![vec![0, 1, -1, -1], vec![2, 3, 4, 5], vec![6, 7, 8, -1]]
    );
    assert_eq!(layout.cu_seqlens, vec![0, 80, 280, 430]);
    assert_eq!(layout.num_blocks, 9);
}

#[test]
fn tokens_do_not_share_a_slot() {
    let lens = vec![5usize, 0, 4, 7];
    let page = 4usize;
    let layout = paged_layout(&lens, page);
    let mut used = vec![false; layout.num_blocks * page];
    for (b, len) in lens.iter().enumerate() {
        for j in 0..*len {
            let slot = layout.block_table[b][j / page] as usize * page + j % page;
            assert!(!used[slot]);
            used[slot] = true;
        }
    }
}
