//! Quantized weight formats, loader planning and sparse-attention selection
//! for DeepSeek-V4 and GLM-5.3 language models.

pub mod activation;
pub mod blocks;
pub mod cache;
pub mod deepseek_v4;
pub mod dequant;
pub mod dtype;
pub mod error;
pub mod flash_attn;
pub mod float;
pub mod formats;
pub mod glm5_next;
pub mod indices;
pub mod laws;
pub mod plan;
pub mod quantized_deepseek_v4;
pub mod schema;
pub mod streaming;
pub mod text;
pub mod topk;
