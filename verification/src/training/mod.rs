//! Fine-tuning with low-rank adapters.
//!
//! The arithmetic on weights is the caller's; which examples are trained on, how they are
//! batched and when the optimizer steps is decided here. `F` is the number type of rates and
//! losses.
use vstd::prelude::*;

pub mod dataset;
pub mod support;
pub mod support_laws;
pub mod trainer;
pub mod weights;

verus! {

use crate::text::texts;

#[derive(Debug, Clone, Copy, PartialEq, Eq, Structural)]
pub enum ModelFamily {
    Qwen2,
    Llama3,
    Mistral,
}

/// Fine-tuning configuration.
#[derive(Debug)]
pub struct TrainingConfig<F> {
    /// Rank of the adapters.
    pub lora_rank: usize,
    /// Effective scale is alpha by rank.
    pub lora_alpha: F,
    pub learning_rate: F,
    /// Passes over the shard.
    pub num_epochs: usize,
    /// Sequences per step.
    pub batch_size: usize,
    /// Tokens per sequence.
    pub max_seq_len: usize,
    /// Batches whose gradients are added up before the optimizer steps.
    pub grad_accum_steps: usize,
    /// Projections with adapters.
    pub target_modules: Vec<String>,
    pub model_family: ModelFamily,
    /// Examples that are used at most; all for 0.
    pub max_examples: usize,
    /// Memory limit in gigabytes.
    pub max_memory_gb: u64,
}

impl<F> TrainingConfig<F> {
    /// The default configuration with these rates.
    pub fn default_with(lora_alpha: F, learning_rate: F) -> (c: Self)
        ensures
            c.lora_rank == 16,
            c.lora_alpha == lora_alpha,
            c.learning_rate == learning_rate,
            c.num_epochs == 3,
            c.batch_size == 1,
            c.max_seq_len == 256,
            c.grad_accum_steps == 8,
            texts(c.target_modules@) == seq!["q_proj"@, "k_proj"@, "v_proj"@, "o_proj"@],
            c.model_family == ModelFamily::Qwen2,
            c.max_examples == 0,
            c.max_memory_gb == 16,
    {
        let target_modules = vec![
            "q_proj".to_owned(),
            "k_proj".to_owned(),
            "v_proj".to_owned(),
            "o_proj".to_owned(),
        ];
        assert(texts(target_modules@) =~= seq!["q_proj"@, "k_proj"@, "v_proj"@, "o_proj"@]);
        TrainingConfig {
            lora_rank: 16,
            lora_alpha,
            learning_rate,
            num_epochs: 3,
            batch_size: 1,
            max_seq_len: 256,
            grad_accum_steps: 8,
            target_modules,
            model_family: ModelFamily::Qwen2,
            max_examples: 0,
            max_memory_gb: 16,
        }
    }
}

/// How a training job stands.
#[derive(Debug)]
pub struct TrainingJobStatus {
    pub job_id: String,
    pub status: String,
    pub shards_total: usize,
    pub shards_completed: usize,
    pub adapters_received: usize,
}

/// A shard of the dataset that a node was given.
#[derive(Debug)]
pub struct DataShard {
    pub shard_id: String,
    pub job_id: String,
    /// One example per line, as JSON.
    pub content: String,
    pub example_count: usize,
}

/// Sizes of a Qwen2 model.
#[derive(Debug)]
pub struct Qwen2Config<F> {
    pub hidden_size: usize,
    pub intermediate_size: usize,
    pub num_hidden_layers: usize,
    pub num_attention_heads: usize,
    pub num_key_value_heads: usize,
    pub vocab_size: usize,
    pub rms_norm_eps: F,
    pub rope_theta: F,
    pub max_position_embeddings: usize,
}

impl<F> Qwen2Config<F> {
    /// Qwen2.5-Coder-7B, with these constants.
    pub fn qwen25_7b(rms_norm_eps: F, rope_theta: F) -> (c: Self)
        ensures
            c == (Qwen2Config {
                hidden_size: 3584,
                intermediate_size: 18944,
                num_hidden_layers: 28,
                num_attention_heads: 28,
                num_key_value_heads: 4,
                vocab_size: 151936,
                rms_norm_eps,
                rope_theta,
                max_position_embeddings: 131072,
            }),
    {
        Qwen2Config {
            hidden_size: 3584,
            intermediate_size: 18944,
            num_hidden_layers: 28,
            num_attention_heads: 28,
            num_key_value_heads: 4,
            vocab_size: 151936,
            rms_norm_eps,
            rope_theta,
            max_position_embeddings: 131072,
        }
    }

    /// Qwen2.5-Coder-1.5B, with these constants.
    pub fn qwen25_1_5b(rms_norm_eps: F, rope_theta: F) -> (c: Self)
        ensures
            c == (Qwen2Config {
                hidden_size: 1536,
                intermediate_size: 8960,
                num_hidden_layers: 28,
                num_attention_heads: 12,
                num_key_value_heads: 2,
                vocab_size: 151936,
                rms_norm_eps,
                rope_theta,
                max_position_embeddings: 131072,
            }),
    {
        Qwen2Config {
            hidden_size: 1536,
            intermediate_size: 8960,
            num_hidden_layers: 28,
            num_attention_heads: 12,
            num_key_value_heads: 2,
            vocab_size: 151936,
            rms_norm_eps,
            rope_theta,
            max_position_embeddings: 131072,
        }
    }

    /// Width of an attention head.
    pub fn head_dim(&self) -> (n: usize)
        requires
            self.num_attention_heads > 0,
        ensures
            n == self.hidden_size / self.num_attention_heads,
    {
        self.hidden_size / self.num_attention_heads
    }
}

} // verus!
