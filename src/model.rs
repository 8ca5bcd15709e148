//! Model descriptions held in the provider configuration. Floating-point
//! parameters are kept as their IEEE 754 single-precision bit patterns; the
//! library only carries them.

use vstd::prelude::*;

verus! {

#[derive(Debug, Clone, Copy, PartialEq, Eq, Structural)]
pub enum TextModelCapability {
    FIM,
    ToolUse,
    Reasoning,
}

#[derive(Debug, Clone)]
pub struct ModelMetadata {
    pub name: String,
    pub display_name: String,
    pub creator: Option<String>,
    pub version: Option<String>,
    pub description: Option<String>,
}

/// Sampling parameters; `temperature`, `top_p`, `presence_penalty` and
/// `frequency_penalty` are `f32` bit patterns.
#[derive(Debug, Clone)]
pub struct TextGenerationParams {
    pub temperature: Option<u32>,
    pub top_p: Option<u32>,
    pub top_k: Option<u32>,
    pub max_tokens: Option<i32>,
    pub presence_penalty: Option<u32>,
    pub frequency_penalty: Option<u32>,
    pub stop_sequences: Option<Vec<String>>,
    pub seed: Option<u64>,
}

/// Image parameters; `cfg_scale` is an `f32` bit pattern.
#[derive(Debug, Clone)]
pub struct ImageGenerationParams {
    pub width: u32,
    pub height: u32,
    pub steps: u32,
    pub cfg_scale: u32,
    pub sampler: Option<String>,
    pub style_preset: Option<String>,
}

#[derive(Debug, Clone, Copy)]
pub struct EmbeddingParams {
    pub embedding_dim: Option<usize>,
    pub normalize: bool,
    pub truncate: bool,
}

/// Reranker parameters; `score_threshold` is an `f32` bit pattern.
#[derive(Debug, Clone, Copy)]
pub struct RerankerParams {
    pub top_n: Option<usize>,
    pub return_documents: bool,
    pub score_threshold: Option<u32>,
}

#[derive(Debug, Clone, Copy)]
pub struct VisionSupport {
    pub context_window: Option<u32>,
    pub max_resolution: Option<(u32, u32)>,
}

/// Audio support; `max_duration` is an `f32` bit pattern.
#[derive(Debug, Clone, Copy)]
pub struct AudioSupport {
    pub sample_rate: Option<u32>,
    pub max_duration: Option<u32>,
}

#[derive(Debug, Clone)]
pub struct TextSupport {
    pub context_window: u32,
    pub languages: Vec<String>,
}

#[derive(Debug, Clone)]
pub struct MultimodalConfig {
    pub vision: Option<VisionSupport>,
    pub audio: Option<AudioSupport>,
    pub text: Option<TextSupport>,
}

#[derive(Debug, Clone)]
#[allow(inconsistent_fields)]
pub enum ModelInfo {
    TextGeneration {
        parameters: TextGenerationParams,
        capabilities: Vec<TextModelCapability>,
        multimodal: Option<MultimodalConfig>,
    },
    ImageGeneration { parameters: ImageGenerationParams },
    Embedding { parameters: EmbeddingParams },
    Reranker { parameters: RerankerParams },
    Audio,
}

#[derive(Debug, Clone)]
pub struct Model {
    pub metadata: ModelMetadata,
    pub model_info: ModelInfo,
    pub tokenizer: Option<String>,
    pub max_input_size: usize,
    pub api_endpoint: Option<String>,
}

pub open spec fn same_list(a: Option<Vec<String>>, b: Option<Vec<String>>) -> bool {
    match (a, b) {
        (Some(x), Some(y)) => x@ == y@,
        (None, None) => true,
        _ => false,
    }
}

pub open spec fn same_text_params(a: TextGenerationParams, b: TextGenerationParams) -> bool {
    &&& a.temperature == b.temperature
    &&& a.top_p == b.top_p
    &&& a.top_k == b.top_k
    &&& a.max_tokens == b.max_tokens
    &&& a.presence_penalty == b.presence_penalty
    &&& a.frequency_penalty == b.frequency_penalty
    &&& same_list(a.stop_sequences, b.stop_sequences)
    &&& a.seed == b.seed
}

pub open spec fn same_text_support(a: TextSupport, b: TextSupport) -> bool {
    a.context_window == b.context_window && a.languages@ == b.languages@
}

pub open spec fn same_multimodal(a: MultimodalConfig, b: MultimodalConfig) -> bool {
    &&& a.vision == b.vision
    &&& a.audio == b.audio
    &&& match (a.text, b.text) {
        (Some(x), Some(y)) => same_text_support(x, y),
        (None, None) => true,
        _ => false,
    }
}

pub open spec fn same_info(a: ModelInfo, b: ModelInfo) -> bool {
    match (a, b) {
        (
            ModelInfo::TextGeneration { parameters: pa, capabilities: ca, multimodal: ma },
            ModelInfo::TextGeneration { parameters: pb, capabilities: cb, multimodal: mb },
        ) => {
            &&& same_text_params(pa, pb)
            &&& ca@ == cb@
            &&& match (ma, mb) {
                (Some(x), Some(y)) => same_multimodal(x, y),
                (None, None) => true,
                _ => false,
            }
        },
        (ModelInfo::ImageGeneration { parameters: pa }, ModelInfo::ImageGeneration { parameters: pb }) => pa
            == pb,
        (ModelInfo::Embedding { parameters: pa }, ModelInfo::Embedding { parameters: pb }) => pa == pb,
        (ModelInfo::Reranker { parameters: pa }, ModelInfo::Reranker { parameters: pb }) => pa == pb,
        (ModelInfo::Audio, ModelInfo::Audio) => true,
        _ => false,
    }
}

/// Two models that hold the same values.
pub open spec fn same_model(a: Model, b: Model) -> bool {
    &&& a.metadata == b.metadata
    &&& same_info(a.model_info, b.model_info)
    &&& a.tokenizer == b.tokenizer
    &&& a.max_input_size == b.max_input_size
    &&& a.api_endpoint == b.api_endpoint
}

fn copy_text(o: &Option<String>) -> (r: Option<String>)
    ensures
        r == *o,
{
    match o {
        Some(s) => Some(s.clone()),
        None => None,
    }
}

fn copy_list(v: &Vec<String>) -> (r: Vec<String>)
    ensures
        r@ == v@,
{
    let r = v.clone();
    assert(r@ =~= v@);
    r
}

fn copy_caps(v: &Vec<TextModelCapability>) -> (r: Vec<TextModelCapability>)
    ensures
        r@ == v@,
{
    let mut r: Vec<TextModelCapability> = Vec::new();
    let mut i: usize = 0;
    while i < v.len()
        invariant
            i <= v.len(),
            r@ == v@.take(i as int),
        decreases v.len() - i,
    {
        r.push(v[i]);
        assert(r@ =~= v@.take(i + 1));
        i = i + 1;
    }
    assert(r@ =~= v@);
    r
}

impl ModelMetadata {
    pub fn copy(&self) -> (r: Self)
        ensures
            r == *self,
    {
        ModelMetadata {
            name: self.name.clone(),
            display_name: self.display_name.clone(),
            creator: copy_text(&self.creator),
            version: copy_text(&self.version),
            description: copy_text(&self.description),
        }
    }
}

impl TextSupport {
    pub fn copy(&self) -> (r: Self)
        ensures
            same_text_support(r, *self),
    {
        TextSupport { context_window: self.context_window, languages: copy_list(&self.languages) }
    }
}

impl ModelInfo {
    pub fn copy(&self) -> (r: Self)
        ensures
            same_info(r, *self),
    {
        match self {
            ModelInfo::TextGeneration { parameters, capabilities, multimodal } => {
                let p = TextGenerationParams {
                    temperature: parameters.temperature,
                    top_p: parameters.top_p,
                    top_k: parameters.top_k,
                    max_tokens: parameters.max_tokens,
                    presence_penalty: parameters.presence_penalty,
                    frequency_penalty: parameters.frequency_penalty,
                    stop_sequences: match &parameters.stop_sequences {
                        Some(v) => Some(copy_list(v)),
                        None => None,
                    },
                    seed: parameters.seed,
                };
                let m = match multimodal {
                    Some(mm) => Some(
                        MultimodalConfig {
                            vision: mm.vision,
                            audio: mm.audio,
                            text: match &mm.text {
                                Some(t) => Some(t.copy()),
                                None => None,
                            },
                        },
                    ),
                    None => None,
                };
                ModelInfo::TextGeneration { parameters: p, capabilities: copy_caps(capabilities), multimodal: m }
            },
            ModelInfo::ImageGeneration { parameters } => ModelInfo::ImageGeneration {
                parameters: ImageGenerationParams {
                    width: parameters.width,
                    height: parameters.height,
                    steps: parameters.steps,
                    cfg_scale: parameters.cfg_scale,
                    sampler: copy_text(&parameters.sampler),
                    style_preset: copy_text(&parameters.style_preset),
                },
            },
            ModelInfo::Embedding { parameters } => ModelInfo::Embedding { parameters: *parameters },
            ModelInfo::Reranker { parameters } => ModelInfo::Reranker { parameters: *parameters },
            ModelInfo::Audio => ModelInfo::Audio,
        }
    }
}

impl Model {
    pub fn copy(&self) -> (r: Self)
        ensures
            same_model(r, *self),
    {
        Model {
            metadata: self.metadata.copy(),
            model_info: self.model_info.copy(),
            tokenizer: copy_text(&self.tokenizer),
            max_input_size: self.max_input_size,
            api_endpoint: copy_text(&self.api_endpoint),
        }
    }
}

} // verus!
