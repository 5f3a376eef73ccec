//! OCR profiles and the OCR model catalog.

use vstd::prelude::*;
use crate::text::str_eq;

verus! {

pub const DEFAULT_MODEL_ID: &'static str = "unlimited-ocr-q4-k-m";
pub const PROVIDER_REPO_ID: &'static str = "sahilchachra/Unlimited-OCR-GGUF";
pub const PROVIDER_REVISION: &'static str = "main";
pub const PROVIDER_LABEL: &'static str = "Sahil Chachra Unlimited-OCR GGUF";
pub const SHARED_MMPROJ_FILE: &'static str = "mmproj-Unlimited-OCR-F16.gguf";
pub const SHARED_MMPROJ_SIZE_BYTES: u64 = 811_876_448;
pub const DEFAULT_PROFILE_ID: &'static str = "experimental-exact-prefill-q4";
pub const RETRY_PROFILE_ID: &'static str = "best-zero-empty-q4";

// ---------------------------------------------------------------------------
// Profiles

/// Decoding parameters of one OCR profile.
pub struct OcrProfileRecord {
    pub key: String,
    pub label: String,
    pub engine_name: String,
    pub description: String,
    pub default_max_tokens: u32,
    pub ngram_size: u32,
    pub ngram_window: u32,
    pub pdf_ngram_window: u32,
    pub force_prompt_eos: bool,
    pub no_image_end: bool,
}

pub struct OcrProfileView {
    pub key: Seq<char>,
    pub label: Seq<char>,
    pub engine_name: Seq<char>,
    pub description: Seq<char>,
    pub default_max_tokens: u32,
    pub ngram_size: u32,
    pub ngram_window: u32,
    pub pdf_ngram_window: u32,
    pub force_prompt_eos: bool,
    pub no_image_end: bool,
}

impl View for OcrProfileRecord {
    type V = OcrProfileView;

    open spec fn view(&self) -> OcrProfileView {
        OcrProfileView {
            key: self.key@,
            label: self.label@,
            engine_name: self.engine_name@,
            description: self.description@,
            default_max_tokens: self.default_max_tokens,
            ngram_size: self.ngram_size,
            ngram_window: self.ngram_window,
            pdf_ngram_window: self.pdf_ngram_window,
            force_prompt_eos: self.force_prompt_eos,
            no_image_end: self.no_image_end,
        }
    }
}

/// The practical profile: prompt EOS forced, no image-end token dropped.
pub open spec fn retry_profile() -> OcrProfileView {
    OcrProfileView {
        key: RETRY_PROFILE_ID@,
        label: "Practical zero-empty Q4"@,
        engine_name: "llamacpp-q4_k_m-uocr-rswa-eos-origin-ngram-default-full"@,
        description: "Current R-SWA Q4 demo default: 54/104 pass, zero empty rows, avg similarity 0.678."@,
        default_max_tokens: 8192,
        ngram_size: 35,
        ngram_window: 128,
        pdf_ngram_window: 1024,
        force_prompt_eos: true,
        no_image_end: false,
    }
}

/// The exact-prefill profile, the default one.
pub open spec fn exact_prefill_profile() -> OcrProfileView {
    OcrProfileView {
        key: DEFAULT_PROFILE_ID@,
        label: "Experimental exact-prefill Q4"@,
        engine_name: "llamacpp-q4_k_m-uocr-rswa-noimgend-noeos-full"@,
        description: "Higher avg similarity 0.719, but had 5 empty rows in full validation."@,
        default_max_tokens: 8192,
        ngram_size: 35,
        ngram_window: 128,
        pdf_ngram_window: 1024,
        force_prompt_eos: false,
        no_image_end: true,
    }
}

/// All profiles, in the order they are offered.
pub open spec fn profiles_spec() -> Seq<OcrProfileView> {
    seq![retry_profile(), exact_prefill_profile()]
}

pub open spec fn profiles_view(v: Seq<OcrProfileRecord>) -> Seq<OcrProfileView> {
    v.map_values(|p: OcrProfileRecord| p@)
}

/// The first profile, from index `i` on, whose key is `key`.
pub open spec fn profile_index(ps: Seq<OcrProfileView>, key: Seq<char>, i: int) -> Option<int>
    decreases ps.len() - i,
{
    if i < 0 || i >= ps.len() {
        None
    } else if ps[i].key == key {
        Some(i)
    } else {
        profile_index(ps, key, i + 1)
    }
}

/// The profile with key `key`, if any.
pub open spec fn find_profile_spec(key: Seq<char>) -> Option<OcrProfileView> {
    match profile_index(profiles_spec(), key, 0) {
        Some(i) => Some(profiles_spec()[i]),
        None => None,
    }
}

/// The OCR profiles the workbench offers.
pub fn ocr_profiles() -> (r: Vec<OcrProfileRecord>)
    ensures
        profiles_view(r@) == profiles_spec(),
{
    let r = vec![
        OcrProfileRecord {
            key: RETRY_PROFILE_ID.to_owned(),
            label: "Practical zero-empty Q4".to_owned(),
            engine_name: "llamacpp-q4_k_m-uocr-rswa-eos-origin-ngram-default-full".to_owned(),
            description: "Current R-SWA Q4 demo default: 54/104 pass, zero empty rows, avg similarity 0.678.".to_owned(),
            default_max_tokens: 8192,
            ngram_size: 35,
            ngram_window: 128,
            pdf_ngram_window: 1024,
            force_prompt_eos: true,
            no_image_end: false,
        },
        OcrProfileRecord {
            key: DEFAULT_PROFILE_ID.to_owned(),
            label: "Experimental exact-prefill Q4".to_owned(),
            engine_name: "llamacpp-q4_k_m-uocr-rswa-noimgend-noeos-full".to_owned(),
            description: "Higher avg similarity 0.719, but had 5 empty rows in full validation.".to_owned(),
            default_max_tokens: 8192,
            ngram_size: 35,
            ngram_window: 128,
            pdf_ngram_window: 1024,
            force_prompt_eos: false,
            no_image_end: true,
        },
    ];
    assert(profiles_view(r@) =~= profiles_spec());
    r
}

/// The profile whose key is `profile_id`.
pub fn find_profile(profile_id: &str) -> (r: Option<OcrProfileRecord>)
    ensures
        match r {
            Some(p) => find_profile_spec(profile_id@) == Some(p@),
            None => find_profile_spec(profile_id@) is None,
        },
{
    let profiles = ocr_profiles();
    let ghost ps = profiles_spec();
    let mut i: usize = 0;
    while i < profiles.len()
        invariant
            i <= profiles@.len(),
            profiles_view(profiles@) == ps,
            ps == profiles_spec(),
            profile_index(ps, profile_id@, 0) == profile_index(ps, profile_id@, i as int),
        decreases profiles@.len() - i,
    {
        assert(ps[i as int] == profiles@[i as int]@);
        if str_eq(profiles[i].key.as_str(), profile_id) {
            let mut profiles = profiles;
            let p = profiles.swap_remove(i);
            return Some(p);
        }
        i = i + 1;
    }
    None
}

// ---------------------------------------------------------------------------
// Models

/// One downloadable OCR model file.
#[derive(Clone, Copy)]
pub struct ModelCatalogEntry {
    pub model_id: &'static str,
    pub display_name: &'static str,
    pub model_file: &'static str,
    pub quantization: &'static str,
    pub quality: &'static str,
    pub hardware_tier: &'static str,
    pub notes: &'static str,
    pub bits: u8,
    pub model_size_bytes: u64,
    pub recommended: bool,
}

pub struct ModelEntryView {
    pub model_id: Seq<char>,
    pub display_name: Seq<char>,
    pub model_file: Seq<char>,
    pub quantization: Seq<char>,
    pub quality: Seq<char>,
    pub hardware_tier: Seq<char>,
    pub notes: Seq<char>,
    pub bits: u8,
    pub model_size_bytes: u64,
    pub recommended: bool,
}

impl View for ModelCatalogEntry {
    type V = ModelEntryView;

    open spec fn view(&self) -> ModelEntryView {
        model_entry_view(
            self.model_id,
            self.display_name,
            self.model_file,
            self.quantization,
            self.quality,
            self.hardware_tier,
            self.notes,
            self.bits,
            self.model_size_bytes,
            self.recommended,
        )
    }
}

pub open spec fn model_entry_view(
    model_id: &str,
    display_name: &str,
    model_file: &str,
    quantization: &str,
    quality: &str,
    hardware_tier: &str,
    notes: &str,
    bits: u8,
    model_size_bytes: u64,
    recommended: bool,
) -> ModelEntryView {
    ModelEntryView {
        model_id: model_id@,
        display_name: display_name@,
        model_file: model_file@,
        quantization: quantization@,
        quality: quality@,
        hardware_tier: hardware_tier@,
        notes: notes@,
        bits,
        model_size_bytes,
        recommended,
    }
}

impl ModelCatalogEntry {
    /// A catalog entry with the given fields.
    pub fn new(
        model_id: &'static str,
        display_name: &'static str,
        model_file: &'static str,
        quantization: &'static str,
        quality: &'static str,
        hardware_tier: &'static str,
        notes: &'static str,
        bits: u8,
        model_size_bytes: u64,
        recommended: bool,
    ) -> (r: Self)
        ensures
            r@ == model_entry_view(model_id, display_name, model_file, quantization, quality, hardware_tier, notes, bits,
                model_size_bytes, recommended),
    {
        Self {
            model_id,
            display_name,
            model_file,
            quantization,
            quality,
            hardware_tier,
            notes,
            bits,
            model_size_bytes,
            recommended,
        }
    }
}

/// The model catalog, from the largest file to the smallest.
pub open spec fn model_catalog_spec() -> Seq<ModelEntryView> {
    seq![
        model_entry_view("unlimited-ocr-bf16", "Unlimited-OCR BF16", "Unlimited-OCR-BF16.gguf", "BF16", "Reference quality", "Very high VRAM", "Largest model; use for diagnostics on high-memory GPUs.", 16, 5_876_578_080, false),
        model_entry_view("unlimited-ocr-q8-0", "Unlimited-OCR Q8_0", "Unlimited-OCR-Q8_0.gguf", "Q8_0", "Near lossless", "High VRAM", "High quality with less memory than BF16.", 8, 3_126_139_904, false),
        model_entry_view("unlimited-ocr-q6-k", "Unlimited-OCR Q6_K", "Unlimited-OCR-Q6_K.gguf", "Q6_K", "Very high quality", "Medium-high VRAM", "Good quality target when Q8 is too large.", 6, 2_613_275_904, false),
        model_entry_view("unlimited-ocr-q5-k-m", "Unlimited-OCR Q5_K_M", "Unlimited-OCR-Q5_K_M.gguf", "Q5_K_M", "High quality", "Medium VRAM", "Balanced higher-quality option.", 5, 2_219_208_704, false),
        model_entry_view("unlimited-ocr-q5-k-s", "Unlimited-OCR Q5_K_S", "Unlimited-OCR-Q5_K_S.gguf", "Q5_K_S", "High quality, smaller", "Medium VRAM", "Smaller Q5 variant.", 5, 2_098_952_704, false),
        model_entry_view(DEFAULT_MODEL_ID, "Unlimited-OCR Q4_K_M", "Unlimited-OCR-Q4_K_M.gguf", "Q4_K_M", "Recommended balance", "Most CUDA GPUs", "Default practical size and quality choice.", 4, 1_950_326_784, true),
        model_entry_view("unlimited-ocr-q4-k-s", "Unlimited-OCR Q4_K_S", "Unlimited-OCR-Q4_K_S.gguf", "Q4_K_S", "Smaller Q4", "Most CUDA GPUs", "Smaller Q4 option with modest quality cost.", 4, 1_805_289_984, false),
        model_entry_view("unlimited-ocr-iq4-nl", "Unlimited-OCR IQ4_NL", "Unlimited-OCR-IQ4_NL.gguf", "IQ4_NL", "Edge tuned", "Most CUDA GPUs", "I-quant variant tuned for edge and ARM-style targets.", 4, 1_701_901_824, false),
        model_entry_view("unlimited-ocr-iq4-xs", "Unlimited-OCR IQ4_XS", "Unlimited-OCR-IQ4_XS.gguf", "IQ4_XS", "Compact Q4", "Most CUDA GPUs", "Smaller I-quant Q4 option.", 4, 1_640_897_024, false),
        model_entry_view("unlimited-ocr-q3-k-m", "Unlimited-OCR Q3_K_M", "Unlimited-OCR-Q3_K_M.gguf", "Q3_K_M", "Compact", "Tight memory", "Use when Q4 variants do not fit.", 3, 1_553_635_584, false),
        model_entry_view("unlimited-ocr-iq3-m", "Unlimited-OCR IQ3_M", "Unlimited-OCR-IQ3_M.gguf", "IQ3_M", "Compact 3-bit", "Tight memory", "I-quant 3-bit option.", 3, 1_448_949_504, false),
        model_entry_view("unlimited-ocr-iq3-xxs", "Unlimited-OCR IQ3_XXS", "Unlimited-OCR-IQ3_XXS.gguf", "IQ3_XXS", "Very small", "Very tight memory", "Very small model with visible quality loss.", 3, 1_335_367_424, false),
        model_entry_view("unlimited-ocr-iq2-m", "Unlimited-OCR IQ2_M", "Unlimited-OCR-IQ2_M.gguf", "IQ2_M", "Smallest experimental", "Very tight memory", "Smallest option; quality tradeoffs are expected.", 2, 1_232_148_224, false)
    ]
}

pub open spec fn models_view(v: Seq<ModelCatalogEntry>) -> Seq<ModelEntryView> {
    v.map_values(|e: ModelCatalogEntry| e@)
}

/// The OCR models that can be downloaded.
pub fn model_catalog() -> (r: Vec<ModelCatalogEntry>)
    ensures
        models_view(r@) == model_catalog_spec(),
{
    let mut v: Vec<ModelCatalogEntry> = Vec::new();
    v.push(ModelCatalogEntry::new("unlimited-ocr-bf16", "Unlimited-OCR BF16", "Unlimited-OCR-BF16.gguf", "BF16", "Reference quality", "Very high VRAM", "Largest model; use for diagnostics on high-memory GPUs.", 16, 5_876_578_080, false));
    v.push(ModelCatalogEntry::new("unlimited-ocr-q8-0", "Unlimited-OCR Q8_0", "Unlimited-OCR-Q8_0.gguf", "Q8_0", "Near lossless", "High VRAM", "High quality with less memory than BF16.", 8, 3_126_139_904, false));
    v.push(ModelCatalogEntry::new("unlimited-ocr-q6-k", "Unlimited-OCR Q6_K", "Unlimited-OCR-Q6_K.gguf", "Q6_K", "Very high quality", "Medium-high VRAM", "Good quality target when Q8 is too large.", 6, 2_613_275_904, false));
    v.push(ModelCatalogEntry::new("unlimited-ocr-q5-k-m", "Unlimited-OCR Q5_K_M", "Unlimited-OCR-Q5_K_M.gguf", "Q5_K_M", "High quality", "Medium VRAM", "Balanced higher-quality option.", 5, 2_219_208_704, false));
    v.push(ModelCatalogEntry::new("unlimited-ocr-q5-k-s", "Unlimited-OCR Q5_K_S", "Unlimited-OCR-Q5_K_S.gguf", "Q5_K_S", "High quality, smaller", "Medium VRAM", "Smaller Q5 variant.", 5, 2_098_952_704, false));
    v.push(ModelCatalogEntry::new(DEFAULT_MODEL_ID, "Unlimited-OCR Q4_K_M", "Unlimited-OCR-Q4_K_M.gguf", "Q4_K_M", "Recommended balance", "Most CUDA GPUs", "Default practical size and quality choice.", 4, 1_950_326_784, true));
    v.push(ModelCatalogEntry::new("unlimited-ocr-q4-k-s", "Unlimited-OCR Q4_K_S", "Unlimited-OCR-Q4_K_S.gguf", "Q4_K_S", "Smaller Q4", "Most CUDA GPUs", "Smaller Q4 option with modest quality cost.", 4, 1_805_289_984, false));
    v.push(ModelCatalogEntry::new("unlimited-ocr-iq4-nl", "Unlimited-OCR IQ4_NL", "Unlimited-OCR-IQ4_NL.gguf", "IQ4_NL", "Edge tuned", "Most CUDA GPUs", "I-quant variant tuned for edge and ARM-style targets.", 4, 1_701_901_824, false));
    v.push(ModelCatalogEntry::new("unlimited-ocr-iq4-xs", "Unlimited-OCR IQ4_XS", "Unlimited-OCR-IQ4_XS.gguf", "IQ4_XS", "Compact Q4", "Most CUDA GPUs", "Smaller I-quant Q4 option.", 4, 1_640_897_024, false));
    v.push(ModelCatalogEntry::new("unlimited-ocr-q3-k-m", "Unlimited-OCR Q3_K_M", "Unlimited-OCR-Q3_K_M.gguf", "Q3_K_M", "Compact", "Tight memory", "Use when Q4 variants do not fit.", 3, 1_553_635_584, false));
    v.push(ModelCatalogEntry::new("unlimited-ocr-iq3-m", "Unlimited-OCR IQ3_M", "Unlimited-OCR-IQ3_M.gguf", "IQ3_M", "Compact 3-bit", "Tight memory", "I-quant 3-bit option.", 3, 1_448_949_504, false));
    v.push(ModelCatalogEntry::new("unlimited-ocr-iq3-xxs", "Unlimited-OCR IQ3_XXS", "Unlimited-OCR-IQ3_XXS.gguf", "IQ3_XXS", "Very small", "Very tight memory", "Very small model with visible quality loss.", 3, 1_335_367_424, false));
    v.push(ModelCatalogEntry::new("unlimited-ocr-iq2-m", "Unlimited-OCR IQ2_M", "Unlimited-OCR-IQ2_M.gguf", "IQ2_M", "Smallest experimental", "Very tight memory", "Smallest option; quality tradeoffs are expected.", 2, 1_232_148_224, false));
    assert(models_view(v@) =~= model_catalog_spec());
    v
}

/// The first catalog entry, from index `i` on, whose id is `id`.
pub open spec fn model_index(ms: Seq<ModelEntryView>, id: Seq<char>, i: int) -> Option<int>
    decreases ms.len() - i,
{
    if i < 0 || i >= ms.len() {
        None
    } else if ms[i].model_id == id {
        Some(i)
    } else {
        model_index(ms, id, i + 1)
    }
}

/// The catalog entry whose id is `model_id`.
pub fn find_model(model_id: &str) -> (r: Option<ModelCatalogEntry>)
    ensures
        match r {
            Some(e) => model_index(model_catalog_spec(), model_id@, 0) matches Some(i) && model_catalog_spec()[i] == e@,
            None => model_index(model_catalog_spec(), model_id@, 0) is None,
        },
{
    let models = model_catalog();
    let ghost ms = model_catalog_spec();
    let mut i: usize = 0;
    while i < models.len()
        invariant
            i <= models@.len(),
            models_view(models@) == ms,
            ms == model_catalog_spec(),
            model_index(ms, model_id@, 0) == model_index(ms, model_id@, i as int),
        decreases models@.len() - i,
    {
        assert(ms[i as int] == models@[i as int]@);
        if str_eq(models[i].model_id, model_id) {
            return Some(models[i]);
        }
        i = i + 1;
    }
    None
}

} // verus!
