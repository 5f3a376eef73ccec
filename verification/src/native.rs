//! Rules around the native libraries: library names, load order, runtime
//! preference, pooling modes, batch sizes, prompts and embedding splits.

use vstd::prelude::*;
use crate::config::{join_path, joined};
use crate::runtime::packaged_runtime_path;
use crate::ocr_page::is_byte_boundary;
use crate::order::{sort_texts_by_rank, sorted_by_rank, texts_view};
use crate::runtime::TargetPlatform;
use crate::text::{
    append_str, char_width, char_width_exec, chars_of, is_ws, is_ws_exec, occurs_at, occurs_at_exec, str_eq, utf8_len,
    lemma_utf8_len_prefix_mono, lemma_utf8_len_bounds,
};

verus! {

/// `s` starts with `p`.
pub open spec fn starts_with(s: Seq<char>, p: Seq<char>) -> bool {
    p.len() <= s.len() && s.subrange(0, p.len() as int) == p
}

/// `s` ends with `p`.
pub open spec fn ends_with(s: Seq<char>, p: Seq<char>) -> bool {
    p.len() <= s.len() && s.subrange(s.len() - p.len(), s.len() as int) == p
}

/// Whether `s` starts with `p`.
pub fn starts_with_exec(s: &str, p: &str) -> (b: bool)
    ensures
        b == starts_with(s@, p@),
{
    let v = chars_of(s);
    let w = chars_of(p);
    if w.len() > v.len() {
        return false;
    }
    occurs_at_exec(&v, 0, &w)
}

/// Whether `s` ends with `p`.
pub fn ends_with_exec(s: &str, p: &str) -> (b: bool)
    ensures
        b == ends_with(s@, p@),
{
    let v = chars_of(s);
    let w = chars_of(p);
    if w.len() > v.len() {
        return false;
    }
    occurs_at_exec(&v, v.len() - w.len(), &w)
}

// ---------------------------------------------------------------------------
// macOS preload order

/// Where a sibling library of the OCR runtime comes in the macOS preload
/// order: the ggml base first, then ggml, its backends, llama, mtmd, and the
/// llama common library; anything else last.
pub open spec fn preload_rank_spec(name: Seq<char>) -> u8 {
    if starts_with(name, "libggml-base"@) {
        0
    } else if name == "libggml.dylib"@ || starts_with(name, "libggml."@) {
        1
    } else if starts_with(name, "libggml-"@) {
        2
    } else if starts_with(name, "libllama."@) || name == "libllama.dylib"@ {
        3
    } else if starts_with(name, "libmtmd."@) || name == "libmtmd.dylib"@ {
        4
    } else if starts_with(name, "libllama-common"@) {
        5
    } else {
        6
    }
}

/// The preload rank of a library file name.
pub fn macos_dylib_preload_rank(name: &str) -> (r: u8)
    ensures
        r == preload_rank_spec(name@),
{
    if starts_with_exec(name, "libggml-base") {
        0
    } else if str_eq(name, "libggml.dylib") || starts_with_exec(name, "libggml.") {
        1
    } else if starts_with_exec(name, "libggml-") {
        2
    } else if starts_with_exec(name, "libllama.") || str_eq(name, "libllama.dylib") {
        3
    } else if starts_with_exec(name, "libmtmd.") || str_eq(name, "libmtmd.dylib") {
        4
    } else if starts_with_exec(name, "libllama-common") {
        5
    } else {
        6
    }
}

/// Orders the sibling libraries to preload on macOS: by preload rank, then by name.
pub fn preload_order(names: Vec<String>) -> (r: Vec<String>)
    ensures
        sorted_by_rank(texts_view(r@), texts_view(names@), |n: Seq<char>| preload_rank_spec(n)),
{
    let mut ranks: Vec<u8> = Vec::new();
    let mut i: usize = 0;
    while i < names.len()
        invariant
            i <= names@.len(),
            ranks@.len() == i,
            forall|k: int| 0 <= k < i ==> #[trigger] ranks@[k] == preload_rank_spec(names@[k]@),
        decreases names@.len() - i,
    {
        ranks.push(macos_dylib_preload_rank(names[i].as_str()));
        i = i + 1;
    }
    sort_texts_by_rank(names, ranks, Ghost(|n: Seq<char>| preload_rank_spec(n)))
}

// ---------------------------------------------------------------------------
// Integers across the native boundary

/// `value` as an `i32`, or `i32::MAX` when it does not fit.
pub fn u32_to_i32_saturating(value: u32) -> (r: i32)
    ensures
        r == if value <= i32::MAX { value as i32 } else { i32::MAX },
{
    if value <= i32::MAX as u32 {
        value as i32
    } else {
        i32::MAX
    }
}

// ---------------------------------------------------------------------------
// llama.cpp runtime

/// The llama.cpp library file name on `target`.
pub fn llama_library_name(target: TargetPlatform) -> (r: &'static str)
    ensures
        r@ == match target {
            TargetPlatform::WindowsArm64 | TargetPlatform::WindowsX64 => "llama.dll"@,
            TargetPlatform::MacOs => "libllama.dylib"@,
            _ => "libllama.so"@,
        },
{
    match target {
        TargetPlatform::WindowsArm64 | TargetPlatform::WindowsX64 => "llama.dll",
        TargetPlatform::MacOs => "libllama.dylib",
        _ => "libllama.so",
    }
}

/// The rank of a packaged runtime when looking for llama.cpp.
pub open spec fn runtime_rank_spec(runtime_id: Seq<char>, preferred: Option<Seq<char>>) -> u8 {
    if preferred == Some(runtime_id) {
        0
    } else if ends_with(runtime_id, "-cpu"@) {
        1
    } else {
        2
    }
}

pub open spec fn opt_str_view(o: Option<&str>) -> Option<Seq<char>> {
    match o {
        Some(s) => Some(s@),
        None => None,
    }
}

/// Orders packaged runtimes for the llama.cpp search: the preferred one,
/// then CPU runtimes, then the others, each group by id.
pub fn llama_runtime_search_order(runtime_ids: Vec<String>, preferred_runtime_id: Option<&str>) -> (r: Vec<String>)
    ensures
        sorted_by_rank(texts_view(r@), texts_view(runtime_ids@),
            |id: Seq<char>| runtime_rank_spec(id, opt_str_view(preferred_runtime_id))),
{
    let ghost pref = opt_str_view(preferred_runtime_id);
    let mut ranks: Vec<u8> = Vec::new();
    let mut i: usize = 0;
    while i < runtime_ids.len()
        invariant
            i <= runtime_ids@.len(),
            pref == opt_str_view(preferred_runtime_id),
            ranks@.len() == i,
            forall|k: int| 0 <= k < i ==> #[trigger] ranks@[k] == runtime_rank_spec(runtime_ids@[k]@, pref),
        decreases runtime_ids@.len() - i,
    {
        let (rank, _) = runtime_rank(runtime_ids[i].as_str(), preferred_runtime_id);
        ranks.push(rank);
        i = i + 1;
    }
    sort_texts_by_rank(runtime_ids, ranks, Ghost(|id: Seq<char>| runtime_rank_spec(id, pref)))
}

/// The sort key of a packaged runtime when looking for llama.cpp: the
/// preferred runtime first, then CPU runtimes, then the others; by id within each.
pub fn runtime_rank(runtime_id: &str, preferred_runtime_id: Option<&str>) -> (r: (u8, String))
    ensures
        r.1@ == runtime_id@,
        r.0 == runtime_rank_spec(runtime_id@, opt_str_view(preferred_runtime_id)),
{
    let preferred = match preferred_runtime_id {
        Some(p) => str_eq(p, runtime_id),
        None => false,
    };
    if preferred {
        (0, runtime_id.to_owned())
    } else if ends_with_exec(runtime_id, "-cpu") {
        (1, runtime_id.to_owned())
    } else {
        (2, runtime_id.to_owned())
    }
}

/// The places of `lib` in the packaged runtimes `ids`, in order.
pub open spec fn packaged_llama_paths(root: Seq<char>, ids: Seq<Seq<char>>, lib: Seq<char>, sep: char) -> Seq<Seq<char>> {
    ids.map_values(|id: Seq<char>| packaged_runtime_path(root, id, lib, sep))
}

/// `s` with each item only where it first occurs.
pub open spec fn without_repeats(s: Seq<Seq<char>>) -> Seq<Seq<char>>
    decreases s.len(),
{
    if s.len() == 0 {
        seq![]
    } else if s.drop_last().contains(s.last()) {
        without_repeats(s.drop_last())
    } else {
        without_repeats(s.drop_last()).push(s.last())
    }
}

proof fn lemma_without_repeats_contains(s: Seq<Seq<char>>, x: Seq<char>)
    ensures
        without_repeats(s).contains(x) == s.contains(x),
    decreases s.len(),
{
    if s.len() > 0 {
        let d = s.drop_last();
        lemma_without_repeats_contains(d, x);
        lemma_without_repeats_contains(d, s.last());
        if s.contains(x) {
            let w = choose|w: int| 0 <= w < s.len() && s[w] == x;
            if w < d.len() {
                assert(d[w] == x);
            }
        }
        if d.contains(x) {
            let w = choose|w: int| 0 <= w < d.len() && d[w] == x;
            assert(s[w] == x);
        }
        if !d.contains(s.last()) {
            let r = without_repeats(d).push(s.last());
            if r.contains(x) {
                let w = choose|w: int| 0 <= w < r.len() && r[w] == x;
                if w < r.len() - 1 {
                    assert(without_repeats(d)[w] == x);
                }
            }
            if without_repeats(d).contains(x) {
                let w = choose|w: int| 0 <= w < without_repeats(d).len() && without_repeats(d)[w] == x;
                assert(r[w] == x);
            }
            assert(r[r.len() - 1] == s.last());
        }
        assert(s[s.len() - 1] == s.last());
    }
}

/// The fixed places of the llama.cpp library `lib` under `root`: the build
/// trees of a source checkout, a bundled copy, and the root itself.
pub open spec fn fixed_llama_paths(root: Seq<char>, lib: Seq<char>, sep: char) -> Seq<Seq<char>> {
    let third = joined(root, "thirdparty"@, sep);
    let build_bin = joined(joined(joined(third, "llama.cpp"@, sep), "build"@, sep), "bin"@, sep);
    seq![
        joined(joined(build_bin, "Release"@, sep), lib, sep),
        joined(build_bin, lib, sep),
        joined(joined(joined(third, "llama"@, sep), "bin"@, sep), lib, sep),
        joined(root, lib, sep),
    ]
}

fn contains_text(v: &Vec<String>, t: &str) -> (b: bool)
    ensures
        b == texts_view(v@).contains(t@),
{
    let mut i: usize = 0;
    while i < v.len()
        invariant
            i <= v@.len(),
            forall|k: int| 0 <= k < i ==> (#[trigger] v@[k])@ != t@,
        decreases v@.len() - i,
    {
        if str_eq(v[i].as_str(), t) {
            proof {
                assert(texts_view(v@)[i as int] == t@);
            }
            return true;
        }
        i = i + 1;
    }
    proof {
        if texts_view(v@).contains(t@) {
            let w = choose|w: int| 0 <= w < texts_view(v@).len() && texts_view(v@)[w] == t@;
            assert(v@[w]@ == t@);
        }
    }
    false
}

/// The places the llama.cpp library `library_name` is looked for, in order:
/// in each packaged runtime under `app_root/thirdparty/uocr-runtime` (whose
/// directory names are `runtime_dirs`), ordered as `llama_runtime_search_order`
/// orders them and each place once, then the fixed places under `app_root`.
pub fn llama_library_candidates(
    app_root: &str,
    runtime_dirs: Vec<String>,
    preferred_runtime_id: Option<&str>,
    library_name: &str,
    sep: char,
) -> (r: Vec<String>)
    ensures
        exists|ids: Seq<Seq<char>>|
            sorted_by_rank(
                ids,
                texts_view(runtime_dirs@),
                |id: Seq<char>| runtime_rank_spec(id, opt_str_view(preferred_runtime_id)),
            ) && #[trigger] texts_view(r@) == without_repeats(packaged_llama_paths(app_root@, ids, library_name@, sep))
                + fixed_llama_paths(app_root@, library_name@, sep),
{
    let sorted = llama_runtime_search_order(runtime_dirs, preferred_runtime_id);
    let ghost ids = texts_view(sorted@);
    let ghost paths = packaged_llama_paths(app_root@, ids, library_name@, sep);
    let third = join_path(app_root, "thirdparty", sep);
    let runtimes = join_path(third.as_str(), "uocr-runtime", sep);
    let mut out: Vec<String> = Vec::new();
    let mut k: usize = 0;
    proof {
        assert(paths.take(0) =~= Seq::<Seq<char>>::empty());
    }
    while k < sorted.len()
        invariant
            k <= sorted@.len(),
            ids == texts_view(sorted@),
            paths == packaged_llama_paths(app_root@, ids, library_name@, sep),
            third@ == joined(app_root@, "thirdparty"@, sep),
            runtimes@ == joined(third@, "uocr-runtime"@, sep),
            texts_view(out@) == without_repeats(paths.take(k as int)),
        decreases sorted@.len() - k,
    {
        let dir = join_path(runtimes.as_str(), sorted[k].as_str(), sep);
        let bin = join_path(dir.as_str(), "bin", sep);
        let candidate = join_path(bin.as_str(), library_name, sep);
        proof {
            assert(candidate@ == paths[k as int]);
            assert(paths.take(k as int + 1).drop_last() =~= paths.take(k as int));
            assert(paths.take(k as int + 1).last() == paths[k as int]);
            lemma_without_repeats_contains(paths.take(k as int), candidate@);
        }
        if !contains_text(&out, candidate.as_str()) {
            let ghost before = out@;
            out.push(candidate);
            proof {
                assert(texts_view(out@) =~= texts_view(before).push(paths[k as int]));
            }
        }
        k = k + 1;
    }
    proof {
        assert(paths.take(sorted@.len() as int) =~= paths);
    }
    let llama = join_path(third.as_str(), "llama.cpp", sep);
    let build = join_path(llama.as_str(), "build", sep);
    let build_bin = join_path(build.as_str(), "bin", sep);
    let release = join_path(build_bin.as_str(), "Release", sep);
    let bundled = join_path(third.as_str(), "llama", sep);
    let bundled_bin = join_path(bundled.as_str(), "bin", sep);
    let fixed = vec![
        join_path(release.as_str(), library_name, sep),
        join_path(build_bin.as_str(), library_name, sep),
        join_path(bundled_bin.as_str(), library_name, sep),
        join_path(app_root, library_name, sep),
    ];
    let ghost packaged = texts_view(out@);
    let mut t: usize = 0;
    while t < fixed.len()
        invariant
            t <= fixed@.len(),
            texts_view(out@) == packaged + texts_view(fixed@).take(t as int),
        decreases fixed@.len() - t,
    {
        let ghost o = out@;
        out.push(fixed[t].clone());
        proof {
            assert(texts_view(out@) =~= texts_view(o).push(fixed@[t as int]@));
            assert(texts_view(fixed@).take(t as int + 1) =~= texts_view(fixed@).take(t as int).push(fixed@[t as int]@));
        }
        t = t + 1;
    }
    proof {
        assert(texts_view(fixed@).take(4) =~= texts_view(fixed@));
        assert(texts_view(fixed@) =~= fixed_llama_paths(app_root@, library_name@, sep));
    }
    out
}

/// How token embeddings are pooled into one vector.
#[derive(Clone, Copy, PartialEq, Eq, Structural, Debug)]
pub enum PoolingType {
    Mean,
    Cls,
    Last,
}

/// The pooling type a catalog name stands for.
pub open spec fn pooling_of(name: Seq<char>) -> Option<PoolingType> {
    if name == "mean"@ {
        Some(PoolingType::Mean)
    } else if name == "cls"@ {
        Some(PoolingType::Cls)
    } else if name == "last"@ {
        Some(PoolingType::Last)
    } else {
        None
    }
}

impl PoolingType {
    /// Reads the pooling type named in the model catalog.
    pub fn from_catalog(value: &str) -> (r: Result<PoolingType, crate::workbench::AppError>)
        ensures
            match pooling_of(value@) {
                Some(p) => r matches Ok(q) && q == p,
                None => r matches Err(crate::workbench::AppError::BadRequest(m))
                    && m@ == "unsupported llama.cpp embedding pooling type: "@ + value@,
            },
    {
        if str_eq(value, "mean") {
            Ok(PoolingType::Mean)
        } else if str_eq(value, "cls") {
            Ok(PoolingType::Cls)
        } else if str_eq(value, "last") {
            Ok(PoolingType::Last)
        } else {
            let mut m = "unsupported llama.cpp embedding pooling type: ".to_owned();
            append_str(&mut m, value);
            Err(crate::workbench::AppError::BadRequest(m))
        }
    }

    /// The number llama.cpp uses for this pooling type.
    pub fn ffi_value(self) -> (r: i32)
        ensures
            r == match self {
                PoolingType::Mean => 1i32,
                PoolingType::Cls => 2i32,
                PoolingType::Last => 3i32,
            },
    {
        match self {
            PoolingType::Mean => 1,
            PoolingType::Cls => 2,
            PoolingType::Last => 3,
        }
    }
}

/// The tuned llama.cpp parameters of an embedding model.
pub struct LlamaEmbeddingProfile {
    pub model_id: String,
    pub model_path: String,
    pub library_path: String,
    pub dimension: u32,
    pub context_tokens: u32,
    pub pooling: PoolingType,
    pub normalize: bool,
    pub query_prefix: String,
    pub document_prefix: String,
    pub n_gpu_layers: i32,
    pub n_batch: u32,
    pub n_ubatch: u32,
}

impl LlamaEmbeddingProfile {
    /// How many tokens one encoder batch may hold: the larger of the two
    /// batch sizes, no more than the context, and at least one.
    pub fn effective_batch_tokens(&self) -> (r: u32)
        ensures
            r == {
                let b = if self.n_batch >= self.n_ubatch { self.n_batch } else { self.n_ubatch };
                let c = if self.context_tokens <= b { self.context_tokens } else { b };
                if c >= 1 { c } else { 1u32 }
            },
            r >= 1,
            r <= self.context_tokens || self.context_tokens == 0,
    {
        let b = if self.n_batch >= self.n_ubatch { self.n_batch } else { self.n_ubatch };
        let c = if self.context_tokens <= b { self.context_tokens } else { b };
        if c >= 1 { c } else { 1 }
    }
}

/// The llama.cpp settings a catalog model row carries, as the numbers its
/// parameter object holds under `n_gpu_layers`, `n_batch` and `n_ubatch`.
pub struct LlamaParams {
    pub n_gpu_layers: Option<i64>,
    pub n_batch: Option<u64>,
    pub n_ubatch: Option<u64>,
}

/// An embedding model as the catalog stores it.
pub struct EmbeddingModelRow {
    pub model_id: String,
    pub filename: String,
    pub dimension: u32,
    pub context_tokens: u32,
    pub pooling: String,
    pub normalize: bool,
    pub query_prefix: String,
    pub document_prefix: String,
    pub llama_params: LlamaParams,
}

/// A stored setting when it fits an `i32`, else `default`.
pub open spec fn i32_or(v: Option<i64>, default: i32) -> i32 {
    match v {
        Some(x) => if i32::MIN <= x <= i32::MAX { x as i32 } else { default },
        None => default,
    }
}

/// A stored setting when it fits a `u32`, else `default`.
pub open spec fn u32_or(v: Option<u64>, default: u32) -> u32 {
    match v {
        Some(x) => if x <= u32::MAX { x as u32 } else { default },
        None => default,
    }
}

fn i32_setting(v: Option<i64>, default: i32) -> (r: i32)
    ensures
        r == i32_or(v, default),
{
    match v {
        Some(x) => if x >= -2147483648i64 && x <= 2147483647i64 { x as i32 } else { default },
        None => default,
    }
}

fn u32_setting(v: Option<u64>, default: u32) -> (r: u32)
    ensures
        r == u32_or(v, default),
{
    match v {
        Some(x) => if x <= 4294967295u64 { x as u32 } else { default },
        None => default,
    }
}

/// The embedding profile of a catalog model: its model file at `model_path`
/// (or the error found resolving it), the llama.cpp library at `library_path`
/// (an error when none was found), its pooling type, and its llama.cpp
/// settings, each defaulting (99 GPU layers, batches of 512 and 256) when
/// missing or out of range.
pub fn profile_from_model_row(
    row: &EmbeddingModelRow,
    model_path: Result<String, crate::workbench::AppError>,
    library_path: Option<String>,
) -> (r: Result<LlamaEmbeddingProfile, crate::workbench::AppError>)
    ensures
        model_path matches Err(e) ==> r == Err::<LlamaEmbeddingProfile, crate::workbench::AppError>(e),
        model_path is Ok && library_path is None ==> (r matches Err(crate::workbench::AppError::BadRequest(m))
            && m@ == "llama.cpp runtime library was not found"@),
        model_path is Ok && library_path is Some && pooling_of(row.pooling@) is None ==> (r matches Err(
            crate::workbench::AppError::BadRequest(m),
        ) && m@ == "unsupported llama.cpp embedding pooling type: "@ + row.pooling@),
        model_path is Ok && library_path is Some && pooling_of(row.pooling@) is Some ==> (r matches Ok(p) && {
            &&& p.model_id@ == row.model_id@
            &&& p.model_path == model_path->Ok_0
            &&& p.library_path == library_path->0
            &&& p.dimension == row.dimension
            &&& p.context_tokens == row.context_tokens
            &&& Some(p.pooling) == pooling_of(row.pooling@)
            &&& p.normalize == row.normalize
            &&& p.query_prefix@ == row.query_prefix@
            &&& p.document_prefix@ == row.document_prefix@
            &&& p.n_gpu_layers == i32_or(row.llama_params.n_gpu_layers, 99)
            &&& p.n_batch == u32_or(row.llama_params.n_batch, 512)
            &&& p.n_ubatch == u32_or(row.llama_params.n_ubatch, 256)
        }),
{
    let model_path = match model_path {
        Ok(p) => p,
        Err(e) => {
            return Err(e);
        },
    };
    let library_path = match library_path {
        Some(p) => p,
        None => {
            return Err(crate::workbench::AppError::BadRequest("llama.cpp runtime library was not found".to_owned()));
        },
    };
    let pooling = match PoolingType::from_catalog(row.pooling.as_str()) {
        Ok(p) => p,
        Err(e) => {
            return Err(e);
        },
    };
    Ok(LlamaEmbeddingProfile {
        model_id: row.model_id.clone(),
        model_path,
        library_path,
        dimension: row.dimension,
        context_tokens: row.context_tokens,
        pooling,
        normalize: row.normalize,
        query_prefix: row.query_prefix.clone(),
        document_prefix: row.document_prefix.clone(),
        n_gpu_layers: i32_setting(row.llama_params.n_gpu_layers, 99),
        n_batch: u32_setting(row.llama_params.n_batch, 512),
        n_ubatch: u32_setting(row.llama_params.n_ubatch, 256),
    })
}

// ---------------------------------------------------------------------------
// Prompts

/// Places the image token in a prompt that does not hold one yet.
pub open spec fn format_prompt_spec(prompt: Seq<char>, media_placement: Seq<char>) -> Seq<char> {
    if crate::logs::contains(prompt, "<image>"@) {
        prompt
    } else if media_placement == "prefix-tight"@ {
        "<image>"@ + prompt
    } else if media_placement == "suffix-newline"@ {
        prompt + "\n<image>"@
    } else {
        "<image>\n"@ + prompt
    }
}

/// Puts `<image>` before or after the prompt as the placement asks, unless
/// the prompt already has it.
pub fn format_prompt(prompt: &str, media_placement: &str) -> (s: String)
    ensures
        s@ == format_prompt_spec(prompt@, media_placement@),
{
    let v = chars_of(prompt);
    let tag = chars_of("<image>");
    proof {
        reveal_strlit("<image>");
    }
    if crate::markers::find_from_exec(&v, 0, &tag).is_some() {
        return prompt.to_owned();
    }
    if str_eq(media_placement, "prefix-tight") {
        let mut s = "<image>".to_owned();
        append_str(&mut s, prompt);
        s
    } else if str_eq(media_placement, "suffix-newline") {
        let mut s = prompt.to_owned();
        append_str(&mut s, "\n<image>");
        s
    } else {
        let mut s = "<image>\n".to_owned();
        append_str(&mut s, prompt);
        s
    }
}

// ---------------------------------------------------------------------------
// Splitting embedding text

/// Whitespace, or punctuation that ends a clause (ASCII and full-width).
pub open spec fn is_split_boundary(c: char) -> bool {
    is_ws(c) || c == '.' || c == ',' || c == ';' || c == ':' || c == '!' || c == '?' || c == ')' || c == ']'
        || c == '}' || c == '\u{3002}' || c == '\u{ff0c}' || c == '\u{ff1b}' || c == '\u{ff1a}' || c == '\u{ff01}'
        || c == '\u{ff1f}'
}

/// Whether a text may be split right after `character`.
pub fn is_embedding_split_boundary(character: char) -> (b: bool)
    ensures
        b == is_split_boundary(character),
{
    let c = character;
    is_ws_exec(c) || c == '.' || c == ',' || c == ';' || c == ':' || c == '!' || c == '?' || c == ')' || c == ']'
        || c == '}' || c == '\u{3002}' || c == '\u{ff0c}' || c == '\u{ff1b}' || c == '\u{ff1a}' || c == '\u{ff01}'
        || c == '\u{ff1f}'
}

/// What a scan of split points has found so far (byte offsets).
pub struct SplitScan {
    pub best: Option<int>,
    pub best_dist: int,
    pub first_after: Option<int>,
    pub last_before: Option<int>,
}

pub open spec fn abs_diff(a: int, b: int) -> int {
    if a >= b { a - b } else { b - a }
}

/// The split points after the first `m` characters of `t`, measured against
/// the byte midpoint `mid`: the boundary character nearest to it (the first
/// of equally near ones), the first offset past it and the last up to it.
pub open spec fn split_scan(t: Seq<char>, mid: int, m: int) -> SplitScan
    decreases m,
{
    if m <= 0 {
        SplitScan { best: None, best_dist: usize::MAX as int, first_after: None, last_before: None }
    } else {
        let s = split_scan(t, mid, m - 1);
        let next = utf8_len(t.subrange(0, m)) as int;
        let d = abs_diff(next, mid);
        let better = is_split_boundary(t[m - 1]) && d < s.best_dist;
        SplitScan {
            best: if better { Some(next) } else { s.best },
            best_dist: if better { d } else { s.best_dist },
            first_after: if next > mid && s.first_after is None { Some(next) } else { s.first_after },
            last_before: if next <= mid { Some(next) } else { s.last_before },
        }
    }
}

/// Where to split a text that is too long to embed: after the boundary
/// character nearest the middle, else at the first character boundary past
/// the middle, else the last one before it; never at either end.
pub open spec fn split_near_middle_spec(t: Seq<char>) -> Option<int> {
    if t.len() <= 1 {
        None
    } else {
        let s = split_scan(t, (utf8_len(t) / 2) as int, t.len() - 1);
        if s.best is Some {
            s.best
        } else if s.first_after is Some {
            s.first_after
        } else {
            s.last_before
        }
    }
}

proof fn lemma_split_scan_interior(t: Seq<char>, mid: int, m: int)
    requires
        0 <= m < t.len(),
    ensures
        split_scan(t, mid, m).best matches Some(b) ==> 0 < b < utf8_len(t) && is_byte_boundary(t, b),
        split_scan(t, mid, m).first_after matches Some(b) ==> 0 < b < utf8_len(t) && is_byte_boundary(t, b),
        split_scan(t, mid, m).last_before matches Some(b) ==> 0 < b < utf8_len(t) && is_byte_boundary(t, b),
    decreases m,
{
    if m > 0 {
        lemma_split_scan_interior(t, mid, m - 1);
        lemma_utf8_len_prefix_mono(t, m, t.len() as int);
        lemma_utf8_len_bounds(t.subrange(0, m));
        lemma_utf8_len_bounds(t.subrange(m, t.len() as int));
        assert(t.subrange(0, t.len() as int) =~= t);
        let next = utf8_len(t.subrange(0, m)) as int;
        assert(is_byte_boundary(t, next));
    }
}

/// The byte offset at which to split `text` for embedding, if it has one.
pub fn split_text_near_middle(text: &str) -> (r: Option<usize>)
    requires
        utf8_len(text@) <= usize::MAX,
    ensures
        match r {
            Some(s) => split_near_middle_spec(text@) == Some(s as int),
            None => split_near_middle_spec(text@) is None,
        },
        r matches Some(s) ==> 0 < s < utf8_len(text@) && is_byte_boundary(text@, s as int),
{
    let t = chars_of(text);
    if t.len() <= 1 {
        return None;
    }
    let ghost tv = t@;
    proof {
        assert(tv.subrange(0, tv.len() as int) =~= tv);
    }
    let len = crate::text::utf8_len_range(&t, 0, t.len());
    let mid = len / 2;
    let mut best: Option<usize> = None;
    let mut best_dist: usize = usize::MAX;
    let mut first_after: Option<usize> = None;
    let mut last_before: Option<usize> = None;
    let mut offset: usize = 0;
    let mut i: usize = 0;
    while i < t.len() - 1
        invariant
            tv == t@,
            tv == text@,
            tv.len() > 1,
            len == utf8_len(tv),
            len <= usize::MAX,
            mid == len / 2,
            i + 1 <= tv.len(),
            offset == utf8_len(tv.subrange(0, i as int)),
            ({
                let s = split_scan(tv, mid as int, i as int);
                &&& (match best {
                    Some(b) => s.best == Some(b as int),
                    None => s.best is None,
                })
                &&& s.best_dist == best_dist as int
                &&& (match first_after {
                    Some(b) => s.first_after == Some(b as int),
                    None => s.first_after is None,
                })
                &&& (match last_before {
                    Some(b) => s.last_before == Some(b as int),
                    None => s.last_before is None,
                })
            }),
        decreases tv.len() - i,
    {
        let c = t[i];
        proof {
            assert(tv.subrange(0, i + 1 as int).drop_last() =~= tv.subrange(0, i as int));
            assert(tv.subrange(0, i + 1 as int).last() == c);
            lemma_utf8_len_prefix_mono(tv, i + 1, tv.len() as int);
            assert(tv.subrange(0, tv.len() as int) =~= tv);
        }
        let next = offset + char_width_exec(c);
        if next <= mid {
            last_before = Some(next);
        } else if first_after.is_none() {
            first_after = Some(next);
        }
        if is_embedding_split_boundary(c) {
            let distance = if next >= mid { next - mid } else { mid - next };
            if distance < best_dist {
                best_dist = distance;
                best = Some(next);
            }
        }
        offset = next;
        i = i + 1;
    }
    proof {
        lemma_split_scan_interior(tv, mid as int, tv.len() - 1);
    }
    if best.is_some() {
        best
    } else if first_after.is_some() {
        first_after
    } else {
        last_before
    }
}

/// The byte offset just after the `k`-th character of `t`.
pub open spec fn offset_after(t: Seq<char>, k: int) -> int {
    utf8_len(t.subrange(0, k + 1)) as int
}

proof fn lemma_offset_step(t: Seq<char>, m: int)
    requires
        0 < m <= t.len(),
    ensures
        utf8_len(t.subrange(0, m)) == utf8_len(t.subrange(0, m - 1)) + char_width(t[m - 1]),
        char_width(t[m - 1]) <= 4,
        utf8_len(t.subrange(0, m)) <= utf8_len(t),
{
    assert(t.subrange(0, m).drop_last() =~= t.subrange(0, m - 1));
    lemma_utf8_len_prefix_mono(t, m, t.len() as int);
    assert(t.subrange(0, t.len() as int) =~= t);
}

proof fn lemma_scan_without_boundaries(t: Seq<char>, mid: int, m: int)
    requires
        0 <= m < t.len(),
        0 <= mid,
        forall|k: int| 0 <= k < m ==> !is_split_boundary(#[trigger] t[k]),
    ensures
        split_scan(t, mid, m).best is None,
        split_scan(t, mid, m).first_after matches Some(f) ==> mid < f <= mid + 4,
        split_scan(t, mid, m).first_after is None ==> utf8_len(t.subrange(0, m)) <= mid
            && (m > 0 ==> split_scan(t, mid, m).last_before == Some(utf8_len(t.subrange(0, m)) as int)),
    decreases m,
{
    if m > 0 {
        lemma_scan_without_boundaries(t, mid, m - 1);
        lemma_offset_step(t, m);
        assert(!is_split_boundary(t[m - 1]));
    } else {
        assert(t.subrange(0, 0) =~= Seq::<char>::empty());
    }
}

proof fn lemma_offsets_grow(t: Seq<char>, j: int, k: int)
    requires
        0 <= j < k < t.len(),
    ensures
        offset_after(t, j) < offset_after(t, k),
{
    lemma_utf8_len_prefix_mono(t, j + 1, k + 1);
    lemma_utf8_len_bounds(t.subrange(j + 1, k + 1));
}

proof fn lemma_scan_first_after(t: Seq<char>, mid: int, m: int)
    requires
        0 <= m < t.len(),
    ensures
        split_scan(t, mid, m).first_after matches Some(f) ==> f > mid
            && (exists|j: int| 0 <= j < m && f == #[trigger] offset_after(t, j))
            && forall|k: int| 0 <= k < m && #[trigger] offset_after(t, k) > mid ==> f <= offset_after(t, k),
        split_scan(t, mid, m).first_after is None ==> forall|k: int| 0 <= k < m ==> #[trigger] offset_after(t, k) <= mid,
    decreases m,
{
    if m > 0 {
        lemma_scan_first_after(t, mid, m - 1);
        let prev = split_scan(t, mid, m - 1);
        assert(utf8_len(t.subrange(0, m)) as int == offset_after(t, m - 1));
        if prev.first_after is Some {
            let f = prev.first_after->0;
            let j = choose|j: int| 0 <= j < m - 1 && f == #[trigger] offset_after(t, j);
            lemma_offsets_grow(t, j, m - 1);
            assert forall|k: int| 0 <= k < m && #[trigger] offset_after(t, k) > mid implies f <= offset_after(t, k) by {
                if k == m - 1 {
                } else {
                }
            }
        }
    }
}

/// A text with nothing to split at but character boundaries is cut near its
/// middle in bytes: at the first character boundary past half its UTF-8
/// length (or the last one before it when none lies past it), at most one
/// character (four bytes) away from that half, strictly inside the text.
pub proof fn law_split_without_boundaries_is_near_byte_middle(t: Seq<char>)
    requires
        t.len() >= 2,
        forall|k: int| 0 <= k < t.len() - 1 ==> !is_split_boundary(#[trigger] t[k]),
    ensures
        split_near_middle_spec(t) matches Some(s) && 0 < s < utf8_len(t) && abs_diff(s, (utf8_len(t) / 2) as int) <= 4
            && ((exists|k: int| 0 <= k < t.len() - 1 && #[trigger] offset_after(t, k) > (utf8_len(t) / 2) as int) ==> (
                s > (utf8_len(t) / 2) as int && forall|k: int| 0 <= k < t.len() - 1 && #[trigger] offset_after(t, k)
                    > (utf8_len(t) / 2) as int ==> s <= offset_after(t, k)))
            && ((forall|k: int| 0 <= k < t.len() - 1 ==> #[trigger] offset_after(t, k) <= (utf8_len(t) / 2) as int)
                ==> s == offset_after(t, t.len() - 2)),
{
    let mid = (utf8_len(t) / 2) as int;
    let m = t.len() - 1;
    lemma_scan_without_boundaries(t, mid, m);
    lemma_scan_first_after(t, mid, m);
    lemma_split_scan_interior(t, mid, m);
    lemma_offset_step(t, t.len() as int);
    assert(t.subrange(0, t.len() as int) =~= t);
    assert(offset_after(t, t.len() - 2) == utf8_len(t.subrange(0, m)) as int);
}

proof fn lemma_scan_best(t: Seq<char>, mid: int, m: int)
    requires
        0 <= m < t.len(),
        0 <= mid <= utf8_len(t),
        utf8_len(t) < usize::MAX,
    ensures
        split_scan(t, mid, m).best matches Some(b) ==> split_scan(t, mid, m).best_dist == abs_diff(b, mid)
            && exists|k: int| 0 <= k < m && is_split_boundary(#[trigger] t[k]) && b == offset_after(t, k),
        split_scan(t, mid, m).best is None ==> split_scan(t, mid, m).best_dist == usize::MAX
            && forall|k: int| 0 <= k < m ==> !is_split_boundary(#[trigger] t[k]),
        forall|k: int| 0 <= k < m && is_split_boundary(#[trigger] t[k]) ==> split_scan(t, mid, m).best_dist
            <= abs_diff(offset_after(t, k), mid),
        forall|k: int| 0 <= k < m && is_split_boundary(#[trigger] t[k]) && (split_scan(t, mid, m).best matches Some(b)
            && offset_after(t, k) < b) ==> split_scan(t, mid, m).best_dist < abs_diff(offset_after(t, k), mid),
    decreases m,
{
    if m > 0 {
        lemma_scan_best(t, mid, m - 1);
        let p = split_scan(t, mid, m - 1);
        if p.best is Some {
            let k0 = choose|k: int| 0 <= k < m - 1 && is_split_boundary(#[trigger] t[k]) && p.best->0 == offset_after(t, k);
            lemma_offsets_grow(t, k0, m - 1);
        }
        assert forall|k: int| 0 <= k < m - 1 implies #[trigger] offset_after(t, k) < offset_after(t, m - 1) by {
            lemma_offsets_grow(t, k, m - 1);
        }
        lemma_offset_step(t, m);
        let prev = split_scan(t, mid, m - 1);
        let cur = split_scan(t, mid, m);
        let next = utf8_len(t.subrange(0, m)) as int;
        assert(next == offset_after(t, m - 1));
        assert(abs_diff(next, mid) < usize::MAX);
        if cur.best is Some && prev.best is Some && cur.best == prev.best {
            let k = choose|k: int| 0 <= k < m - 1 && is_split_boundary(#[trigger] t[k]) && prev.best->0 == offset_after(t, k);
            assert(0 <= k < m && is_split_boundary(t[k]) && cur.best->0 == offset_after(t, k));
        }
    }
}

/// A text with a boundary character before its last is cut right after one of
/// them: after none that lies nearer the middle in bytes, and after the first
/// of those equally near.
pub proof fn law_split_at_the_boundary_nearest_the_middle(t: Seq<char>)
    requires
        t.len() >= 2,
        utf8_len(t) < usize::MAX,
        exists|k: int| 0 <= k < t.len() - 1 && is_split_boundary(#[trigger] t[k]),
    ensures
        split_near_middle_spec(t) matches Some(s) && (exists|k: int|
            0 <= k < t.len() - 1 && is_split_boundary(#[trigger] t[k]) && s == offset_after(t, k))
            && (forall|k: int| 0 <= k < t.len() - 1 && is_split_boundary(#[trigger] t[k])
                ==> abs_diff(s, (utf8_len(t) / 2) as int) <= abs_diff(offset_after(t, k), (utf8_len(t) / 2) as int))
            && (forall|k: int| 0 <= k < t.len() - 1 && is_split_boundary(#[trigger] t[k]) && offset_after(t, k) < s
                ==> abs_diff(s, (utf8_len(t) / 2) as int) < abs_diff(offset_after(t, k), (utf8_len(t) / 2) as int)),
{
    let mid = (utf8_len(t) / 2) as int;
    lemma_scan_best(t, mid, t.len() - 1);
}

// ---------------------------------------------------------------------------
// Checking the OCR runtime library

/// The ABI version this server speaks with the OCR runtime library.
pub const EXPECTED_ABI_VERSION: u32 = 1;

pub open spec fn required_symbols_spec() -> Seq<Seq<char>> {
    seq!["uocr_ffi_create"@, "uocr_ffi_destroy"@, "uocr_ffi_run_image"@, "uocr_ffi_last_error"@]
}

/// The entry points, besides the ABI version, that the OCR runtime library must export.
pub fn required_ffi_symbols() -> (r: Vec<&'static str>)
    ensures
        r@.len() == 4,
        forall|i: int| 0 <= i < 4 ==> (#[trigger] r@[i])@ == required_symbols_spec()[i],
{
    vec!["uocr_ffi_create", "uocr_ffi_destroy", "uocr_ffi_run_image", "uocr_ffi_last_error"]
}

/// What loading the OCR runtime library found.
pub struct FfiLibraryProbe {
    /// The path shown in messages.
    pub path: String,
    /// Why the library could not be loaded, if it could not.
    pub load_error: Option<String>,
    /// The ABI version the library reports, or none when it lacks the symbol.
    pub abi_version: Option<u32>,
    /// For each of [`required_ffi_symbols`], in order, whether the library exports it.
    pub symbols_present: Vec<bool>,
}

/// The index of the first required symbol the library lacks; a symbol with
/// no entry in `present` counts as lacking.
pub open spec fn first_missing(present: Seq<bool>, i: int) -> Option<int>
    decreases 4 - i,
{
    if i < 0 || i >= 4 {
        None
    } else if !(i < present.len() && present[i]) {
        Some(i)
    } else {
        first_missing(present, i + 1)
    }
}

/// The verdict on a probed OCR runtime library, as the error message it
/// fails with, or none when the library is usable.
pub open spec fn ffi_verdict(path: Seq<char>, load_error: Option<Seq<char>>, abi_version: Option<u32>, present: Seq<bool>) -> Option<Seq<char>> {
    match load_error {
        Some(e) => Some("failed to load uocr-ffi from "@ + path + ": "@ + e),
        None => match abi_version {
            None => Some("uocr-ffi is missing symbol: uocr_ffi_abi_version"@),
            Some(v) => if v != EXPECTED_ABI_VERSION {
                Some("unsupported uocr-ffi ABI version"@)
            } else {
                match first_missing(present, 0) {
                    Some(i) => Some("uocr-ffi is missing symbol: "@ + required_symbols_spec()[i]),
                    None => None,
                }
            },
        },
    }
}

/// Checks that a probed OCR runtime library can be used: it loaded, speaks
/// the expected ABI version, and exports every required entry point.
pub fn validate_ffi_library(probe: &FfiLibraryProbe) -> (r: Result<(), crate::workbench::AppError>)
    ensures
        match ffi_verdict(probe.path@, crate::logs::opt_view(probe.load_error), probe.abi_version, probe.symbols_present@) {
            None => r is Ok,
            Some(m) => r matches Err(crate::workbench::AppError::Internal(e)) && e@ == m,
        },
{
    if let Some(error) = &probe.load_error {
        let mut m = "failed to load uocr-ffi from ".to_owned();
        append_str(&mut m, probe.path.as_str());
        append_str(&mut m, ": ");
        append_str(&mut m, error.as_str());
        return Err(crate::workbench::AppError::Internal(m));
    }
    let version = match probe.abi_version {
        Some(v) => v,
        None => {
            return Err(crate::workbench::AppError::Internal("uocr-ffi is missing symbol: uocr_ffi_abi_version".to_owned()));
        },
    };
    if version != EXPECTED_ABI_VERSION {
        return Err(crate::workbench::AppError::Internal("unsupported uocr-ffi ABI version".to_owned()));
    }
    let names = required_ffi_symbols();
    let mut i: usize = 0;
    while i < 4
        invariant
            i <= 4,
            probe.load_error is None,
            probe.abi_version == Some(EXPECTED_ABI_VERSION),
            names@.len() == 4,
            forall|k: int| 0 <= k < 4 ==> (#[trigger] names@[k])@ == required_symbols_spec()[k],
            first_missing(probe.symbols_present@, 0) == first_missing(probe.symbols_present@, i as int),
        decreases 4 - i,
    {
        if !(i < probe.symbols_present.len() && probe.symbols_present[i]) {
            let mut m = "uocr-ffi is missing symbol: ".to_owned();
            append_str(&mut m, names[i]);
            return Err(crate::workbench::AppError::Internal(m));
        }
        i = i + 1;
    }
    Ok(())
}

// ---------------------------------------------------------------------------
// Splitting long documents for embedding

/// What to do with a part of a document, given how many tokens it makes.
pub enum PartDecision {
    /// It fits in one encoder batch.
    Keep,
    /// It is split in two halves, each trimmed, to be embedded apart.
    Split(String, String),
    /// It is too long and cannot be split.
    TooManyTokens,
}

/// The two halves of `text` split at byte offset `s`, each trimmed.
pub open spec fn split_halves(text: Seq<char>, s: int) -> (Seq<char>, Seq<char>) {
    let c = crate::ocr_page::char_index_at(text, s);
    (crate::text::trim(text.subrange(0, c)), crate::text::trim(text.subrange(c, text.len() as int)))
}

proof fn lemma_non_ws_concat(a: Seq<char>, b: Seq<char>)
    ensures
        crate::logs::non_ws(a + b) == crate::logs::non_ws(a) + crate::logs::non_ws(b),
    decreases b.len(),
{
    if b.len() == 0 {
        assert(a + b =~= a);
        assert(crate::logs::non_ws(a) + crate::logs::non_ws(b) =~= crate::logs::non_ws(a));
    } else {
        assert((a + b).drop_last() =~= a + b.drop_last());
        assert((a + b).last() == b.last());
        lemma_non_ws_concat(a, b.drop_last());
        if is_ws(b.last()) {
        } else {
            assert(crate::logs::non_ws(a + b) =~= crate::logs::non_ws(a) + crate::logs::non_ws(b));
        }
    }
}

proof fn lemma_non_ws_of_spaces(s: Seq<char>)
    requires
        forall|k: int| 0 <= k < s.len() ==> is_ws(#[trigger] s[k]),
    ensures
        crate::logs::non_ws(s) == Seq::<char>::empty(),
    decreases s.len(),
{
    if s.len() > 0 {
        assert(is_ws(s[s.len() - 1]));
        lemma_non_ws_of_spaces(s.drop_last());
    }
}

/// Trimming removes whitespace only.
proof fn lemma_non_ws_trim(s: Seq<char>)
    ensures
        crate::logs::non_ws(crate::text::trim(s)) == crate::logs::non_ws(s),
{
    let a = crate::text::first_kept(s, 0, false);
    crate::text::lemma_first_kept_bounds(s, 0, false);
    let e = crate::text::last_kept_end(s, s.len() as int, a, false);
    crate::text::lemma_last_kept_end_bounds(s, s.len() as int, a, false);
    let head = s.subrange(0, a);
    let mid = s.subrange(a, e);
    let tail = s.subrange(e, s.len() as int);
    assert(s =~= head + mid + tail);
    assert forall|k: int| 0 <= k < head.len() implies is_ws(#[trigger] head[k]) by {
        assert(crate::text::is_strip(s[k], false));
    }
    assert forall|k: int| 0 <= k < tail.len() implies is_ws(#[trigger] tail[k]) by {
        assert(crate::text::is_strip(s[e + k], false));
    }
    lemma_non_ws_of_spaces(head);
    lemma_non_ws_of_spaces(tail);
    lemma_non_ws_concat(head + mid, tail);
    lemma_non_ws_concat(head, mid);
    assert(crate::logs::non_ws(head) + crate::logs::non_ws(mid) =~= crate::logs::non_ws(mid));
    assert(crate::logs::non_ws(head + mid) + crate::logs::non_ws(tail) =~= crate::logs::non_ws(head + mid));
}

/// Splitting a part of a document in two loses none of its text: the two
/// halves hold, in order, every character of the part but whitespace.
pub proof fn law_split_keeps_the_text(text: Seq<char>, s: int)
    requires
        crate::ocr_page::is_byte_boundary(text, s),
    ensures
        crate::logs::non_ws(split_halves(text, s).0) + crate::logs::non_ws(split_halves(text, s).1)
            == crate::logs::non_ws(text),
{
    let c = crate::ocr_page::char_index_at(text, s);
    assert(0 <= c <= text.len());
    let left = text.subrange(0, c);
    let right = text.subrange(c, text.len() as int);
    lemma_non_ws_trim(left);
    lemma_non_ws_trim(right);
    assert(text =~= left + right);
    lemma_non_ws_concat(left, right);
}

/// Decides for a part of a document that makes `token_count` tokens: keep it
/// when it fits in `max_tokens`, else split it near its middle, else refuse it.
pub fn document_part_decision(text: &str, token_count: usize, max_tokens: usize) -> (r: PartDecision)
    requires
        utf8_len(text@) <= usize::MAX,
    ensures
        token_count <= max_tokens ==> r is Keep,
        token_count > max_tokens ==> match split_near_middle_spec(text@) {
            Some(s) => r matches PartDecision::Split(a, b) && (a@, b@) == split_halves(text@, s),
            None => r is TooManyTokens,
        },
{
    if token_count <= max_tokens {
        return PartDecision::Keep;
    }
    match split_text_near_middle(text) {
        None => PartDecision::TooManyTokens,
        Some(s) => {
            let v = chars_of(text);
            match crate::ocr_page::char_index_of_byte(&v, s) {
                None => PartDecision::TooManyTokens,
                Some(c) => {
                    proof {
                        crate::ocr_page::lemma_char_index_unique(text@, c as int);
                    }
                    let left = crate::text::string_from_range(&v, 0, c);
                    let right = crate::text::string_from_range(&v, c, v.len());
                    PartDecision::Split(crate::text::trim_string(left.as_str()), crate::text::trim_string(right.as_str()))
                },
            }
        },
    }
}

/// The message for a text that makes more tokens than one encoder batch holds.
pub fn too_many_tokens_message(model_id: &str, tokens: u64, max_tokens: u64) -> (s: String)
    ensures
        s@ == "embedding text for "@ + model_id@ + " produced "@ + crate::text::decimal(tokens as nat)
            + " tokens, above the safe llama.cpp encoder batch limit of "@ + crate::text::decimal(max_tokens as nat),
{
    let mut s = "embedding text for ".to_owned();
    append_str(&mut s, model_id);
    append_str(&mut s, " produced ");
    crate::text::push_decimal(&mut s, tokens);
    append_str(&mut s, " tokens, above the safe llama.cpp encoder batch limit of ");
    crate::text::push_decimal(&mut s, max_tokens);
    s
}

/// What a text is embedded for.
#[derive(Clone, Copy, PartialEq, Eq, Structural, Debug)]
pub enum EmbeddingPurpose {
    Document,
    Query,
}

/// The text handed to the model: the profile's prefix for the purpose, then the text.
pub fn embedding_input(profile: &LlamaEmbeddingProfile, text: &str, purpose: EmbeddingPurpose) -> (s: String)
    ensures
        s@ == match purpose {
            EmbeddingPurpose::Document => profile.document_prefix@ + text@,
            EmbeddingPurpose::Query => profile.query_prefix@ + text@,
        },
{
    let mut s = match purpose {
        EmbeddingPurpose::Document => profile.document_prefix.clone(),
        EmbeddingPurpose::Query => profile.query_prefix.clone(),
    };
    append_str(&mut s, text);
    s
}

// ---------------------------------------------------------------------------
// Checking the llama.cpp library

/// The llama.cpp entry points that embedding needs, in lookup order.
pub open spec fn llama_symbols_spec() -> Seq<Seq<char>> {
    seq![
        "llama_model_default_params"@,
        "llama_context_default_params"@,
        "llama_backend_init"@,
        "llama_backend_free"@,
        "llama_model_load_from_file"@,
        "llama_model_free"@,
        "llama_init_from_model"@,
        "llama_free"@,
        "llama_model_get_vocab"@,
        "llama_model_n_embd_out"@,
        "llama_tokenize"@,
        "llama_batch_init"@,
        "llama_batch_free"@,
        "llama_decode"@,
        "llama_get_memory"@,
        "llama_memory_clear"@,
        "llama_get_embeddings_seq"@,
    ]
}

/// The llama.cpp entry points that embedding needs, in the order they are looked up.
pub fn llama_embedding_symbols() -> (r: Vec<&'static str>)
    ensures
        r@.len() == llama_symbols_spec().len(),
        forall|i: int| 0 <= i < r@.len() ==> (#[trigger] r@[i])@ == llama_symbols_spec()[i],
{
    vec![
        "llama_model_default_params",
        "llama_context_default_params",
        "llama_backend_init",
        "llama_backend_free",
        "llama_model_load_from_file",
        "llama_model_free",
        "llama_init_from_model",
        "llama_free",
        "llama_model_get_vocab",
        "llama_model_n_embd_out",
        "llama_tokenize",
        "llama_batch_init",
        "llama_batch_free",
        "llama_decode",
        "llama_get_memory",
        "llama_memory_clear",
        "llama_get_embeddings_seq",
    ]
}

/// What opening a llama.cpp library found: why it did not load, or the
/// loader's error for the first embedding entry point it lacks.
pub struct LlamaLibraryProbe {
    pub load_error: Option<String>,
    pub missing_symbol_error: Option<String>,
}

/// Checks that a probed llama.cpp library loaded and has every embedding
/// entry point; a failure is a bad request naming the loader's error.
pub fn validate_llama_library(probe: &LlamaLibraryProbe) -> (r: Result<(), crate::workbench::AppError>)
    ensures
        match (probe.load_error, probe.missing_symbol_error) {
            (Some(e), _) => r matches Err(crate::workbench::AppError::BadRequest(m))
                && m@ == "failed to load llama.cpp library: "@ + e@,
            (None, Some(e)) => r matches Err(crate::workbench::AppError::BadRequest(m))
                && m@ == "llama.cpp library is missing an embedding symbol: "@ + e@,
            (None, None) => r is Ok,
        },
{
    if let Some(error) = &probe.load_error {
        let mut m = "failed to load llama.cpp library: ".to_owned();
        append_str(&mut m, error.as_str());
        return Err(crate::workbench::AppError::BadRequest(m));
    }
    if let Some(error) = &probe.missing_symbol_error {
        let mut m = "llama.cpp library is missing an embedding symbol: ".to_owned();
        append_str(&mut m, error.as_str());
        return Err(crate::workbench::AppError::BadRequest(m));
    }
    Ok(())
}

// ---------------------------------------------------------------------------
// Embedding model file names

/// `name` is a single path component that is itself a file name, as
/// `Path::file_name` gives it back unchanged: not empty, no separator (the
/// platform's `sep` or `/`), not `.` or `..`, and, where `\` separates, no
/// drive prefix such as `C:`.
pub open spec fn bare_file_name(name: Seq<char>, sep: char) -> bool {
    &&& name.len() > 0
    &&& forall|i: int| 0 <= i < name.len() ==> !crate::config::is_separator(#[trigger] name[i], sep)
    &&& name != "."@
    &&& name != ".."@
    &&& !(sep == '\\' && name.len() >= 2 && name[1] == ':'
        && (('a' <= name[0] && name[0] <= 'z') || ('A' <= name[0] && name[0] <= 'Z')))
}

/// The refusal of a model file name that is not a bare file name.
pub open spec fn model_file_name_error(name: Seq<char>) -> Seq<char> {
    "embedding model filename must not contain path separators: "@ + name
}

/// Accepts an embedding model's file name only when it names a file directly
/// inside the model directory.
pub fn check_model_file_name(filename: &str, sep: char) -> (r: Result<(), crate::workbench::AppError>)
    ensures
        bare_file_name(filename@, sep) ==> r is Ok,
        !bare_file_name(filename@, sep) ==> (r matches Err(crate::workbench::AppError::BadRequest(m))
            && m@ == model_file_name_error(filename@)),
{
    let v = chars_of(filename);
    let mut ok = v.len() > 0;
    let mut i: usize = 0;
    while i < v.len()
        invariant
            v@ == filename@,
            i <= v@.len(),
            ok == (v@.len() > 0 && forall|k: int| 0 <= k < i ==> !crate::config::is_separator(#[trigger] v@[k], sep)),
        decreases v@.len() - i,
    {
        if v[i] == sep || v[i] == '/' {
            ok = false;
        }
        i = i + 1;
    }
    if ok && (str_eq(filename, ".") || str_eq(filename, "..")) {
        ok = false;
    }
    if ok && sep == '\\' && v.len() >= 2 && v[1] == ':'
        && (('a' <= v[0] && v[0] <= 'z') || ('A' <= v[0] && v[0] <= 'Z')) {
        ok = false;
    }
    if ok {
        Ok(())
    } else {
        let mut m = "embedding model filename must not contain path separators: ".to_owned();
        append_str(&mut m, filename);
        Err(crate::workbench::AppError::BadRequest(m))
    }
}

// ---------------------------------------------------------------------------
// Staying inside a directory

/// A finished path component: empty pieces (repeated separators) and `.`
/// name no component.
pub open spec fn flush_piece(cur: Seq<char>) -> Seq<Seq<char>> {
    if cur.len() == 0 || cur == "."@ {
        seq![]
    } else {
        seq![cur]
    }
}

/// The components of `s` from `i` on, where `cur` is the component read so far.
pub open spec fn pieces_from(s: Seq<char>, i: int, cur: Seq<char>, sep: char) -> Seq<Seq<char>>
    decreases s.len() - i,
{
    if i < 0 || i >= s.len() {
        flush_piece(cur)
    } else if crate::config::is_separator(s[i], sep) {
        flush_piece(cur) + pieces_from(s, i + 1, seq![], sep)
    } else {
        pieces_from(s, i + 1, cur.push(s[i]), sep)
    }
}

/// The named components of a path, in order.
pub open spec fn path_pieces(s: Seq<char>, sep: char) -> Seq<Seq<char>> {
    pieces_from(s, 0, seq![], sep)
}

/// The path starts at the root.
pub open spec fn rooted(s: Seq<char>, sep: char) -> bool {
    s.len() > 0 && crate::config::is_separator(s[0], sep)
}

/// `path` lies within `root`, component by component, as `Path::starts_with`
/// decides it for two canonical paths.
pub open spec fn path_within(path: Seq<char>, root: Seq<char>, sep: char) -> bool {
    &&& rooted(path, sep) == rooted(root, sep)
    &&& path_pieces(root, sep).len() <= path_pieces(path, sep).len()
    &&& path_pieces(root, sep) == path_pieces(path, sep).take(path_pieces(root, sep).len() as int)
}

fn is_dot(v: &Vec<char>) -> (b: bool)
    ensures
        b == (v@ == "."@),
{
    proof { reveal_strlit("."); }
    let r = v.len() == 1 && v[0] == '.';
    proof {
        if r {
            assert(v@ =~= "."@);
        } else if v@ == "."@ {
            assert(v@.len() == 1 && v@[0] == '.');
        }
    }
    r
}

/// The named components of `s`.
fn path_pieces_exec(s: &str, sep: char) -> (r: Vec<Vec<char>>)
    ensures
        r@.map_values(|v: Vec<char>| v@) == path_pieces(s@, sep),
{
    let t = chars_of(s);
    let mut out: Vec<Vec<char>> = Vec::new();
    let mut cur: Vec<char> = Vec::new();
    let mut i: usize = 0;
    while i < t.len()
        invariant
            t@ == s@,
            i <= t@.len(),
            out@.map_values(|v: Vec<char>| v@) + pieces_from(t@, i as int, cur@, sep) == path_pieces(s@, sep),
        decreases t@.len() - i,
    {
        let ghost before = out@.map_values(|v: Vec<char>| v@);
        if t[i] == sep || t[i] == '/' {
            let ghost c = cur@;
            if cur.len() > 0 && !is_dot(&cur) {
                out.push(cur);
            }
            cur = Vec::new();
            proof {
                assert(out@.map_values(|v: Vec<char>| v@) =~= before + flush_piece(c));
                assert(pieces_from(t@, i as int, c, sep) == flush_piece(c) + pieces_from(t@, i + 1, seq![], sep));
                assert(cur@ =~= Seq::<char>::empty());
            }
        } else {
            cur.push(t[i]);
        }
        i = i + 1;
    }
    let ghost c = cur@;
    let ghost before = out@.map_values(|v: Vec<char>| v@);
    if cur.len() > 0 && !is_dot(&cur) {
        out.push(cur);
    }
    assert(out@.map_values(|v: Vec<char>| v@) =~= before + flush_piece(c));
    out
}

fn chars_equal(a: &Vec<char>, b: &Vec<char>) -> (r: bool)
    ensures
        r == (a@ == b@),
{
    if a.len() != b.len() {
        return false;
    }
    let mut i: usize = 0;
    while i < a.len()
        invariant
            a@.len() == b@.len(),
            i <= a@.len(),
            forall|k: int| 0 <= k < i ==> a@[k] == b@[k],
        decreases a@.len() - i,
    {
        if a[i] != b[i] {
            return false;
        }
        i = i + 1;
    }
    assert(a@ =~= b@);
    true
}

/// Whether the canonical `path` lies within the canonical directory `root`.
pub fn is_path_within(path: &str, root: &str, sep: char) -> (b: bool)
    ensures
        b == path_within(path@, root@, sep),
{
    let p = chars_of(path);
    let q = chars_of(root);
    let p_rooted = p.len() > 0 && (p[0] == sep || p[0] == '/');
    let q_rooted = q.len() > 0 && (q[0] == sep || q[0] == '/');
    assert(p@ == path@ && q@ == root@);
    if p_rooted != q_rooted {
        return false;
    }
    let pp = path_pieces_exec(path, sep);
    let rp = path_pieces_exec(root, sep);
    let ghost pv = pp@.map_values(|v: Vec<char>| v@);
    let ghost rv = rp@.map_values(|v: Vec<char>| v@);
    assert(rv.len() == rp@.len() && pv.len() == pp@.len());
    if rp.len() > pp.len() {
        return false;
    }
    let mut i: usize = 0;
    while i < rp.len()
        invariant
            rp@.len() <= pp@.len(),
            pv == pp@.map_values(|v: Vec<char>| v@),
            rv == rp@.map_values(|v: Vec<char>| v@),
            i <= rp@.len(),
            pv == path_pieces(path@, sep),
            rv == path_pieces(root@, sep),
            rv.len() == rp@.len(),
            pv.len() == pp@.len(),
            rooted(path@, sep) == rooted(root@, sep),
            forall|k: int| 0 <= k < i ==> rv[k] == pv[k],
        decreases rp@.len() - i,
    {
        if !chars_equal(&rp[i], &pp[i]) {
            assert(rv[i as int] == rp@[i as int]@ && pv[i as int] == pp@[i as int]@);
            assert(rv[i as int] != pv.take(rv.len() as int)[i as int]);
            return false;
        }
        i = i + 1;
    }
    assert(rv =~= pv.take(rv.len() as int));
    true
}

/// The refusal of a model file that resolves outside the model directory.
pub open spec fn outside_model_dir_error() -> Seq<char> {
    "embedding model file must stay inside the configured model directory"@
}

/// Accepts the canonical model file path only when it lies inside the
/// canonical model directory.
pub fn check_model_file_inside(canonical: &str, model_root: &str, sep: char) -> (r: Result<(), crate::workbench::AppError>)
    ensures
        path_within(canonical@, model_root@, sep) ==> r is Ok,
        !path_within(canonical@, model_root@, sep) ==> (r matches Err(crate::workbench::AppError::BadRequest(m))
            && m@ == outside_model_dir_error()),
{
    if is_path_within(canonical, model_root, sep) {
        Ok(())
    } else {
        Err(crate::workbench::AppError::BadRequest(
            "embedding model file must stay inside the configured model directory".to_owned(),
        ))
    }
}

} // verus!
