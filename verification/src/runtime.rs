//! OCR runtime variants: which native runtimes a platform ships, which of them
//! can run here, and which one is selected.

use vstd::prelude::*;
use crate::config::{join_path, joined};
use crate::text::str_eq;

verus! {

/// The operating system and architecture a build targets.
#[derive(Clone, Copy, PartialEq, Eq, Structural)]
pub enum TargetPlatform {
    WindowsArm64,
    WindowsX64,
    MacOs,
    LinuxArm64,
    LinuxX64,
}

/// A native OCR runtime build that a platform may ship.
#[derive(Clone, Copy)]
pub struct RuntimeSpec {
    pub platform: &'static str,
    pub label: &'static str,
    pub accelerator: &'static str,
    pub backend: &'static str,
    pub library_name: &'static str,
    pub priority: i32,
    pub n_gpu_layers: i32,
}

pub struct RuntimeSpecView {
    pub platform: Seq<char>,
    pub label: Seq<char>,
    pub accelerator: Seq<char>,
    pub backend: Seq<char>,
    pub library_name: Seq<char>,
    pub priority: i32,
    pub n_gpu_layers: i32,
}

impl View for RuntimeSpec {
    type V = RuntimeSpecView;

    open spec fn view(&self) -> RuntimeSpecView {
        spec_view(self.platform, self.label, self.accelerator, self.backend, self.library_name, self.priority, self.n_gpu_layers)
    }
}

pub open spec fn spec_view(platform: &str, label: &str, accelerator: &str, backend: &str, library_name: &str,
    priority: i32, n_gpu_layers: i32) -> RuntimeSpecView {
    RuntimeSpecView {
        platform: platform@,
        label: label@,
        accelerator: accelerator@,
        backend: backend@,
        library_name: library_name@,
        priority,
        n_gpu_layers,
    }
}

/// The runtimes each platform ships, best first.
pub open spec fn runtime_specs_spec(target: TargetPlatform) -> Seq<RuntimeSpecView> {
    match target {
        TargetPlatform::WindowsArm64 => seq![
            spec_view("windows-arm64-cpu", "Windows arm64 CPU", "cpu", "cpu", "uocr-ffi.dll", 100, 0),
        ],
        TargetPlatform::WindowsX64 => seq![
            spec_view("windows-x86_64-cuda13", "Windows x64 CUDA 13", "cuda", "cuda", "uocr-ffi.dll", 300, -2i32),
            spec_view("windows-x86_64-rocm6", "Windows x64 AMD ROCm/HIP", "rocm", "rocm", "uocr-ffi.dll", 200, -2i32),
            spec_view("windows-x86_64-cpu", "Windows x64 CPU", "cpu", "cpu", "uocr-ffi.dll", 100, 0),
        ],
        TargetPlatform::MacOs => seq![
            spec_view("macos-arm64-metal", "macOS Apple Silicon Metal", "metal", "metal", "libuocr-ffi.dylib", 300, -2i32),
            spec_view("macos-arm64-cpu", "macOS Apple Silicon CPU", "cpu", "cpu", "libuocr-ffi.dylib", 100, 0),
        ],
        TargetPlatform::LinuxArm64 => seq![
            spec_view("linux-arm64-cpu", "Linux arm64 CPU", "cpu", "cpu", "libuocr-ffi.so", 100, 0),
        ],
        TargetPlatform::LinuxX64 => seq![
            spec_view("linux-x86_64-cuda13", "Linux x64 CUDA 13", "cuda", "cuda", "libuocr-ffi.so", 300, -2i32),
            spec_view("linux-x86_64-rocm6", "Linux x64 AMD ROCm/HIP", "rocm", "rocm", "libuocr-ffi.so", 200, -2i32),
            spec_view("linux-x86_64-cpu", "Linux x64 CPU", "cpu", "cpu", "libuocr-ffi.so", 100, 0),
        ],
    }
}

pub open spec fn specs_view(v: Seq<RuntimeSpec>) -> Seq<RuntimeSpecView> {
    v.map_values(|s: RuntimeSpec| s@)
}

fn spec_of(platform: &'static str, label: &'static str, accelerator: &'static str, backend: &'static str,
    library_name: &'static str, priority: i32, n_gpu_layers: i32) -> (r: RuntimeSpec)
    ensures
        r@ == spec_view(platform, label, accelerator, backend, library_name, priority, n_gpu_layers),
{
    RuntimeSpec { platform, label, accelerator, backend, library_name, priority, n_gpu_layers }
}

/// The runtimes that `target` ships.
pub fn runtime_specs(target: TargetPlatform) -> (r: Vec<RuntimeSpec>)
    ensures
        specs_view(r@) == runtime_specs_spec(target),
{
    let mut v: Vec<RuntimeSpec> = Vec::new();
    match target {
        TargetPlatform::WindowsArm64 => {
            v.push(spec_of("windows-arm64-cpu", "Windows arm64 CPU", "cpu", "cpu", "uocr-ffi.dll", 100, 0));
        },
        TargetPlatform::WindowsX64 => {
            v.push(spec_of("windows-x86_64-cuda13", "Windows x64 CUDA 13", "cuda", "cuda", "uocr-ffi.dll", 300, -2));
            v.push(spec_of("windows-x86_64-rocm6", "Windows x64 AMD ROCm/HIP", "rocm", "rocm", "uocr-ffi.dll", 200, -2));
            v.push(spec_of("windows-x86_64-cpu", "Windows x64 CPU", "cpu", "cpu", "uocr-ffi.dll", 100, 0));
        },
        TargetPlatform::MacOs => {
            v.push(spec_of("macos-arm64-metal", "macOS Apple Silicon Metal", "metal", "metal", "libuocr-ffi.dylib", 300, -2));
            v.push(spec_of("macos-arm64-cpu", "macOS Apple Silicon CPU", "cpu", "cpu", "libuocr-ffi.dylib", 100, 0));
        },
        TargetPlatform::LinuxArm64 => {
            v.push(spec_of("linux-arm64-cpu", "Linux arm64 CPU", "cpu", "cpu", "libuocr-ffi.so", 100, 0));
        },
        TargetPlatform::LinuxX64 => {
            v.push(spec_of("linux-x86_64-cuda13", "Linux x64 CUDA 13", "cuda", "cuda", "libuocr-ffi.so", 300, -2));
            v.push(spec_of("linux-x86_64-rocm6", "Linux x64 AMD ROCm/HIP", "rocm", "rocm", "libuocr-ffi.so", 200, -2));
            v.push(spec_of("linux-x86_64-cpu", "Linux x64 CPU", "cpu", "cpu", "libuocr-ffi.so", 100, 0));
        },
    }
    assert(specs_view(v@) =~= runtime_specs_spec(target));
    v
}

// ---------------------------------------------------------------------------
// Hardware support

/// What a hardware probe found.
#[derive(Clone, Copy, Default)]
pub struct HardwareProbe {
    pub cuda: bool,
    pub rocm: bool,
    pub metal: bool,
}

/// Whether the probe supports an accelerator; the CPU always is.
pub open spec fn accelerator_supported(probe: HardwareProbe, accelerator: Seq<char>) -> bool {
    if accelerator == "cuda"@ {
        probe.cuda
    } else if accelerator == "rocm"@ {
        probe.rocm
    } else if accelerator == "metal"@ {
        probe.metal
    } else {
        true
    }
}

/// The sentence shown for an accelerator's support.
pub open spec fn support_detail_spec(probe: HardwareProbe, accelerator: Seq<char>) -> Seq<char> {
    if accelerator == "cuda"@ {
        if probe.cuda { "NVIDIA CUDA probe found"@ } else { "nvidia-smi was not found"@ }
    } else if accelerator == "rocm"@ {
        if probe.rocm { "AMD ROCm/HIP probe found"@ } else { "rocminfo/hipinfo was not found"@ }
    } else if accelerator == "metal"@ {
        if probe.metal { "Apple Metal runtime is available"@ } else { "Apple Metal runtime is unavailable"@ }
    } else {
        "CPU runtime is always supported"@
    }
}

fn accelerator_supported_exec(probe: &HardwareProbe, accelerator: &str) -> (b: bool)
    ensures
        b == accelerator_supported(*probe, accelerator@),
{
    if str_eq(accelerator, "cuda") {
        probe.cuda
    } else if str_eq(accelerator, "rocm") {
        probe.rocm
    } else if str_eq(accelerator, "metal") {
        probe.metal
    } else {
        true
    }
}

/// Describes whether the probe found what `accelerator` needs.
pub fn support_detail(probe: &HardwareProbe, accelerator: &str) -> (r: String)
    ensures
        r@ == support_detail_spec(*probe, accelerator@),
{
    let s: &str = if str_eq(accelerator, "cuda") {
        if probe.cuda { "NVIDIA CUDA probe found" } else { "nvidia-smi was not found" }
    } else if str_eq(accelerator, "rocm") {
        if probe.rocm { "AMD ROCm/HIP probe found" } else { "rocminfo/hipinfo was not found" }
    } else if str_eq(accelerator, "metal") {
        if probe.metal { "Apple Metal runtime is available" } else { "Apple Metal runtime is unavailable" }
    } else {
        "CPU runtime is always supported"
    };
    s.to_owned()
}

// ---------------------------------------------------------------------------
// Variants

/// A runtime of this platform with what was found about it.
pub struct RuntimeVariant {
    pub runtime_id: String,
    pub label: String,
    pub platform: String,
    pub accelerator: String,
    pub backend: String,
    pub ffi_library: String,
    pub priority: i32,
    pub n_gpu_layers: i32,
    pub installed: bool,
    pub hardware_supported: bool,
    pub selectable: bool,
    pub support_detail: String,
}

pub struct RuntimeVariantView {
    pub runtime_id: Seq<char>,
    pub label: Seq<char>,
    pub platform: Seq<char>,
    pub accelerator: Seq<char>,
    pub backend: Seq<char>,
    pub ffi_library: Seq<char>,
    pub priority: i32,
    pub n_gpu_layers: i32,
    pub installed: bool,
    pub hardware_supported: bool,
    pub selectable: bool,
    pub support_detail: Seq<char>,
}

impl View for RuntimeVariant {
    type V = RuntimeVariantView;

    open spec fn view(&self) -> RuntimeVariantView {
        RuntimeVariantView {
            runtime_id: self.runtime_id@,
            label: self.label@,
            platform: self.platform@,
            accelerator: self.accelerator@,
            backend: self.backend@,
            ffi_library: self.ffi_library@,
            priority: self.priority,
            n_gpu_layers: self.n_gpu_layers,
            installed: self.installed,
            hardware_supported: self.hardware_supported,
            selectable: self.selectable,
            support_detail: self.support_detail@,
        }
    }
}

pub open spec fn variants_view(v: Seq<RuntimeVariant>) -> Seq<RuntimeVariantView> {
    v.map_values(|x: RuntimeVariant| x@)
}

/// Where a runtime's library was looked for, and whether a file is there.
/// Where the packaged runtime `runtime_id` under `root` keeps the library file `lib`.
pub open spec fn packaged_runtime_path(root: Seq<char>, runtime_id: Seq<char>, lib: Seq<char>, sep: char) -> Seq<char> {
    let runtimes = joined(joined(root, "thirdparty"@, sep), "uocr-runtime"@, sep);
    joined(joined(joined(runtimes, runtime_id, sep), "bin"@, sep), lib, sep)
}

/// Where the packaged runtime `platform` under `app_root` keeps its library.
pub fn runtime_library_path(app_root: &str, platform: &str, library_name: &str, sep: char) -> (r: String)
    ensures
        r@ == packaged_runtime_path(app_root@, platform@, library_name@, sep),
{
    let third = join_path(app_root, "thirdparty", sep);
    let runtimes = join_path(third.as_str(), "uocr-runtime", sep);
    let dir = join_path(runtimes.as_str(), platform, sep);
    let bin = join_path(dir.as_str(), "bin", sep);
    join_path(bin.as_str(), library_name, sep)
}

/// A runtime library file and whether it is installed.
pub struct RuntimeLibrary {
    pub path: String,
    pub installed: bool,
}

/// The variant of a runtime spec, given its library and the hardware probe.
pub open spec fn variant_of(spec: RuntimeSpecView, library_path: Seq<char>, installed: bool, probe: HardwareProbe) -> RuntimeVariantView {
    let supported = accelerator_supported(probe, spec.accelerator);
    RuntimeVariantView {
        runtime_id: spec.platform,
        label: spec.label,
        platform: spec.platform,
        accelerator: spec.accelerator,
        backend: spec.backend,
        ffi_library: library_path,
        priority: spec.priority,
        n_gpu_layers: spec.n_gpu_layers,
        installed,
        hardware_supported: supported,
        selectable: installed && supported,
        support_detail: support_detail_spec(probe, spec.accelerator),
    }
}

/// The runtime variants of `target`: one per runtime it ships, in order,
/// where `libraries[i]` tells where the `i`-th runtime's library is and
/// whether it is installed.
pub fn runtime_variants(target: TargetPlatform, probe: &HardwareProbe, libraries: &[RuntimeLibrary]) -> (r: Vec<RuntimeVariant>)
    requires
        libraries@.len() == runtime_specs_spec(target).len(),
    ensures
        r@.len() == runtime_specs_spec(target).len(),
        forall|i: int| 0 <= i < r@.len() ==> (#[trigger] r@[i])@ == variant_of(runtime_specs_spec(target)[i],
            libraries@[i].path@, libraries@[i].installed, *probe),
{
    let specs = runtime_specs(target);
    let mut out: Vec<RuntimeVariant> = Vec::new();
    let mut i: usize = 0;
    while i < specs.len()
        invariant
            i <= specs@.len(),
            specs_view(specs@) == runtime_specs_spec(target),
            libraries@.len() == specs@.len(),
            out@.len() == i,
            forall|k: int| 0 <= k < i ==> (#[trigger] out@[k])@ == variant_of(runtime_specs_spec(target)[k],
                libraries@[k].path@, libraries@[k].installed, *probe),
        decreases specs@.len() - i,
    {
        let spec = specs[i];
        assert(spec@ == runtime_specs_spec(target)[i as int]);
        let lib = &libraries[i];
        let supported = accelerator_supported_exec(probe, spec.accelerator);
        let v = RuntimeVariant {
            runtime_id: spec.platform.to_owned(),
            label: spec.label.to_owned(),
            platform: spec.platform.to_owned(),
            accelerator: spec.accelerator.to_owned(),
            backend: spec.backend.to_owned(),
            ffi_library: lib.path.clone(),
            priority: spec.priority,
            n_gpu_layers: spec.n_gpu_layers,
            installed: lib.installed,
            hardware_supported: supported,
            selectable: lib.installed && supported,
            support_detail: support_detail(probe, spec.accelerator),
        };
        out.push(v);
        i = i + 1;
    }
    out
}

/// Where each runtime of `target` keeps its library under `app_root`:
/// `app_root/thirdparty/uocr-runtime/<platform>/bin/<library>`, in the order
/// of the runtimes.
pub fn runtime_library_paths(target: TargetPlatform, app_root: &str, sep: char) -> (r: Vec<String>)
    ensures
        r@.len() == runtime_specs_spec(target).len(),
        forall|i: int| 0 <= i < r@.len() ==> (#[trigger] r@[i])@ == packaged_runtime_path(app_root@,
            runtime_specs_spec(target)[i].platform, runtime_specs_spec(target)[i].library_name, sep),
{
    let specs = runtime_specs(target);
    let mut out: Vec<String> = Vec::new();
    let mut i: usize = 0;
    while i < specs.len()
        invariant
            i <= specs@.len(),
            specs_view(specs@) == runtime_specs_spec(target),
            out@.len() == i,
            forall|k: int| 0 <= k < i ==> (#[trigger] out@[k])@ == packaged_runtime_path(app_root@,
                runtime_specs_spec(target)[k].platform, runtime_specs_spec(target)[k].library_name, sep),
        decreases specs@.len() - i,
    {
        let spec = specs[i];
        assert(spec@ == runtime_specs_spec(target)[i as int]);
        out.push(runtime_library_path(app_root, spec.platform, spec.library_name, sep));
        i = i + 1;
    }
    out
}

/// The runtime variants of `target` packaged under `app_root`: each takes its
/// library from `app_root/thirdparty/uocr-runtime/<platform>/bin/<library>`,
/// and `installed[i]` tells whether the `i`-th runtime's library file is there.
pub fn packaged_runtime_variants(target: TargetPlatform, probe: &HardwareProbe, app_root: &str, sep: char, installed: &[bool]) -> (r: Vec<RuntimeVariant>)
    requires
        installed@.len() == runtime_specs_spec(target).len(),
    ensures
        r@.len() == runtime_specs_spec(target).len(),
        forall|i: int| 0 <= i < r@.len() ==> (#[trigger] r@[i])@ == variant_of(runtime_specs_spec(target)[i],
            packaged_runtime_path(app_root@, runtime_specs_spec(target)[i].platform,
                runtime_specs_spec(target)[i].library_name, sep), installed@[i], *probe),
{
    let paths = runtime_library_paths(target, app_root, sep);
    let mut libraries: Vec<RuntimeLibrary> = Vec::new();
    let mut i: usize = 0;
    while i < paths.len()
        invariant
            i <= paths@.len(),
            paths@.len() == installed@.len(),
            libraries@.len() == i,
            forall|k: int| 0 <= k < i ==> (#[trigger] libraries@[k]).path@ == paths@[k]@ && libraries@[k].installed == installed@[k],
        decreases paths@.len() - i,
    {
        libraries.push(RuntimeLibrary { path: paths[i].clone(), installed: installed[i] });
        i = i + 1;
    }
    runtime_variants(target, probe, &libraries)
}

/// Each accelerator's variant is supported exactly when the probe found that
/// same accelerator (the CPU always): a ROCm runtime follows the ROCm probe,
/// whatever the CUDA probe says, and so on. A variant can be selected exactly
/// when it is installed and supported.
pub proof fn law_support_follows_the_accelerators_own_probe(
    spec: RuntimeSpecView,
    library_path: Seq<char>,
    installed: bool,
    probe: HardwareProbe,
)
    ensures
        spec.accelerator == "cuda"@ ==> variant_of(spec, library_path, installed, probe).hardware_supported == probe.cuda,
        spec.accelerator == "rocm"@ ==> variant_of(spec, library_path, installed, probe).hardware_supported == probe.rocm,
        spec.accelerator == "metal"@ ==> variant_of(spec, library_path, installed, probe).hardware_supported == probe.metal,
        spec.accelerator == "cpu"@ ==> variant_of(spec, library_path, installed, probe).hardware_supported,
        variant_of(spec, library_path, installed, probe).selectable == (installed && variant_of(spec, library_path,
            installed, probe).hardware_supported),
{
    reveal_strlit("cuda");
    reveal_strlit("rocm");
    reveal_strlit("metal");
    reveal_strlit("cpu");
    assert("rocm"@ != "cuda"@) by {
        assert("rocm"@[0] != "cuda"@[0]);
    }
    assert("metal"@ != "cuda"@) by {
        assert("metal"@.len() != "cuda"@.len());
    }
    assert("metal"@ != "rocm"@) by {
        assert("metal"@.len() != "rocm"@.len());
    }
    assert("cpu"@ != "cuda"@ && "cpu"@ != "rocm"@ && "cpu"@ != "metal"@) by {
        assert("cpu"@.len() == 3);
    }
}

/// Among the first `n` variants, the selectable one of highest priority; of
/// several with that priority, the last.
pub open spec fn best_selectable(v: Seq<RuntimeVariantView>, n: int) -> Option<int>
    decreases n,
{
    if n <= 0 {
        None
    } else {
        let b = best_selectable(v, n - 1);
        if v[n - 1].selectable && (b matches Some(j) ==> v[j].priority <= v[n - 1].priority) {
            Some(n - 1)
        } else {
            b
        }
    }
}

/// Some selectable variant has id `id`.
pub open spec fn selectable_with_id(v: Seq<RuntimeVariantView>, id: Seq<char>) -> bool {
    exists|k: int| 0 <= k < v.len() && (#[trigger] v[k]).runtime_id == id && v[k].selectable
}

/// The runtime id to use: `preferred` when a selectable variant has it, else
/// the best selectable variant, else the first variant, else empty.
pub open spec fn choose_runtime_id_spec(v: Seq<RuntimeVariantView>, preferred: Seq<char>) -> Seq<char> {
    if selectable_with_id(v, preferred) {
        preferred
    } else {
        match best_selectable(v, v.len() as int) {
            Some(j) => v[j].runtime_id,
            None => if v.len() > 0 { v[0].runtime_id } else { Seq::empty() },
        }
    }
}

pub proof fn lemma_best_selectable(v: Seq<RuntimeVariantView>, n: int)
    requires
        n <= v.len(),
    ensures
        best_selectable(v, n) matches Some(j) ==> 0 <= j < n && v[j].selectable,
    decreases n,
{
    if n > 0 {
        lemma_best_selectable(v, n - 1);
    }
}

proof fn lemma_best_selectable_top(v: Seq<RuntimeVariantView>, n: int)
    requires
        n <= v.len(),
    ensures
        best_selectable(v, n) matches Some(j) ==> forall|k: int| 0 <= k < n && (#[trigger] v[k]).selectable ==> v[k].priority <= v[j].priority,
        best_selectable(v, n) is None ==> forall|k: int| 0 <= k < n ==> !(#[trigger] v[k]).selectable,
    decreases n,
{
    if n > 0 {
        lemma_best_selectable_top(v, n - 1);
        lemma_best_selectable(v, n - 1);
    }
}

/// When some variant can run, the chosen id is that of a variant that can
/// run; unless it is the preferred one, no variant that can run has a
/// higher priority.
pub proof fn law_chosen_runtime_is_selectable(v: Seq<RuntimeVariantView>, preferred: Seq<char>)
    requires
        exists|k: int| 0 <= k < v.len() && (#[trigger] v[k]).selectable,
    ensures
        exists|k: int| 0 <= k < v.len() && (#[trigger] v[k]).selectable && v[k].runtime_id == choose_runtime_id_spec(v, preferred)
            && (choose_runtime_id_spec(v, preferred) != preferred ==> forall|m: int| 0 <= m < v.len() && (#[trigger] v[m]).selectable
                ==> v[m].priority <= v[k].priority),
{
    lemma_best_selectable(v, v.len() as int);
    lemma_best_selectable_top(v, v.len() as int);
    if selectable_with_id(v, preferred) {
        let k = choose|k: int| 0 <= k < v.len() && (#[trigger] v[k]).runtime_id == preferred && v[k].selectable;
        assert(v[k].selectable && v[k].runtime_id == choose_runtime_id_spec(v, preferred));
    } else {
        let j = best_selectable(v, v.len() as int)->0;
        assert(v[j].selectable && v[j].runtime_id == choose_runtime_id_spec(v, preferred));
    }
}

/// Picks the runtime to run on.
pub fn choose_runtime_id(variants: &[RuntimeVariant], preferred: &str) -> (r: String)
    ensures
        r@ == choose_runtime_id_spec(variants_view(variants@), preferred@),
{
    let ghost vv = variants_view(variants@);
    let mut k: usize = 0;
    while k < variants.len()
        invariant
            k <= variants@.len(),
            vv == variants_view(variants@),
            forall|m: int| 0 <= m < k ==> !((#[trigger] vv[m]).runtime_id == preferred@ && vv[m].selectable),
        decreases variants@.len() - k,
    {
        assert(vv[k as int] == variants@[k as int]@);
        if variants[k].selectable && str_eq(variants[k].runtime_id.as_str(), preferred) {
            assert(vv[k as int].runtime_id == preferred@ && vv[k as int].selectable);
            assert(selectable_with_id(vv, preferred@));
            return preferred.to_owned();
        }
        k = k + 1;
    }
    let mut best: Option<usize> = None;
    let mut i: usize = 0;
    while i < variants.len()
        invariant
            i <= variants@.len(),
            vv == variants_view(variants@),
            !selectable_with_id(vv, preferred@),
            match best {
                Some(j) => best_selectable(vv, i as int) == Some(j as int),
                None => best_selectable(vv, i as int) is None,
            },
        decreases variants@.len() - i,
    {
        assert(vv[i as int] == variants@[i as int]@);
        proof {
            lemma_best_selectable(vv, i as int);
        }
        if variants[i].selectable {
            match best {
                Some(j) => {
                    assert(vv[j as int] == variants@[j as int]@);
                    if variants[j].priority <= variants[i].priority {
                        best = Some(i);
                    }
                },
                None => {
                    best = Some(i);
                },
            }
        }
        i = i + 1;
    }
    match best {
        Some(j) => {
            proof {
                lemma_best_selectable(vv, vv.len() as int);
            }
            assert(vv[j as int] == variants@[j as int]@);
            variants[j].runtime_id.clone()
        },
        None => {
            if variants.len() > 0 {
                assert(vv[0] == variants@[0]@);
                variants[0].runtime_id.clone()
            } else {
                String::new()
            }
        },
    }
}

/// A runtime variant as the settings page shows it.
pub struct RuntimeVariantRecord {
    pub runtime_id: String,
    pub label: String,
    pub platform: String,
    pub accelerator: String,
    pub backend: String,
    pub ffi_library: String,
    pub installed: bool,
    pub hardware_supported: bool,
    pub selectable: bool,
    pub selected: bool,
    pub support_detail: String,
}

/// The settings record of `variant`, marked selected when its id is
/// `selected_runtime_id`.
pub fn runtime_record(variant: &RuntimeVariant, selected_runtime_id: &str) -> (r: RuntimeVariantRecord)
    ensures
        r.runtime_id@ == variant.runtime_id@,
        r.label@ == variant.label@,
        r.platform@ == variant.platform@,
        r.accelerator@ == variant.accelerator@,
        r.backend@ == variant.backend@,
        r.ffi_library@ == variant.ffi_library@,
        r.installed == variant.installed,
        r.hardware_supported == variant.hardware_supported,
        r.selectable == variant.selectable,
        r.selected == (variant.runtime_id@ == selected_runtime_id@),
        r.support_detail@ == variant.support_detail@,
{
    RuntimeVariantRecord {
        runtime_id: variant.runtime_id.clone(),
        label: variant.label.clone(),
        platform: variant.platform.clone(),
        accelerator: variant.accelerator.clone(),
        backend: variant.backend.clone(),
        ffi_library: variant.ffi_library.clone(),
        installed: variant.installed,
        hardware_supported: variant.hardware_supported,
        selectable: variant.selectable,
        selected: str_eq(variant.runtime_id.as_str(), selected_runtime_id),
        support_detail: variant.support_detail.clone(),
    }
}

/// The variant whose id is `selected_runtime_id`, if any.
pub fn selected_runtime<'a>(variants: &'a [RuntimeVariant], selected_runtime_id: &str) -> (r: Option<&'a RuntimeVariant>)
    ensures
        match r {
            Some(v) => exists|k: int| 0 <= k < variants@.len() && variants@[k] == *v
                && v.runtime_id@ == selected_runtime_id@
                && forall|m: int| 0 <= m < k ==> (#[trigger] variants@[m]).runtime_id@ != selected_runtime_id@,
            None => forall|m: int| 0 <= m < variants@.len() ==> (#[trigger] variants@[m]).runtime_id@ != selected_runtime_id@,
        },
{
    let mut i: usize = 0;
    while i < variants.len()
        invariant
            i <= variants@.len(),
            forall|m: int| 0 <= m < i ==> (#[trigger] variants@[m]).runtime_id@ != selected_runtime_id@,
        decreases variants@.len() - i,
    {
        if str_eq(variants[i].runtime_id.as_str(), selected_runtime_id) {
            return Some(&variants[i]);
        }
        i = i + 1;
    }
    None
}

} // verus!
