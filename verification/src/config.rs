//! Server configuration: listening address, browser launch, directory layout.

use vstd::prelude::*;
use crate::markers::{digits_value, is_digit};
use crate::runtime::TargetPlatform;
use crate::logs::opt_view;
use crate::native::{starts_with, starts_with_exec};
use crate::order::{sort_texts_by_rank, sorted_by_rank, texts_view};
use crate::text::{append_str, chars_of, push_char, str_eq};

verus! {

pub const DEFAULT_PORT: u16 = 8765;

/// Where the server keeps its files, how it listens, and whether it opens a browser.
pub struct ServerConfig {
    pub app_root: String,
    pub client_dist: String,
    pub data_dir: String,
    pub cache_dir: String,
    pub log_dir: String,
    pub model_dir: String,
    pub database_path: String,
    pub pdfium_library_dir: Option<String>,
    pub host: String,
    pub port: u16,
    pub open_browser: bool,
}

// ---------------------------------------------------------------------------
// Port numbers

/// `s` read as a port the way `u16::from_str` reads it: an optional `+`,
/// then one or more ASCII digits, with a value that fits in 16 bits.
pub open spec fn all_digits(ds: Seq<char>) -> bool {
    forall|i: int| 0 <= i < ds.len() ==> is_digit(#[trigger] ds[i])
}

pub open spec fn parse_u16_spec(s: Seq<char>) -> Option<u16> {
    let ds = if s.len() > 0 && s[0] == '+' { s.drop_first() } else { s };
    if ds.len() > 0 && all_digits(ds) && digits_value(ds) <= 65535 {
        Some(digits_value(ds) as u16)
    } else {
        None
    }
}

proof fn lemma_digits_value_mono(ds: Seq<char>, n: int)
    requires
        0 <= n <= ds.len(),
        all_digits(ds),
    ensures
        digits_value(ds.subrange(0, n)) <= digits_value(ds),
    decreases ds.len() - n,
{
    if n < ds.len() {
        lemma_digits_value_mono(ds, n + 1);
        let p = ds.subrange(0, n + 1);
        assert(p.drop_last() =~= ds.subrange(0, n));
    } else {
        assert(ds.subrange(0, n) =~= ds);
    }
}

/// Parses a port number as `u16::from_str` does.
pub fn parse_port(s: &str) -> (r: Option<u16>)
    ensures
        r == parse_u16_spec(s@),
{
    let v = chars_of(s);
    let start: usize = if v.len() > 0 && v[0] == '+' { 1 } else { 0 };
    let ghost ds = if s@.len() > 0 && s@[0] == '+' { s@.drop_first() } else { s@ };
    assert(ds =~= v@.subrange(start as int, v@.len() as int));
    if start >= v.len() {
        return None;
    }
    let mut value: u32 = 0;
    let mut i = start;
    while i < v.len()
        invariant
            start <= i <= v@.len(),
            v@ == s@,
            ds == v@.subrange(start as int, v@.len() as int),
            ds == (if s@.len() > 0 && s@[0] == '+' { s@.drop_first() } else { s@ }),
            forall|k: int| 0 <= k < i - start ==> is_digit(#[trigger] ds[k]),
            value == digits_value(ds.subrange(0, i - start)),
            value <= 65535,
        decreases v@.len() - i,
    {
        let c = v[i];
        assert(ds[i - start] == c);
        if !('0' <= c && c <= '9') {
            assert(!is_digit(ds[i - start]));
            assert(!all_digits(ds));
            return None;
        }
        let d: u32 = (c as u32) - 48;
        proof {
            assert(ds.subrange(0, i + 1 - start).drop_last() =~= ds.subrange(0, i - start));
            assert(ds.subrange(0, i + 1 - start).last() == c);
        }
        let next: u32 = value * 10 + d;
        if next > 65535 {
            proof {
                assert(digits_value(ds.subrange(0, i + 1 - start)) > 65535);
                if all_digits(ds) {
                    lemma_digits_value_mono(ds, i + 1 - start);
                }
            }
            return None;
        }
        value = next;
        i = i + 1;
    }
    assert(ds.subrange(0, i - start) =~= ds);
    Some(value as u16)
}

// ---------------------------------------------------------------------------
// Arguments and environment

/// The listening port and browser choice after reading the command line:
/// `--port N`, `--port=N` (an unreadable number is ignored) and `--no-browser`.
pub open spec fn apply_args_spec(args: Seq<Seq<char>>, i: int, port: u16, open_browser: bool) -> (u16, bool)
    decreases args.len() - i,
{
    if i < 0 || i >= args.len() {
        (port, open_browser)
    } else {
        let a = args[i];
        if a == "--port"@ {
            if i + 1 < args.len() {
                let p = match parse_u16_spec(args[i + 1]) {
                    Some(v) => v,
                    None => port,
                };
                apply_args_spec(args, i + 2, p, open_browser)
            } else {
                (port, open_browser)
            }
        } else if a == "--no-browser"@ {
            apply_args_spec(args, i + 1, port, false)
        } else if a.len() >= 7 && a.subrange(0, 7) == "--port="@ {
            let p = match parse_u16_spec(a.subrange(7, a.len() as int)) {
                Some(v) => v,
                None => port,
            };
            apply_args_spec(args, i + 1, p, open_browser)
        } else {
            apply_args_spec(args, i + 1, port, open_browser)
        }
    }
}

pub open spec fn args_view(args: Seq<String>) -> Seq<Seq<char>> {
    args.map_values(|a: String| a@)
}

fn starts_with_port_eq(a: &str) -> (b: bool)
    ensures
        b == (a@.len() >= 7 && a@.subrange(0, 7) == "--port="@),
{
    let v = chars_of(a);
    let p = chars_of("--port=");
    proof {
        reveal_strlit("--port=");
    }
    if v.len() < 7 {
        return false;
    }
    let r = crate::text::occurs_at_exec(&v, 0, &p);
    assert(r == (v@.subrange(0, 7) == p@));
    r
}

/// Reads `--port` and `--no-browser` from the command line; the first
/// argument, the program name, is skipped.
pub fn apply_server_args(args: &[String], port: u16, open_browser: bool) -> (r: (u16, bool))
    ensures
        r == apply_args_spec(args_view(args@), 1, port, open_browser),
{
    let ghost av = args_view(args@);
    let ghost p0 = port;
    let ghost b0 = open_browser;
    let mut cur_port = port;
    let mut cur_open = open_browser;
    let mut i: usize = 1;
    while i < args.len()
        invariant
            av == args_view(args@),
            1 <= i,
            p0 == port,
            b0 == open_browser,
            apply_args_spec(av, 1, p0, b0) == apply_args_spec(av, i as int, cur_port, cur_open),
        decreases args@.len() - i,
    {
        let a = args[i].as_str();
        assert(av[i as int] == a@);
        if str_eq(a, "--port") {
            if i + 1 < args.len() {
                assert(av[i + 1] == args@[i + 1]@);
                if let Some(v) = parse_port(args[i + 1].as_str()) {
                    cur_port = v;
                }
                i = i + 2;
            } else {
                assert(a@ == "--port"@);
                assert(apply_args_spec(av, i as int, cur_port, cur_open) == (cur_port, cur_open));
                return (cur_port, cur_open);
            }
        } else if str_eq(a, "--no-browser") {
            cur_open = false;
            i = i + 1;
        } else if starts_with_port_eq(a) {
            let v = chars_of(a);
            let tail = crate::text::string_from_range(&v, 7, v.len());
            if let Some(p) = parse_port(tail.as_str()) {
                cur_port = p;
            }
            i = i + 1;
        } else {
            i = i + 1;
        }
    }
    (cur_port, cur_open)
}

/// The settings a server reads from its environment: `TRAPO_APP_ROOT`,
/// `TRAPO_HOST`, `TRAPO_PORT`, whether `TRAPO_NO_BROWSER` is set,
/// `TRAPO_LOG_DIR`, `TRAPO_CLIENT_DIST` and `TRAPO_PDFIUM_DIR`.
pub struct ServerEnv {
    pub app_root: Option<String>,
    pub host: Option<String>,
    pub port: Option<String>,
    pub no_browser: bool,
    pub log_dir: Option<String>,
    pub client_dist: Option<String>,
    pub pdfium_dir: Option<String>,
}

/// The host, port and browser choice from the environment, then the command line.
pub open spec fn network_settings_spec(host: Option<Seq<char>>, port: Option<Seq<char>>, no_browser: bool, args: Seq<Seq<char>>) -> (Seq<char>, u16, bool) {
    let h = match host {
        Some(h) => h,
        None => "127.0.0.1"@,
    };
    let p = match port {
        Some(p) => match parse_u16_spec(p) {
            Some(v) => v,
            None => DEFAULT_PORT,
        },
        None => DEFAULT_PORT,
    };
    let (p2, b2) = apply_args_spec(args, 1, p, !no_browser);
    (h, p2, b2)
}

/// Host, port and browser launch: `TRAPO_HOST` (default `127.0.0.1`),
/// `TRAPO_PORT` (default 8765), `TRAPO_NO_BROWSER`, then the arguments.
pub fn network_settings(env: &ServerEnv, args: &[String]) -> (r: (String, u16, bool))
    ensures
        (r.0@, r.1, r.2) == network_settings_spec(crate::logs::opt_view(env.host), crate::logs::opt_view(env.port),
            env.no_browser, args_view(args@)),
{
    let host = match &env.host {
        Some(h) => h.clone(),
        None => "127.0.0.1".to_owned(),
    };
    let port = match &env.port {
        Some(p) => match parse_port(p.as_str()) {
            Some(v) => v,
            None => DEFAULT_PORT,
        },
        None => DEFAULT_PORT,
    };
    let (port, open_browser) = apply_server_args(args, port, !env.no_browser);
    (host, port, open_browser)
}

// ---------------------------------------------------------------------------
// Directories

/// A directory lies in a Cargo build tree when one of its path components
/// (listed from the directory itself up to the root) is `target`.
pub fn is_cargo_target_dir(ancestor_names: &[String]) -> (b: bool)
    ensures
        b == exists|i: int| 0 <= i < ancestor_names@.len() && (#[trigger] ancestor_names@[i])@ == "target"@,
{
    let mut i: usize = 0;
    while i < ancestor_names.len()
        invariant
            i <= ancestor_names@.len(),
            forall|k: int| 0 <= k < i ==> (#[trigger] ancestor_names@[k])@ != "target"@,
        decreases ancestor_names@.len() - i,
    {
        if str_eq(ancestor_names[i].as_str(), "target") {
            return true;
        }
        i = i + 1;
    }
    false
}

/// The file name of the PDFium library on `target`.
pub fn pdfium_library_name(target: TargetPlatform) -> (r: &'static str)
    ensures
        r@ == match target {
            TargetPlatform::WindowsArm64 | TargetPlatform::WindowsX64 => "pdfium.dll"@,
            TargetPlatform::MacOs => "libpdfium.dylib"@,
            _ => "libpdfium.so"@,
        },
{
    match target {
        TargetPlatform::WindowsArm64 | TargetPlatform::WindowsX64 => "pdfium.dll",
        TargetPlatform::MacOs => "libpdfium.dylib",
        _ => "libpdfium.so",
    }
}

/// Of the candidate directories, in order, the first that holds the library.
pub fn first_existing(has_library: &[bool]) -> (r: Option<usize>)
    ensures
        match r {
            Some(i) => i < has_library@.len() && has_library@[i as int] && forall|k: int| 0 <= k < i ==> !has_library@[k],
            None => forall|k: int| 0 <= k < has_library@.len() ==> !has_library@[k],
        },
{
    let mut i: usize = 0;
    while i < has_library.len()
        invariant
            i <= has_library@.len(),
            forall|k: int| 0 <= k < i ==> !has_library@[k],
        decreases has_library@.len() - i,
    {
        if has_library[i] {
            return Some(i);
        }
        i = i + 1;
    }
    None
}

// ---------------------------------------------------------------------------
// Paths

/// `c` ends a path component: the platform's separator `sep`, or `/`, which
/// every platform reads as one.
pub open spec fn is_separator(c: char, sep: char) -> bool {
    c == sep || c == '/'
}

/// The relative path `name` joined onto `base` as `Path::join` joins it: a
/// separator goes between them unless `base` is empty or already ends in one.
pub open spec fn joined(base: Seq<char>, name: Seq<char>, sep: char) -> Seq<char> {
    if base.len() == 0 || is_separator(base.last(), sep) {
        base + name
    } else {
        base.push(sep) + name
    }
}

/// Joins the relative path `name` onto `base`, with `sep` as the separator.
pub fn join_path(base: &str, name: &str, sep: char) -> (r: String)
    ensures
        r@ == joined(base@, name@, sep),
{
    let v = chars_of(base);
    let mut r = base.to_owned();
    if v.len() > 0 && v[v.len() - 1] != sep && v[v.len() - 1] != '/' {
        push_char(&mut r, sep);
    }
    append_str(&mut r, name);
    r
}

// ---------------------------------------------------------------------------
// Directory layout

/// The application root: `TRAPO_APP_ROOT` when set, else the directory of the
/// running executable unless that lies in a Cargo build tree, else the source
/// checkout's root.
pub open spec fn app_root_spec(env_root: Option<Seq<char>>, exe_dir: Option<Seq<char>>, exe_in_target: bool, source_root: Seq<char>) -> Seq<char> {
    match env_root {
        Some(r) => r,
        None => match exe_dir {
            Some(d) if !exe_in_target => d,
            _ => source_root,
        },
    }
}

/// Picks the application root; `exe_ancestor_names` are the names of the
/// executable's directory and of each directory above it.
pub fn choose_app_root(env: &ServerEnv, exe_dir: Option<String>, exe_ancestor_names: &[String], source_root: String) -> (r: String)
    ensures
        r@ == app_root_spec(
            opt_view(env.app_root),
            opt_view(exe_dir),
            exists|i: int| 0 <= i < exe_ancestor_names@.len() && (#[trigger] exe_ancestor_names@[i])@ == "target"@,
            source_root@,
        ),
{
    match &env.app_root {
        Some(root) => root.clone(),
        None => match exe_dir {
            Some(dir) => {
                if is_cargo_target_dir(exe_ancestor_names) {
                    source_root
                } else {
                    dir
                }
            },
            None => source_root,
        },
    }
}

/// The page a packaged web client is served from.
pub fn web_index_file(app_root: &str, sep: char) -> (r: String)
    ensures
        r@ == joined(joined(app_root@, "web"@, sep), "index.html"@, sep),
{
    let web = join_path(app_root, "web", sep);
    join_path(web.as_str(), "index.html", sep)
}

/// Where the web client is served from: the packaged `web` directory when it
/// holds an index page, else the client's build output in the source tree.
pub open spec fn client_dist_spec(root: Seq<char>, sep: char, web_index_exists: bool) -> Seq<char> {
    if web_index_exists {
        joined(root, "web"@, sep)
    } else {
        joined(joined(joined(root, "src"@, sep), "trapo-client"@, sep), "dist"@, sep)
    }
}

/// The three places under `root` where a bundled PDFium may lie.
pub open spec fn pdfium_dirs_in(root: Seq<char>, sep: char) -> Seq<Seq<char>> {
    let p = joined(joined(root, "thirdparty"@, sep), "pdfium"@, sep);
    seq![joined(p, "bin"@, sep), joined(p, "lib"@, sep), p]
}

/// The entries of the `dist` directory that are packaged workbenches.
pub open spec fn workbench_roots(names: Seq<Seq<char>>) -> Seq<Seq<char>>
    decreases names.len(),
{
    if names.len() == 0 {
        seq![]
    } else if starts_with(names.last(), "trapo-workbench-"@) {
        workbench_roots(names.drop_last()).push(names.last())
    } else {
        workbench_roots(names.drop_last())
    }
}

/// The PDFium places of the packaged workbenches `names` under `root/dist`,
/// workbench after workbench.
pub open spec fn dist_pdfium_dirs(root: Seq<char>, names: Seq<Seq<char>>, sep: char) -> Seq<Seq<char>>
    decreases names.len(),
{
    if names.len() == 0 {
        seq![]
    } else {
        dist_pdfium_dirs(root, names.drop_last(), sep) + pdfium_dirs_in(
            joined(joined(root, "dist"@, sep), names.last(), sep),
            sep,
        )
    }
}

pub open spec fn unranked() -> spec_fn(Seq<char>) -> u8 {
    |t: Seq<char>| 0u8
}

/// The directories searched for PDFium, in order: those bundled under the
/// application root, the root itself, then those of the packaged workbenches
/// in `dist`, the greatest name first. `dist_entries` are the names of the
/// entries of `app_root/dist`.
pub fn pdfium_candidate_dirs(app_root: &str, dist_entries: &[String], sep: char) -> (r: Vec<String>)
    ensures
        exists|names: Seq<Seq<char>>|
            sorted_by_rank(names, workbench_roots(texts_view(dist_entries@)), unranked()) && #[trigger] texts_view(r@)
                == pdfium_dirs_in(app_root@, sep).push(app_root@) + dist_pdfium_dirs(app_root@, names.reverse(), sep),
{
    let ghost entries = texts_view(dist_entries@);
    let mut roots: Vec<String> = Vec::new();
    let mut i: usize = 0;
    while i < dist_entries.len()
        invariant
            i <= dist_entries@.len(),
            entries == texts_view(dist_entries@),
            texts_view(roots@) == workbench_roots(entries.take(i as int)),
        decreases dist_entries@.len() - i,
    {
        proof {
            assert(entries.take(i as int + 1).drop_last() =~= entries.take(i as int));
            assert(entries.take(i as int + 1).last() == dist_entries@[i as int]@);
        }
        if starts_with_exec(dist_entries[i].as_str(), "trapo-workbench-") {
            let ghost before = roots@;
            roots.push(dist_entries[i].clone());
            proof {
                assert(texts_view(roots@) =~= texts_view(before).push(dist_entries@[i as int]@));
            }
        }
        i = i + 1;
    }
    proof {
        assert(entries.take(entries.len() as int) =~= entries);
    }
    let n = roots.len();
    let mut ranks: Vec<u8> = Vec::new();
    let mut j: usize = 0;
    while j < n
        invariant
            j <= n,
            ranks@.len() == j,
            forall|k: int| 0 <= k < j ==> #[trigger] ranks@[k] == 0u8,
        decreases n - j,
    {
        ranks.push(0u8);
        j = j + 1;
    }
    let sorted = sort_texts_by_rank(roots, ranks, Ghost(unranked()));
    let ghost names = texts_view(sorted@);
    let dirs = pdfium_dirs_vec(app_root, sep);
    let mut out: Vec<String> = dirs;
    out.push(app_root.to_owned());
    let dist = join_path(app_root, "dist", sep);
    let m = sorted.len();
    let mut k: usize = m;
    proof {
        assert(names.reverse().take(0) =~= Seq::<Seq<char>>::empty());
        assert(texts_view(out@) =~= pdfium_dirs_in(app_root@, sep).push(app_root@) + dist_pdfium_dirs(
            app_root@,
            names.reverse().take(0),
            sep,
        ));
    }
    while k > 0
        invariant
            k <= m,
            m == sorted@.len(),
            names == texts_view(sorted@),
            dist@ == joined(app_root@, "dist"@, sep),
            texts_view(out@) == pdfium_dirs_in(app_root@, sep).push(app_root@) + dist_pdfium_dirs(
                app_root@,
                names.reverse().take(m - k),
                sep,
            ),
        decreases k,
    {
        k = k - 1;
        let root = join_path(dist.as_str(), sorted[k].as_str(), sep);
        let more = pdfium_dirs_vec(root.as_str(), sep);
        let ghost before = texts_view(out@);
        let mut t: usize = 0;
        while t < more.len()
            invariant
                t <= more@.len(),
                texts_view(out@) == before + texts_view(more@).take(t as int),
            decreases more@.len() - t,
        {
            let ghost o = out@;
            out.push(more[t].clone());
            proof {
                assert(texts_view(out@) =~= texts_view(o).push(more@[t as int]@));
                assert(texts_view(more@).take(t as int + 1) =~= texts_view(more@).take(t as int).push(more@[t as int]@));
                assert(texts_view(out@) =~= before + texts_view(more@).take(t as int + 1));
            }
            t = t + 1;
        }
        proof {
            let rs = names.reverse().take(m - k);
            assert(rs.drop_last() =~= names.reverse().take(m - k - 1));
            assert(rs.last() == names[k as int]);
            assert(texts_view(more@).take(more@.len() as int) =~= texts_view(more@));
            assert(texts_view(out@) =~= pdfium_dirs_in(app_root@, sep).push(app_root@) + dist_pdfium_dirs(
                app_root@,
                rs,
                sep,
            ));
        }
    }
    proof {
        assert(names.reverse().take(m as int) =~= names.reverse());
    }
    out
}

fn pdfium_dirs_vec(root: &str, sep: char) -> (r: Vec<String>)
    ensures
        texts_view(r@) == pdfium_dirs_in(root@, sep),
{
    let third = join_path(root, "thirdparty", sep);
    let p = join_path(third.as_str(), "pdfium", sep);
    let bin = join_path(p.as_str(), "bin", sep);
    let lib = join_path(p.as_str(), "lib", sep);
    let r = vec![bin, lib, p];
    proof {
        assert(texts_view(r@) =~= pdfium_dirs_in(root@, sep));
    }
    r
}

/// Of the candidate directories, the first that holds the library.
pub fn resolve_pdfium_dir(candidates: &[String], has_library: &[bool]) -> (r: Option<String>)
    requires
        has_library@.len() == candidates@.len(),
    ensures
        match r {
            Some(d) => exists|i: int|
                0 <= i < candidates@.len() && has_library@[i] && (forall|k: int| 0 <= k < i ==> !has_library@[k])
                    && d@ == (#[trigger] candidates@[i])@,
            None => forall|k: int| 0 <= k < has_library@.len() ==> !has_library@[k],
        },
{
    match first_existing(has_library) {
        Some(i) => Some(candidates[i].clone()),
        None => None,
    }
}

/// What the file system shows under the application root: whether a packaged
/// web client is there, and the directory PDFium was found in, if any.
pub struct LayoutProbe {
    pub web_index_exists: bool,
    pub pdfium_dir: Option<String>,
}

impl ServerConfig {
    /// The configuration under `app_root`: the environment's settings first,
    /// then the command line `args` (whose first item is the program), then
    /// the directory layout, with `sep` as the path separator.
    pub fn from_env_and_args(env: &ServerEnv, args: &[String], app_root: String, sep: char, probe: LayoutProbe) -> (cfg: ServerConfig)
        ensures
            cfg.app_root@ == app_root@,
            cfg.data_dir@ == joined(app_root@, "data"@, sep),
            cfg.cache_dir@ == joined(app_root@, "cache"@, sep),
            cfg.log_dir@ == match env.log_dir {
                Some(d) => d@,
                None => joined(app_root@, "logs"@, sep),
            },
            cfg.model_dir@ == joined(app_root@, "models"@, sep),
            cfg.database_path@ == joined(joined(app_root@, "data"@, sep), "trapo.duckdb"@, sep),
            cfg.client_dist@ == match env.client_dist {
                Some(d) => d@,
                None => client_dist_spec(app_root@, sep, probe.web_index_exists),
            },
            opt_view(cfg.pdfium_library_dir) == match env.pdfium_dir {
                Some(d) => Some(d@),
                None => opt_view(probe.pdfium_dir),
            },
            (cfg.host@, cfg.port, cfg.open_browser) == network_settings_spec(
                opt_view(env.host),
                opt_view(env.port),
                env.no_browser,
                args_view(args@),
            ),
    {
        let (host, port, open_browser) = network_settings(env, args);
        let data_dir = join_path(app_root.as_str(), "data", sep);
        let cache_dir = join_path(app_root.as_str(), "cache", sep);
        let log_dir = match &env.log_dir {
            Some(d) => d.clone(),
            None => join_path(app_root.as_str(), "logs", sep),
        };
        let model_dir = join_path(app_root.as_str(), "models", sep);
        let database_path = join_path(data_dir.as_str(), "trapo.duckdb", sep);
        let client_dist = match &env.client_dist {
            Some(d) => d.clone(),
            None => {
                if probe.web_index_exists {
                    join_path(app_root.as_str(), "web", sep)
                } else {
                    let src = join_path(app_root.as_str(), "src", sep);
                    let client = join_path(src.as_str(), "trapo-client", sep);
                    join_path(client.as_str(), "dist", sep)
                }
            },
        };
        let pdfium_library_dir = match &env.pdfium_dir {
            Some(d) => Some(d.clone()),
            None => probe.pdfium_dir,
        };
        ServerConfig {
            app_root,
            client_dist,
            data_dir,
            cache_dir,
            log_dir,
            model_dir,
            database_path,
            pdfium_library_dir,
            host,
            port,
            open_browser,
        }
    }
}

} // verus!
