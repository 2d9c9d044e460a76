//! Converting a model with the provider's own converter.
//!
//! The tool that owns the format is run, and never reimplemented. **It is found
//! through the provider, not through a search path**: the converter must match
//! the serving binary's build, which is a fact about the user's own setup. A
//! mismatch is refused rather than attempted.
use vstd::prelude::*;

use crate::config::Config;
use crate::intake::hf::{is_safetensors, Repo, RepoFile};
use crate::intake::run::{size_of, weight};
use crate::inventory::artifact::{Format, Quant};
use crate::paths::{parent, parent_text};
use crate::provider::ProviderKind;
use crate::render::{bytes_text, human_bytes};
use crate::seqs::{capped, lemma_filter_take, lemma_total_take, saturating_product, total};
use crate::text::{
    cat2, cat3, cat4, cat5, chars, first_word, first_word_of, from_utf8_lossy, lossy, number,
    opt_text, replace, replaced, texts, trim, trimmed,
};

verus! {

#[derive(Debug, Clone, Copy, PartialEq, Eq, Structural)]
pub enum Target {
    Gguf,
    Mlx,
}

pub open spec fn target_text(t: Target) -> Seq<char> {
    match t {
        Target::Gguf => "gguf"@,
        Target::Mlx => "mlx"@,
    }
}

impl Target {
    pub fn as_str(&self) -> (s: &'static str)
        ensures
            s@ == target_text(*self),
    {
        match self {
            Target::Gguf => "gguf",
            Target::Mlx => "mlx",
        }
    }
}

/// Where the converter for a target lives, and which build it is.
#[derive(Debug)]
pub enum Converter {
    /// A llama.cpp checkout whose `convert_hf_to_gguf.py` is at `build`.
    LlamaCpp { script: String, python: String, build: String },
    /// A venv with `mlx_lm` in it.
    MlxLm { python: String },
    /// Present, but at a different build than the server it would feed.
    BuildMismatch { converter: String, server: String },
    Missing { looked_in: String, target: Target },
}

/// A converter, in texts.
#[verifier::ext_equal]
pub enum Tool {
    LlamaCpp { script: Seq<char>, python: Seq<char>, build: Seq<char> },
    MlxLm { python: Seq<char> },
    BuildMismatch { converter: Seq<char>, server: Seq<char> },
    Missing { looked_in: Seq<char>, target: Target },
}

pub open spec fn tool(c: Converter) -> Tool {
    match c {
        Converter::LlamaCpp { script, python, build } => Tool::LlamaCpp {
            script: script@,
            python: python@,
            build: build@,
        },
        Converter::MlxLm { python } => Tool::MlxLm { python: python@ },
        Converter::BuildMismatch { converter, server } => Tool::BuildMismatch {
            converter: converter@,
            server: server@,
        },
        Converter::Missing { looked_in, target } => Tool::Missing { looked_in: looked_in@, target },
    }
}

impl Converter {
    /// A stand-in for a correctly set up toolchain for `target`.
    pub fn for_test(target: Target) -> (c: Converter)
        ensures
            tool(c) == match target {
                Target::Gguf => Tool::LlamaCpp {
                    script: "/home/.llamacpp/repo/convert_hf_to_gguf.py"@,
                    python: "/home/.llamacpp/venv/bin/python"@,
                    build: "b10240"@,
                },
                Target::Mlx => Tool::MlxLm { python: "/home/.vllm-mlx/venv/bin/python"@ },
            },
    {
        match target {
            Target::Gguf => Converter::LlamaCpp {
                script: "/home/.llamacpp/repo/convert_hf_to_gguf.py".to_owned(),
                python: "/home/.llamacpp/venv/bin/python".to_owned(),
                build: "b10240".to_owned(),
            },
            Target::Mlx => Converter::MlxLm {
                python: "/home/.vllm-mlx/venv/bin/python".to_owned(),
            },
        }
    }

    pub fn mismatched_for_test() -> (c: Converter)
        ensures
            tool(c) == (Tool::BuildMismatch { converter: "master"@, server: "b10240"@ }),
    {
        Converter::BuildMismatch { converter: "master".to_owned(), server: "b10240".to_owned() }
    }

    pub fn build(&self) -> (r: Option<&str>)
        ensures
            match *self {
                Converter::LlamaCpp { build, .. } => r matches Some(b) && b@ == build@,
                _ => r is None,
            },
    {
        match self {
            Converter::LlamaCpp { build, .. } => Some(build.as_str()),
            _ => None,
        }
    }
}

/// The provider that a target is served by.
pub open spec fn server_of(target: Target) -> ProviderKind {
    match target {
        Target::Gguf => ProviderKind::LlamaCpp,
        Target::Mlx => ProviderKind::Vllm,
    }
}

/// The directory a start command runs in: that of its first word, with the
/// home directory written out.
pub open spec fn root_in(start: Seq<char>, home: Option<Seq<char>>) -> Option<Seq<char>> {
    match home {
        Some(h) => match first_word_of(start) {
            Some(w) => parent_text(replaced(w, "$HOME"@, h)),
            None => None,
        },
        None => None,
    }
}

/// The conventional directory of a target's provider.
pub open spec fn usual_root(target: Target, home: Option<Seq<char>>) -> Seq<char> {
    let h = match home {
        Some(h) => h,
        None => ""@,
    };
    match target {
        Target::Gguf => h + "/.llamacpp"@,
        Target::Mlx => h + "/.vllm-mlx"@,
    }
}

/// The start command of a target's provider.
pub open spec fn start_of(config: Config, target: Target) -> Option<Seq<char>> {
    match crate::seqs::first_match(
        config.providers@,
        |p: crate::config::ProviderConfig| p.kind == server_of(target),
    ) {
        Some(p) => opt_text(p.start),
        None => None,
    }
}

/// The directory of a target's provider: where its start command leads, and
/// the conventional one otherwise.
pub open spec fn tool_root(config: Config, target: Target, home: Option<Seq<char>>) -> Seq<char> {
    match start_of(config, target) {
        Some(s) => match root_in(s, home) {
            Some(r) => r,
            None => usual_root(target, home),
        },
        None => usual_root(target, home),
    }
}

/// The file whose being there decides whether there is a converter.
pub open spec fn looked_for(root: Seq<char>, target: Target) -> Seq<char> {
    match target {
        Target::Gguf => root + "/repo/convert_hf_to_gguf.py"@,
        Target::Mlx => root + "/venv/bin/python"@,
    }
}

/// `$HOME/.llamacpp/serve-pool --port 8080` -> `/Users/x/.llamacpp`.
fn provider_root(start: &str, home: Option<&str>) -> (r: Option<String>)
    ensures
        opt_text(r) == root_in(start@, crate::intake::provenance::named(home)),
{
    match home {
        Some(h) => match first_word(start) {
            Some(w) => {
                proof {
                    reveal_strlit("$HOME");
                }
                parent(replace(w.as_str(), "$HOME", h).as_str())
            },
            None => None,
        },
        None => None,
    }
}

/// The directory of a target's provider.
pub fn root_for(config: &Config, target: Target, home: Option<&str>) -> (r: String)
    ensures
        r@ == tool_root(*config, target, crate::intake::provenance::named(home)),
{
    let want = match target {
        Target::Gguf => ProviderKind::LlamaCpp,
        Target::Mlx => ProviderKind::Vllm,
    };
    let found = match config.provider(want) {
        Some(p) => match &p.start {
            Some(s) => provider_root(s.as_str(), home),
            None => None,
        },
        None => None,
    };
    match found {
        Some(r) => r,
        None => {
            let h = match home {
                Some(h) => h,
                None => "",
            };
            match target {
                Target::Gguf => cat2(h, "/.llamacpp"),
                Target::Mlx => cat2(h, "/.vllm-mlx"),
            }
        },
    }
}

/// The file whose being there decides whether there is a converter.
pub fn looked_in(root: &str, target: Target) -> (r: String)
    ensures
        r@ == looked_for(root@, target),
{
    match target {
        Target::Gguf => cat2(root, "/repo/convert_hf_to_gguf.py"),
        Target::Mlx => cat2(root, "/venv/bin/python"),
    }
}

/// The build a checkout says it is at: what its `git describe` printed, where
/// it printed anything and did not fail.
pub open spec fn tag_said(succeeded: bool, printed: Seq<u8>) -> Option<Seq<char>> {
    let tag = trimmed(lossy(printed));
    if succeeded && tag.len() > 0 {
        Some(tag)
    } else {
        None
    }
}

/// The checkout's build tag, which is what has to match the serving binary.
pub fn build_tag(succeeded: bool, printed: &[u8]) -> (r: Option<String>)
    ensures
        opt_text(r) == tag_said(succeeded, printed@),
{
    let tag = trim(from_utf8_lossy(printed).as_str());
    if succeeded && chars(tag.as_str()).len() > 0 {
        Some(tag)
    } else {
        None
    }
}

/// The converter for a target under its provider's directory, given whether
/// the file looked for is there and which build its checkout is at.
pub fn discover(root: &str, target: Target, present: bool, build: Option<String>) -> (c: Converter)
    ensures
        tool(c) == if !present {
            Tool::Missing { looked_in: looked_for(root@, target), target }
        } else {
            match target {
                Target::Gguf => Tool::LlamaCpp {
                    script: looked_for(root@, target),
                    python: root@ + "/venv/bin/python"@,
                    build: match build {
                        Some(b) => b@,
                        None => Seq::empty(),
                    },
                },
                Target::Mlx => Tool::MlxLm { python: looked_for(root@, target) },
            }
        },
{
    let path = looked_in(root, target);
    if !present {
        return Converter::Missing { looked_in: path, target };
    }
    match target {
        Target::Gguf => {
            let build = match build {
                Some(b) => b,
                None => {
                    let none = String::new();
                    proof {
                        assert(none@ =~= Seq::empty());
                    }
                    none
                },
            };
            Converter::LlamaCpp { script: path, python: cat2(root, "/venv/bin/python"), build }
        },
        Target::Mlx => Converter::MlxLm { python: path },
    }
}

pub open spec fn is_source_file(f: RepoFile) -> bool {
    is_safetensors(f.format)
}

/// The files a conversion reads.
pub open spec fn source_files(files: Seq<RepoFile>) -> Seq<RepoFile> {
    files.filter(|f: RepoFile| is_source_file(f))
}

/// The weight files a conversion would read: what they are, and what they
/// weigh together.
///
/// Sharded sources are summed: the converter reads every one, so pricing the
/// smallest would understate the job. One missing size makes the whole
/// unknown.
pub fn source_of(repo: &Repo) -> (r: Option<(Format, u64)>)
    requires
        weight(source_files(repo.files@)) matches Some(n) ==> n <= u64::MAX,
    ensures
        match r {
            Some((format, bytes)) => {
                &&& source_files(repo.files@).len() > 0
                &&& format == source_files(repo.files@)[0].format
                &&& weight(source_files(repo.files@)) == Some(bytes as nat)
            },
            None => source_files(repo.files@).len() == 0 || weight(source_files(repo.files@)) is None,
        },
{
    let ghost p = |f: RepoFile| is_source_file(f);
    let ghost g = |f: RepoFile| size_of(f);
    let ghost all = source_files(repo.files@);
    let mut parts: Vec<RepoFile> = Vec::new();
    let mut i: usize = 0;
    while i < repo.files.len()
        invariant
            i <= repo.files@.len(),
            p == (|f: RepoFile| is_source_file(f)),
            parts@ == repo.files@.take(i as int).filter(p),
        decreases repo.files.len() - i,
    {
        proof {
            lemma_filter_take(repo.files@, p, i as int);
        }
        if let Format::Safetensors(_) = repo.files[i].format {
            parts.push(repo.files[i].clone());
        }
        i += 1;
    }
    proof {
        assert(repo.files@.take(i as int) =~= repo.files@);
    }
    if parts.len() == 0 {
        return None;
    }
    let mut k: usize = 0;
    while k < parts.len()
        invariant
            k <= parts@.len(),
            parts@ == all,
            all == source_files(repo.files@),
            forall|j: int| 0 <= j < k ==> (#[trigger] parts@[j]).size_bytes is Some,
        decreases parts.len() - k,
    {
        if parts[k].size_bytes.is_none() {
            return None;
        }
        k += 1;
    }
    let mut bytes: u64 = 0;
    let mut n: usize = 0;
    while n < parts.len()
        invariant
            n <= parts@.len(),
            parts@ == all,
            g == (|f: RepoFile| size_of(f)),
            forall|j: int| 0 <= j < parts@.len() ==> (#[trigger] parts@[j]).size_bytes is Some,
            total(all, g) <= u64::MAX,
            bytes == total(all.take(n as int), g),
        decreases parts.len() - n,
    {
        proof {
            lemma_total_take(all, g, n as int);
        }
        if let Some(b) = parts[n].size_bytes {
            bytes = bytes + b;
        }
        n += 1;
    }
    proof {
        assert(all.take(n as int) =~= all);
    }
    Some((parts[0].format, bytes))
}

pub struct Request {
    pub repo: String,
    pub target: Target,
    /// What the repo declares it publishes.
    pub source_format: Format,
    pub download_bytes: u64,
    /// Output bit depth, where the target takes one.
    pub bits: Option<u8>,
    pub converter: Converter,
    pub free_disk_bytes: u64,
    /// Where the result lands. Named by the caller.
    pub out_path: String,
}

/// What a conversion would cost and how it would be run. Moves nothing.
#[derive(Debug)]
pub struct Plan {
    pub repo: String,
    pub target: Target,
    pub argv: Vec<String>,
    /// The source, as fetched.
    pub download_bytes: u64,
    /// Peak working space. For a quantised source this is the dequantised
    /// model, which is several times the download.
    pub scratch_bytes: u64,
    pub result_bytes: u64,
    /// Which build produced it. Recorded on the artifact.
    pub converter_build: Option<String>,
}

/// Every byte that has to be free at once: the download is still on disk while
/// the scratch is written, and the scratch while the result is.
pub open spec fn at_once(download: u64, scratch: u64, result: u64) -> u64 {
    capped((download + scratch + result) as nat)
}

impl Plan {
    /// Every byte that has to be free at once.
    pub fn total_bytes(&self) -> (n: u64)
        ensures
            n == at_once(self.download_bytes, self.scratch_bytes, self.result_bytes),
    {
        self.download_bytes.saturating_add(self.scratch_bytes).saturating_add(self.result_bytes)
    }
}

/// How much larger than its download a source becomes at full precision. What
/// is at full precision already needs no copy of its own; the margin for the
/// rest is deliberately generous.
pub open spec fn multiple(source: Quant) -> u64 {
    if source == Quant::Bf16 {
        0
    } else {
        3
    }
}

/// The space a conversion works in.
pub open spec fn scratch(download: u64, source: Quant) -> u64 {
    capped((download * multiple(source)) as nat)
}

/// What a conversion needs at once, whatever 64 bits can hold.
pub open spec fn needed(download: u64, source: Quant) -> nat {
    download as nat + (download as nat) * (multiple(source) as nat) + download as nat
}

/// The command that converts to GGUF.
pub open spec fn gguf_argv(
    script: Seq<char>,
    python: Seq<char>,
    out_path: Seq<char>,
    bits: Option<u8>,
    source: Quant,
) -> Seq<Seq<char>> {
    let base = seq![
        python,
        script,
        "--outfile"@,
        out_path,
        "--outtype"@,
        if bits == Some(8u8) {
            "q8_0"@
        } else {
            "bf16"@
        },
    ];
    if source == Quant::Fp8 || source == Quant::CompressedTensors {
        base.push("--fp8-as-q8"@)
    } else {
        base
    }
}

/// The command that converts to MLX.
pub open spec fn mlx_argv(
    python: Seq<char>,
    repo: Seq<char>,
    out_path: Seq<char>,
    bits: Option<u8>,
    source: Quant,
) -> Seq<Seq<char>> {
    let base = seq![
        python,
        "-m"@,
        "mlx_lm.convert"@,
        "--hf-path"@,
        repo,
        "--mlx-path"@,
        out_path,
    ];
    let full = if source != Quant::Bf16 {
        base.push("--dequantize"@)
    } else {
        base
    };
    match bits {
        Some(b) => full.push("--quantize"@).push("--q-bits"@).push(crate::text::decimal(b as nat)),
        None => full,
    }
}

/// The command of a conversion, or why there is none.
pub open spec fn command(r: Request, source: Quant) -> Result<Seq<Seq<char>>, Seq<char>> {
    match tool(r.converter) {
        Tool::BuildMismatch { converter, server } => Err(
            "the converter is at build `"@ + converter
                + "` and the server it would feed is at `"@ + server
                + "`; converting across a build boundary produced GGUFs that would not load (docs/inventory.md \u{a7}5), so this is refused rather than attempted"@,
        ),
        Tool::Missing { looked_in, target } => Err(
            "no "@ + target_text(target) + " converter found; looked in `"@ + looked_in + "`"@,
        ),
        Tool::LlamaCpp { script, python, .. } => if r.target == Target::Gguf {
            match r.bits {
                Some(b) => if b != 8 && b != 16 {
                    Err(
                        "`convert_hf_to_gguf.py` writes bf16 or q8_0 and nothing else; "@
                            + crate::text::decimal(b as nat)
                            + "-bit GGUF needs a second pass through `llama-quantize`, which harmony does not run yet"@,
                    )
                } else {
                    Ok(gguf_argv(script, python, r.out_path@, r.bits, source))
                },
                None => Ok(gguf_argv(script, python, r.out_path@, r.bits, source)),
            }
        } else {
            Err("the llama.cpp converter cannot produce mlx"@)
        },
        Tool::MlxLm { python } => if r.target == Target::Mlx {
            Ok(mlx_argv(python, r.repo@, r.out_path@, r.bits, source))
        } else {
            Err("the mlx_lm converter cannot produce gguf"@)
        },
    }
}

/// Why a conversion does not fit: all three figures, named.
pub open spec fn no_room_text(download: u64, scratch: u64, result: u64, free: u64) -> Seq<char> {
    "needs "@ + bytes_text(at_once(download, scratch, result) as nat) + " at once \u{2014} "@
        + bytes_text(download as nat) + " download, "@ + bytes_text(scratch as nat) + " scratch, "@
        + bytes_text(result as nat) + " result \u{2014} and "@ + bytes_text(free as nat)
        + " is free"@
}

/// Why a conversion is refused, where it is.
pub open spec fn refusal(r: Request) -> Option<Seq<char>> {
    match r.source_format {
        Format::Safetensors(source) => if !source.convertible() {
            Some(
                "`"@ + r.repo@
                    + "` declares a quantisation this build does not know how to read, so harmony cannot promise to dequantise it \u{2014} refusing rather than starting an hour of work on a guess"@,
            )
        } else {
            match command(r, source) {
                Err(e) => Some(e),
                Ok(_) => {
                    let s = scratch(r.download_bytes, source);
                    if needed(r.download_bytes, source) > r.free_disk_bytes {
                        Some(
                            no_room_text(
                                r.download_bytes,
                                s,
                                r.download_bytes,
                                r.free_disk_bytes,
                            ),
                        )
                    } else {
                        None
                    }
                },
            }
        },
        _ => Some(
            "`"@ + r.repo@
                + "` is already in a format a provider here loads; there is nothing to convert"@,
        ),
    }
}

fn owned(s: &str) -> (r: String)
    ensures
        r@ == s@,
{
    s.to_owned()
}

fn argv_for(request: &Request, source: Quant) -> (r: Result<Vec<String>, String>)
    ensures
        match r {
            Ok(v) => command(*request, source) == Ok::<Seq<Seq<char>>, Seq<char>>(texts(v@)),
            Err(e) => command(*request, source) == Err::<Seq<Seq<char>>, Seq<char>>(e@),
        },
{
    match &request.converter {
        Converter::BuildMismatch { converter, server } => Err(
            cat5(
                "the converter is at build `",
                converter.as_str(),
                "` and the server it would feed is at `",
                server.as_str(),
                "`; converting across a build boundary produced GGUFs that would not load (docs/inventory.md \u{a7}5), so this is refused rather than attempted",
            ),
        ),
        Converter::Missing { looked_in, target } => Err(
            cat5(
                "no ",
                target.as_str(),
                " converter found; looked in `",
                looked_in.as_str(),
                "`",
            ),
        ),
        Converter::LlamaCpp { script, python, .. } => {
            if request.target != Target::Gguf {
                return Err("the llama.cpp converter cannot produce mlx".to_owned());
            }
            if let Some(b) = request.bits {
                if b != 8 && b != 16 {
                    return Err(
                        cat3(
                            "`convert_hf_to_gguf.py` writes bf16 or q8_0 and nothing else; ",
                            number(b as u64).as_str(),
                            "-bit GGUF needs a second pass through `llama-quantize`, which harmony does not run yet",
                        ),
                    );
                }
            }
            let eight = match request.bits {
                Some(b) => b == 8,
                None => false,
            };
            let mut argv: Vec<String> = Vec::new();
            argv.push(python.clone());
            argv.push(script.clone());
            argv.push(owned("--outfile"));
            argv.push(request.out_path.clone());
            argv.push(owned("--outtype"));
            argv.push(
                if eight {
                    owned("q8_0")
                } else {
                    owned("bf16")
                },
            );
            if source == Quant::Fp8 || source == Quant::CompressedTensors {
                argv.push(owned("--fp8-as-q8"));
            }
            proof {
                assert(texts(argv@) =~= gguf_argv(
                    script@,
                    python@,
                    request.out_path@,
                    request.bits,
                    source,
                ));
            }
            Ok(argv)
        },
        Converter::MlxLm { python } => {
            if request.target != Target::Mlx {
                return Err("the mlx_lm converter cannot produce gguf".to_owned());
            }
            let mut argv: Vec<String> = Vec::new();
            argv.push(python.clone());
            argv.push(owned("-m"));
            argv.push(owned("mlx_lm.convert"));
            argv.push(owned("--hf-path"));
            argv.push(request.repo.clone());
            argv.push(owned("--mlx-path"));
            argv.push(request.out_path.clone());
            if source != Quant::Bf16 {
                argv.push(owned("--dequantize"));
            }
            if let Some(b) = request.bits {
                argv.push(owned("--quantize"));
                argv.push(owned("--q-bits"));
                argv.push(number(b as u64));
            }
            proof {
                assert(texts(argv@) =~= mlx_argv(
                    python@,
                    request.repo@,
                    request.out_path@,
                    request.bits,
                    source,
                ));
            }
            Ok(argv)
        },
    }
}

/// Plan a conversion, or say why it is refused.
pub fn plan(request: &Request) -> (r: Result<Plan, String>)
    ensures
        match r {
            Err(e) => refusal(*request) == Some(e@),
            Ok(p) => {
                &&& refusal(*request) is None
                &&& request.source_format matches Format::Safetensors(source)
                &&& p.repo == request.repo
                &&& p.target == request.target
                &&& command(*request, source) == Ok::<Seq<Seq<char>>, Seq<char>>(texts(p.argv@))
                &&& p.download_bytes == request.download_bytes
                &&& p.scratch_bytes == scratch(request.download_bytes, source)
                &&& p.result_bytes == request.download_bytes
                &&& opt_text(p.converter_build) == match tool(request.converter) {
                    Tool::LlamaCpp { build, .. } => Some(build),
                    _ => None,
                }
            },
        },
{
    let source = match request.source_format {
        Format::Safetensors(q) => q,
        _ => {
            return Err(
                cat3(
                    "`",
                    request.repo.as_str(),
                    "` is already in a format a provider here loads; there is nothing to convert",
                ),
            );
        },
    };
    if !source.is_convertible() {
        return Err(
            cat3(
                "`",
                request.repo.as_str(),
                "` declares a quantisation this build does not know how to read, so harmony cannot promise to dequantise it \u{2014} refusing rather than starting an hour of work on a guess",
            ),
        );
    }
    let argv = match argv_for(request, source) {
        Ok(v) => v,
        Err(e) => {
            return Err(e);
        },
    };
    let times: u64 = if source == Quant::Bf16 {
        0
    } else {
        3
    };
    let scratch_bytes = saturating_product(request.download_bytes, times);
    let converter_build = match request.converter.build() {
        Some(b) => Some(b.to_owned()),
        None => None,
    };
    let p = Plan {
        repo: request.repo.clone(),
        target: request.target,
        argv,
        download_bytes: request.download_bytes,
        scratch_bytes,
        result_bytes: request.download_bytes,
        converter_build,
    };
    // Widened: a total that stopped short would pass for one that fits.
    let one: u128 = request.download_bytes as u128;
    let need: u128 = if source == Quant::Bf16 {
        2 * one
    } else {
        5 * one
    };
    proof {
        let d = request.download_bytes as nat;
        assert(d * 0 == 0 && d * 3 == 3 * d) by (nonlinear_arith);
    }
    if need > request.free_disk_bytes as u128 {
        let head = cat5(
            "needs ",
            human_bytes(p.total_bytes()).as_str(),
            " at once \u{2014} ",
            human_bytes(p.download_bytes).as_str(),
            " download, ",
        );
        let tail = cat4(
            head.as_str(),
            human_bytes(p.scratch_bytes).as_str(),
            " scratch, ",
            human_bytes(p.result_bytes).as_str(),
        );
        return Err(
            cat4(
                tail.as_str(),
                " result \u{2014} and ",
                human_bytes(request.free_disk_bytes).as_str(),
                " is free",
            ),
        );
    }
    Ok(p)
}

/// A conversion that is planned is one that fits, all of it at once.
pub proof fn a_planned_conversion_fits(r: Request, source: Quant)
    requires
        r.source_format == Format::Safetensors(source),
        refusal(r) is None,
    ensures
        needed(r.download_bytes, source) <= r.free_disk_bytes,
        r.download_bytes + scratch(r.download_bytes, source) + r.download_bytes == needed(
            r.download_bytes,
            source,
        ),
        source.convertible(),
{
    let d = r.download_bytes as nat;
    assert(d * 0 == 0 && d * 3 == 3 * d) by (nonlinear_arith);
}

/// A conversion is planned exactly when its source is safetensors of a
/// quantisation that can be read, its converter is at hand, is the one for the
/// target and can write the bits asked for, and the disk holds the download, what
/// it works in and the result at once: twice the download at full precision, and
/// five times it otherwise.
pub proof fn a_conversion_is_planned_only_where_it_can_be_done(r: Request)
    ensures
        ({
            let reads = r.source_format == Format::Safetensors(Quant::Bf16) || r.source_format
                == Format::Safetensors(Quant::Fp8) || r.source_format == Format::Safetensors(
                Quant::CompressedTensors,
            );
            let writes = (r.target == Target::Mlx && r.converter is MlxLm) || (r.target
                == Target::Gguf && r.converter is LlamaCpp && (r.bits is None || r.bits == Some(8u8)
                || r.bits == Some(16u8)));
            let room = if r.source_format == Format::Safetensors(Quant::Bf16) {
                2 * r.download_bytes <= r.free_disk_bytes
            } else {
                5 * r.download_bytes <= r.free_disk_bytes
            };
            refusal(r) is None <==> reads && writes && room
        }),
{
    let d = r.download_bytes as nat;
    assert(d * 0 == 0 && d * 3 == 3 * d) by (nonlinear_arith);
}

/// What a GGUF is converted with: the converter's own python and script, to the
/// path asked for, at eight bits where they were asked for and else in full, and
/// with the flag that reads FP8 exactly where the source holds it.
pub proof fn a_gguf_command_says_what_was_asked(
    script: Seq<char>,
    python: Seq<char>,
    out_path: Seq<char>,
    bits: Option<u8>,
    source: Quant,
)
    ensures
        ({
            let a = gguf_argv(script, python, out_path, bits, source);
            &&& a[0] == python
            &&& a[1] == script
            &&& a[2] == "--outfile"@
            &&& a[3] == out_path
            &&& a[4] == "--outtype"@
            &&& bits == Some(8u8) ==> a[5] == "q8_0"@
            &&& bits != Some(8u8) ==> a[5] == "bf16"@
            &&& a.len() == if source == Quant::Fp8 || source == Quant::CompressedTensors {
                7int
            } else {
                6int
            }
            &&& a.len() == 7 ==> a[6] == "--fp8-as-q8"@
        }),
{
}

/// What an MLX build is converted with: the module of the venv's own python, from
/// the repo to the path asked for, dequantising exactly where the source is not
/// in full, and quantising to the bits exactly where some were asked for.
pub proof fn an_mlx_command_says_what_was_asked(
    python: Seq<char>,
    repo: Seq<char>,
    out_path: Seq<char>,
    bits: Option<u8>,
    source: Quant,
)
    ensures
        ({
            let a = mlx_argv(python, repo, out_path, bits, source);
            let n = if source == Quant::Bf16 {
                7int
            } else {
                8int
            };
            &&& a[0] == python
            &&& a[1] == "-m"@
            &&& a[2] == "mlx_lm.convert"@
            &&& a[3] == "--hf-path"@
            &&& a[4] == repo
            &&& a[5] == "--mlx-path"@
            &&& a[6] == out_path
            &&& n == 8 ==> a[7] == "--dequantize"@
            &&& bits is None ==> a.len() == n
            &&& bits is Some ==> a.len() == n + 3 && a[n] == "--quantize"@ && a[n + 1] == "--q-bits"@
                && a[n + 2] == crate::text::decimal(bits->0 as nat)
        }),
{
}

} // verus!
