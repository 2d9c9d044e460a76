//! One file in a model store: what it is and where it lies.
use vstd::prelude::*;

use crate::text::{
    cat3, contains, ends, ends_with, has, lower, lowered, same, trim, trimmed, upper, uppered,
};

verus! {

#[derive(Debug, Clone, Copy, PartialEq, Eq, Hash, Structural)]
pub enum Store {
    HfCache,
    LmStudio,
    LlamaCpp,
    Vllm,
    Ollama,
}

/// The name a store goes by.
pub open spec fn store_text(s: Store) -> Seq<char> {
    match s {
        Store::HfCache => "hf-cache"@,
        Store::LmStudio => "lmstudio"@,
        Store::LlamaCpp => "llamacpp"@,
        Store::Vllm => "vllm"@,
        Store::Ollama => "ollama"@,
    }
}

impl Store {
    pub const ALL: [Store; 5] = [
        Store::HfCache,
        Store::LmStudio,
        Store::LlamaCpp,
        Store::Vllm,
        Store::Ollama,
    ];

    pub fn as_str(&self) -> (s: &'static str)
        ensures
            s@ == store_text(*self),
    {
        match self {
            Store::HfCache => "hf-cache",
            Store::LmStudio => "lmstudio",
            Store::LlamaCpp => "llamacpp",
            Store::Vllm => "vllm",
            Store::Ollama => "ollama",
        }
    }
}

/// What is inside a safetensors container.
///
/// `.safetensors` is a container and nothing more: bf16, FP8, AWQ, GPTQ and
/// several others all wear the same extension.
#[derive(Debug, Clone, Copy, PartialEq, Eq, Hash, Structural)]
pub enum Quant {
    /// Nothing declared. That genuinely means bf16: it is the unquantised
    /// default, and the only case where silence is an answer.
    Bf16,
    /// vLLM's llm-compressor output.
    CompressedTensors,
    Awq,
    Gptq,
    Fp8,
    BitsAndBytes,
    /// Declared, and not one this build knows. **Never folded into `Bf16`.**
    Unknown,
}

/// What a declared quantisation method means.
pub open spec fn quant_of(method: Seq<char>) -> Quant {
    let m = lowered(trimmed(method));
    if m == "compressed-tensors"@ || m == "compressed_tensors"@ {
        Quant::CompressedTensors
    } else if m == "awq"@ {
        Quant::Awq
    } else if m == "gptq"@ {
        Quant::Gptq
    } else if m == "fp8"@ {
        Quant::Fp8
    } else if m == "bitsandbytes"@ || m == "bnb"@ {
        Quant::BitsAndBytes
    } else {
        Quant::Unknown
    }
}

impl Quant {
    /// What `config.json`'s `quantization_config.quant_method` says.
    pub fn from_method(method: &str) -> (q: Quant)
        ensures
            q == quant_of(method@),
    {
        let m = lower(trim(method).as_str());
        let m = m.as_str();
        if same(m, "compressed-tensors") || same(m, "compressed_tensors") {
            Quant::CompressedTensors
        } else if same(m, "awq") {
            Quant::Awq
        } else if same(m, "gptq") {
            Quant::Gptq
        } else if same(m, "fp8") {
            Quant::Fp8
        } else if same(m, "bitsandbytes") || same(m, "bnb") {
            Quant::BitsAndBytes
        } else {
            Quant::Unknown
        }
    }

    /// Something a converter can read back to full precision.
    pub open spec fn convertible(self) -> bool {
        self == Quant::Bf16 || self == Quant::Fp8 || self == Quant::CompressedTensors
    }

    /// Is this something a converter can read back to full precision?
    ///
    /// An `Unknown` is not convertible **because nobody knows it is**, which is
    /// a different claim from it being impossible.
    pub fn is_convertible(&self) -> (r: bool)
        ensures
            r == self.convertible(),
    {
        match self {
            Quant::Bf16 | Quant::Fp8 | Quant::CompressedTensors => true,
            _ => false,
        }
    }
}

#[derive(Debug, Clone, Copy, PartialEq, Eq, Hash, Structural)]
pub enum Format {
    Gguf,
    Mlx,
    /// Safetensors, with what the repo said is inside it.
    Safetensors(Quant),
    Other,
}

/// The format a file's name gives, where there is no config beside it.
pub open spec fn format_of(name: Seq<char>) -> Format {
    let l = lowered(name);
    if ends(l, ".gguf"@) {
        Format::Gguf
    } else if ends(l, ".safetensors"@) {
        Format::Safetensors(Quant::Bf16)
    } else if ends(l, ".npz"@) {
        Format::Mlx
    } else {
        Format::Other
    }
}

impl Format {
    /// The format of a file **on disk**, where there is no config beside it.
    ///
    /// A name is all this can see, so a `.safetensors` here is assumed
    /// unquantised.
    pub fn from_path_str(name: &str) -> (f: Format)
        ensures
            f == format_of(name@),
    {
        let l = lower(name);
        if ends_with(l.as_str(), ".gguf") {
            Format::Gguf
        } else if ends_with(l.as_str(), ".safetensors") {
            Format::Safetensors(Quant::Bf16)
        } else if ends_with(l.as_str(), ".npz") {
            Format::Mlx
        } else {
            Format::Other
        }
    }

    /// Weight-bearing, whatever is inside it.
    pub fn is_weights(&self) -> (r: bool)
        ensures
            r == (*self != Format::Other),
    {
        match self {
            Format::Gguf | Format::Mlx | Format::Safetensors(_) => true,
            Format::Other => false,
        }
    }
}

/// Where a claim came from. The variants exist so that consumers must
/// pattern-match rather than assume.
#[derive(Debug, PartialEq, Eq)]
pub enum Provenance {
    Recorded,
    Inferred { basis: String },
}

impl Clone for Provenance {
    fn clone(&self) -> (r: Self)
        ensures
            r == *self,
    {
        match self {
            Provenance::Recorded => Provenance::Recorded,
            Provenance::Inferred { basis } => Provenance::Inferred { basis: basis.clone() },
        }
    }
}

impl Provenance {
    pub fn is_recorded(&self) -> (r: bool)
        ensures
            r == (*self is Recorded),
    {
        match self {
            Provenance::Recorded => true,
            Provenance::Inferred { .. } => false,
        }
    }
}

/// Filesystem allocation identity. Two paths with the same `FileKey` are the
/// same bytes and must be counted once.
#[derive(Debug, Clone, Copy, PartialEq, Eq, Hash, Structural)]
pub struct FileKey {
    pub dev: u64,
    pub ino: u64,
}

pub type ArtifactId = String;

#[derive(Debug, PartialEq, Eq)]
pub struct Artifact {
    pub id: ArtifactId,
    pub path: String,
    pub store: Store,
    pub format: Format,
    pub bits: Option<u8>,
    /// Real bytes of the allocation. Identical for every path sharing a `key`.
    pub bytes: u64,
    pub key: Option<FileKey>,
    /// True when this path is a symlink. Removing it reclaims nothing.
    pub is_link: bool,
    /// The name used for identity inference.
    pub name_hint: String,
}

impl Clone for Artifact {
    fn clone(&self) -> (r: Self)
        ensures
            r == *self,
    {
        Artifact {
            id: self.id.clone(),
            path: self.path.clone(),
            store: self.store,
            format: self.format,
            bits: self.bits,
            bytes: self.bytes,
            key: self.key,
            is_link: self.is_link,
            name_hint: self.name_hint.clone(),
        }
    }
}

/// The bit depths that names carry, in the order they are looked for.
pub open spec fn depths() -> Seq<u8> {
    seq![2u8, 3u8, 4u8, 5u8, 6u8, 8u8]
}

/// A depth in decimal.
pub open spec fn depth_text(b: u8) -> Seq<char> {
    match b {
        2 => "2"@,
        3 => "3"@,
        4 => "4"@,
        5 => "5"@,
        6 => "6"@,
        _ => "8"@,
    }
}

/// A depth written the way a build name writes it: `Q4_` or `-4BIT`.
pub open spec fn marked(upper: Seq<char>, b: u8) -> bool {
    has(upper, "Q"@ + depth_text(b) + "_"@) || has(upper, "-"@ + depth_text(b) + "BIT"@)
}

/// A depth written more loosely: a trailing `Q4`, or `4BIT` anywhere.
pub open spec fn marked_loosely(upper: Seq<char>, b: u8) -> bool {
    ends(upper, "Q"@ + depth_text(b)) || has(upper, depth_text(b) + "BIT"@)
}

/// The bit depth a name carries: the first that is marked, else the first that
/// is marked loosely.
pub open spec fn bits_of(name: Seq<char>) -> Option<u8> {
    let u = uppered(name);
    match crate::seqs::first_match(depths(), |b: u8| marked(u, b)) {
        Some(b) => Some(b),
        None => crate::seqs::first_match(depths(), |b: u8| marked_loosely(u, b)),
    }
}

fn depth_name(b: u8) -> (s: &'static str)
    ensures
        s@ == depth_text(b),
{
    match b {
        2 => "2",
        3 => "3",
        4 => "4",
        5 => "5",
        6 => "6",
        _ => "8",
    }
}

/// Quantisation from a filename. GGUF uses `Q4_K_M`; MLX uses `4bit`.
pub fn bits_from_name(name: &str) -> (r: Option<u8>)
    ensures
        r == bits_of(name@),
{
    let u = upper(name);
    let ghost up = u@;
    let all: [u8; 6] = [2, 3, 4, 5, 6, 8];
    let ghost tight = |b: u8| marked(up, b);
    let ghost loose = |b: u8| marked_loosely(up, b);
    let mut i: usize = 0;
    while i < 6
        invariant
            i <= 6,
            all@ == depths(),
            u@ == up,
            up == uppered(name@),
            tight == (|b: u8| marked(up, b)),
            forall|j: int| 0 <= j < i ==> !tight(#[trigger] depths()[j]),
        decreases 6 - i,
    {
        let d = depth_name(all[i]);
        if contains(u.as_str(), cat3("Q", d, "_").as_str()) || contains(
            u.as_str(),
            cat3("-", d, "BIT").as_str(),
        ) {
            proof {
                crate::seqs::lemma_first_index_is(depths(), tight, i as int);
            }
            return Some(all[i]);
        }
        i += 1;
    }
    proof {
        crate::seqs::lemma_first_index_is(depths(), tight, 6);
    }
    let mut k: usize = 0;
    while k < 6
        invariant
            k <= 6,
            all@ == depths(),
            u@ == up,
            up == uppered(name@),
            loose == (|b: u8| marked_loosely(up, b)),
            tight == (|b: u8| marked(up, b)),
            crate::seqs::first_index(depths(), tight) == 6,
            forall|j: int| 0 <= j < k ==> !loose(#[trigger] depths()[j]),
        decreases 6 - k,
    {
        let d = depth_name(all[k]);
        if ends_with(u.as_str(), crate::text::cat2("Q", d).as_str()) || contains(
            u.as_str(),
            crate::text::cat2(d, "BIT").as_str(),
        ) {
            proof {
                crate::seqs::lemma_first_index_is(depths(), loose, k as int);
            }
            return Some(all[k]);
        }
        k += 1;
    }
    proof {
        crate::seqs::lemma_first_index_is(depths(), loose, 6);
    }
    None
}

impl Artifact {
    /// Whether this is what a path in a store comes to.
    pub open spec fn describes(
        self,
        path: Seq<char>,
        name: Seq<char>,
        store: Store,
        is_link: bool,
        key: Option<FileKey>,
        bytes: u64,
    ) -> bool {
        &&& self.id@ == store_text(store) + ":"@ + path
        &&& self.path@ == path
        &&& self.store == store
        &&& self.format == format_of(name)
        &&& self.bits == bits_of(name)
        &&& self.bytes == bytes
        &&& self.key == key
        &&& self.is_link == is_link
        &&& self.name_hint@ == name
    }

    /// The artifact at a path, from what the filesystem says of it: the file's
    /// own name, whether the path is a symlink, and which allocation it reaches
    /// and how large that is.
    pub fn from_path(
        path: &str,
        name: &str,
        store: Store,
        is_link: bool,
        key: Option<FileKey>,
        bytes: u64,
    ) -> (a: Artifact)
        ensures
            a.describes(path@, name@, store, is_link, key, bytes),
    {
        Artifact {
            id: cat3(store.as_str(), ":", path),
            path: path.to_owned(),
            store,
            format: Format::from_path_str(name),
            bits: bits_from_name(name),
            bytes,
            key,
            is_link,
            name_hint: name.to_owned(),
        }
    }
}

} // verus!
