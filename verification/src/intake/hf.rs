//! What a Hugging Face repo holds, from what the hub answers.
//!
//! Deliberately the *only* place that knows the hub's URLs and JSON. Nothing
//! here fetches and nothing writes.
use vstd::prelude::*;
use vstd::utf8::encode_utf8;

use crate::inventory::artifact::{bits_from_name, bits_of, format_of, quant_of, Format, Quant};
use crate::json::{
    as_items, as_text, as_unsigned, dig, field, items_of, opt_tree, text_of, then_field, tree,
    trees, unsigned_of, Json, Tree,
};
use crate::provider::ProbeError;
use crate::text::{
    cat2, cat3, cat5, contains, has, lower, lowered, number, opt_text, texts, trimmed,
};

verus! {

/// One file in a repo that a provider here could actually load.
#[derive(Debug)]
pub struct RepoFile {
    pub name: String,
    pub format: Format,
    pub bits: Option<u8>,
    /// `None` when the listing did not carry a size. Not zero: a missing size
    /// and a zero-byte file are very different things to admit against.
    pub size_bytes: Option<u64>,
}

impl Clone for RepoFile {
    fn clone(&self) -> (r: Self)
        ensures
            r == *self,
    {
        RepoFile {
            name: self.name.clone(),
            format: self.format,
            bits: self.bits,
            size_bytes: self.size_bytes,
        }
    }
}

#[derive(Debug)]
pub struct Repo {
    pub id: String,
    pub downloads: u64,
    pub likes: u64,
    /// From the repo card. `None` is the common honest case, not a red flag.
    pub base_model: Option<String>,
    /// How the repo says its weights are quantised, as it says it.
    pub quant_method: Option<String>,
    pub files: Vec<RepoFile>,
}

/// Whether a file is safetensors, whatever is inside it.
pub open spec fn is_safetensors(f: Format) -> bool {
    f is Safetensors
}

/// Whether a provider here loads a format as it stands.
pub open spec fn is_loadable(f: Format) -> bool {
    f == Format::Gguf || f == Format::Mlx
}

/// Whether a name is that of something beside a model: an importance matrix is
/// used to *make* a quantisation, and a projector is loaded alongside one.
pub open spec fn beside_a_model(name: Seq<char>) -> bool {
    has(lowered(name), "imatrix"@) || has(lowered(name), "mmproj"@)
}

/// Whether a file is a build of a model.
pub open spec fn build_file(f: RepoFile) -> bool {
    is_loadable(f.format) && !beside_a_model(f.name@)
}

impl RepoFile {
    /// Whether this is a build of a model, and not merely a file of a format
    /// that loads.
    pub fn is_a_build(&self) -> (r: bool)
        ensures
            r == build_file(*self),
    {
        let loads = match self.format {
            Format::Gguf => true,
            Format::Mlx => true,
            _ => false,
        };
        if !loads {
            return false;
        }
        let l = lower(self.name.as_str());
        !contains(l.as_str(), "imatrix") && !contains(l.as_str(), "mmproj")
    }
}

impl Repo {
    /// Only safetensors, which nothing here loads as they stand.
    pub open spec fn only_safetensors(self) -> bool {
        &&& self.files@.len() > 0
        &&& forall|i: int|
            0 <= i < self.files@.len() ==> is_safetensors((#[trigger] self.files@[i]).format)
    }

    /// Whether this repo holds nothing loadable as it stands.
    ///
    /// Such a repo is *shown* and marked, never hidden: a user searching for a
    /// model should learn that a build exists, not conclude there is none.
    pub fn needs_conversion(&self) -> (r: bool)
        ensures
            r == self.only_safetensors(),
    {
        let mut i: usize = 0;
        while i < self.files.len()
            invariant
                i <= self.files@.len(),
                forall|k: int|
                    0 <= k < i ==> is_safetensors((#[trigger] self.files@[k]).format),
            decreases self.files.len() - i,
        {
            let yes = match self.files[i].format {
                Format::Safetensors(_) => true,
                _ => false,
            };
            if !yes {
                proof {
                    assert(!is_safetensors(self.files@[i as int].format));
                }
                return false;
            }
            i += 1;
        }
        self.files.len() > 0
    }

    pub fn has_loadable_build(&self) -> (r: bool)
        ensures
            r == exists|i: int|
                0 <= i < self.files@.len() && is_loadable((#[trigger] self.files@[i]).format),
    {
        let mut i: usize = 0;
        while i < self.files.len()
            invariant
                i <= self.files@.len(),
                forall|k: int| 0 <= k < i ==> !is_loadable((#[trigger] self.files@[k]).format),
            decreases self.files.len() - i,
        {
            let yes = match self.files[i].format {
                Format::Gguf => true,
                Format::Mlx => true,
                _ => false,
            };
            if yes {
                proof {
                    assert(is_loadable(self.files@[i as int].format));
                }
                return true;
            }
            i += 1;
        }
        false
    }
}

/// A file, in texts.
#[verifier::ext_equal]
pub struct FileFacts {
    pub name: Seq<char>,
    pub format: Format,
    pub bits: Option<u8>,
    pub size: Option<u64>,
}

pub open spec fn file_facts(f: RepoFile) -> FileFacts {
    FileFacts { name: f.name@, format: f.format, bits: f.bits, size: f.size_bytes }
}

pub open spec fn all_facts(v: Seq<RepoFile>) -> Seq<FileFacts> {
    v.map_values(|f: RepoFile| file_facts(f))
}

/// A repo, in texts.
#[verifier::ext_equal]
pub struct RepoFacts {
    pub id: Seq<char>,
    pub downloads: u64,
    pub likes: u64,
    pub base_model: Option<Seq<char>>,
    pub quant_method: Option<Seq<char>>,
    pub files: Seq<FileFacts>,
}

pub open spec fn repo_facts(r: Repo) -> RepoFacts {
    RepoFacts {
        id: r.id@,
        downloads: r.downloads,
        likes: r.likes,
        base_model: opt_text(r.base_model),
        quant_method: opt_text(r.quant_method),
        files: all_facts(r.files@),
    }
}

/// The first of two where it is there.
pub open spec fn either<T>(a: Option<T>, b: Option<T>) -> Option<T> {
    match a {
        Some(x) => Some(x),
        None => b,
    }
}

/// A value that may be a text or a list of them, as one text.
pub open spec fn one_text(t: Option<Tree>) -> Option<Seq<char>> {
    match as_text(t) {
        Some(s) => Some(s),
        None => match as_items(t) {
            Some(v) => first_text(v),
            None => None,
        },
    }
}

/// The first text of a list.
pub open spec fn first_text(v: Seq<Tree>) -> Option<Seq<char>>
    decreases v.len(),
{
    if v.len() == 0 {
        None
    } else {
        match as_text(Some(v[0])) {
            Some(s) => Some(s),
            None => first_text(v.drop_first()),
        }
    }
}

/// The id a model answers to.
pub open spec fn id_in(t: Tree) -> Option<Seq<char>> {
    either(as_text(field(t, "id"@)), as_text(field(t, "modelId"@)))
}

/// The model a repo says it is a build of.
pub open spec fn base_in(t: Tree) -> Option<Seq<char>> {
    either(
        one_text(then_field(field(t, "cardData"@), "base_model"@)),
        one_text(then_field(field(t, "config"@), "base_model"@)),
    )
}

/// How a repo says its weights are quantised.
pub open spec fn method_in(t: Tree) -> Option<Seq<char>> {
    as_text(
        then_field(then_field(field(t, "config"@), "quantization_config"@), "quant_method"@),
    )
}

/// What is inside a repo's safetensors: what it declares, and bf16 when it
/// declares nothing.
pub open spec fn quant_in(method: Option<Seq<char>>) -> Quant {
    match method {
        Some(m) => quant_of(m),
        None => Quant::Bf16,
    }
}

/// The format of a file in a repo that declares a quantisation.
pub open spec fn declared_format(name: Seq<char>, quant: Quant) -> Format {
    match format_of(name) {
        Format::Safetensors(_) => Format::Safetensors(quant),
        f => f,
    }
}

/// A listed file, where it holds weights.
pub open spec fn listed(s: Tree, quant: Quant) -> Option<FileFacts> {
    match as_text(field(s, "rfilename"@)) {
        Some(name) => if format_of(name) == Format::Other {
            None
        } else {
            Some(
                FileFacts {
                    name,
                    format: declared_format(name, quant),
                    bits: bits_of(name),
                    size: either(
                        as_unsigned(field(s, "size"@)),
                        as_unsigned(then_field(field(s, "lfs"@), "size"@)),
                    ),
                },
            )
        },
        None => None,
    }
}

/// The files a repo lists, those that hold weights.
pub open spec fn files_in(t: Tree, quant: Quant) -> Seq<FileFacts> {
    match as_items(field(t, "siblings"@)) {
        Some(v) => v.filter_map(|s: Tree| listed(s, quant)),
        None => Seq::empty(),
    }
}

pub open spec fn or_zero(n: Option<u64>) -> u64 {
    match n {
        Some(x) => x,
        None => 0,
    }
}

/// The repo that a model's JSON describes.
pub open spec fn repo_in(t: Tree) -> Option<RepoFacts> {
    match id_in(t) {
        Some(id) => Some(
            RepoFacts {
                id,
                downloads: or_zero(as_unsigned(field(t, "downloads"@))),
                likes: or_zero(as_unsigned(field(t, "likes"@))),
                base_model: base_in(t),
                quant_method: method_in(t),
                files: files_in(t, quant_in(method_in(t))),
            },
        ),
        None => None,
    }
}

/// A JSON value that may be a string or a list of them, as one string.
fn first_string(v: Option<&Json>) -> (r: Option<String>)
    ensures
        opt_text(r) == one_text(opt_tree(v)),
{
    if let Some(s) = text_of(v) {
        return Some(s);
    }
    let items = match items_of(v) {
        Some(x) => x,
        None => {
            return None;
        },
    };
    let ghost all = trees(items@);
    let mut i: usize = 0;
    proof {
        assert(all.skip(0) =~= all);
    }
    while i < items.len()
        invariant
            i <= items@.len(),
            all == trees(items@),
            as_text(opt_tree(v)) is None,
            as_items(opt_tree(v)) == Some(all),
            first_text(all) == first_text(all.skip(i as int)),
        decreases items.len() - i,
    {
        proof {
            assert(all.skip(i as int)[0] == tree(items@[i as int]));
            assert(all.skip(i as int).drop_first() =~= all.skip(i + 1));
        }
        if let Some(s) = text_of(Some(&items[i])) {
            return Some(s);
        }
        i += 1;
    }
    None
}

fn model_id(v: &Json) -> (r: Option<String>)
    ensures
        opt_text(r) == id_in(tree(*v)),
{
    match text_of(v.get("id")) {
        Some(s) => Some(s),
        None => text_of(v.get("modelId")),
    }
}

fn classify(s: &Json, quant: Quant) -> (r: Option<RepoFile>)
    ensures
        match r {
            Some(f) => listed(tree(*s), quant) == Some(file_facts(f)),
            None => listed(tree(*s), quant) is None,
        },
{
    let name = match text_of(s.get("rfilename")) {
        Some(n) => n,
        None => {
            return None;
        },
    };
    let format = match Format::from_path_str(name.as_str()) {
        Format::Other => {
            return None;
        },
        Format::Safetensors(_) => Format::Safetensors(quant),
        f => f,
    };
    let size_bytes = match unsigned_of(s.get("size")) {
        Some(n) => Some(n),
        None => unsigned_of(dig(s.get("lfs"), "size")),
    };
    let bits = bits_from_name(name.as_str());
    let f = RepoFile { name, format, bits, size_bytes };
    proof {
        assert(listed(tree(*s), quant) == Some(file_facts(f)));
    }
    Some(f)
}

/// Parse one repo out of the hub's model JSON.
pub fn repo_from_json(value: &Json) -> (r: Option<Repo>)
    ensures
        match r {
            Some(x) => repo_in(tree(*value)) == Some(repo_facts(x)),
            None => repo_in(tree(*value)) is None,
        },
{
    let id = match model_id(value) {
        Some(s) => s,
        None => {
            return None;
        },
    };
    let base_model = match first_string(dig(value.get("cardData"), "base_model")) {
        Some(s) => Some(s),
        None => first_string(dig(value.get("config"), "base_model")),
    };
    let quant_method = text_of(
        dig(dig(value.get("config"), "quantization_config"), "quant_method"),
    );
    let quant = match &quant_method {
        Some(m) => Quant::from_method(m.as_str()),
        None => Quant::Bf16,
    };
    let mut files: Vec<RepoFile> = Vec::new();
    let ghost want = files_in(tree(*value), quant);
    proof {
        assert(all_facts(files@) =~= Seq::empty());
    }
    if let Some(siblings) = items_of(value.get("siblings")) {
        let ghost all = trees(siblings@);
        let ghost f = |s: Tree| listed(s, quant);
        let mut i: usize = 0;
        proof {
            assert(all.take(0).filter_map(f) =~= Seq::empty());
        }
        while i < siblings.len()
            invariant
                i <= siblings@.len(),
                all == trees(siblings@),
                f == (|s: Tree| listed(s, quant)),
                all_facts(files@) == all.take(i as int).filter_map(f),
            decreases siblings.len() - i,
        {
            proof {
                all.lemma_filter_map_take_succ(f, i as int);
                assert(all[i as int] == tree(siblings@[i as int]));
            }
            let ghost was = files@;
            if let Some(x) = classify(&siblings[i], quant) {
                files.push(x);
                proof {
                    assert(all_facts(files@) =~= all_facts(was).push(file_facts(x)));
                }
            }
            proof {
                assert(all_facts(files@) =~= all.take(i + 1).filter_map(f));
            }
            i += 1;
        }
        proof {
            assert(all.take(i as int) =~= all);
        }
    }
    let downloads = match unsigned_of(value.get("downloads")) {
        Some(n) => n,
        None => 0,
    };
    let likes = match unsigned_of(value.get("likes")) {
        Some(n) => n,
        None => 0,
    };
    let r = Repo { id, downloads, likes, base_model, quant_method, files };
    proof {
        assert(repo_facts(r) =~= repo_in(tree(*value))->0);
    }
    Some(r)
}

/// The ids of a search's answer, in the order the hub ranks them.
pub open spec fn ids_in(t: Tree) -> Seq<Seq<char>> {
    match as_items(Some(t)) {
        Some(v) => v.filter_map(|m: Tree| id_in(m)),
        None => Seq::empty(),
    }
}

/// The ids out of what the hub answers a search with.
///
/// The list carries neither the card nor file sizes, so a row built from it
/// can say nothing about provenance and nothing about fit: each hit has to be
/// read in full.
pub fn search_ids(value: &Json) -> (r: Vec<String>)
    ensures
        texts(r@) == ids_in(tree(*value)),
{
    let mut out: Vec<String> = Vec::new();
    proof {
        assert(texts(out@) =~= Seq::empty());
    }
    let items = match items_of(Some(value)) {
        Some(x) => x,
        None => {
            return out;
        },
    };
    let ghost all = trees(items@);
    let ghost f = |m: Tree| id_in(m);
    let mut i: usize = 0;
    proof {
        assert(all.take(0).filter_map(f) =~= Seq::empty());
    }
    while i < items.len()
        invariant
            i <= items@.len(),
            all == trees(items@),
            f == (|m: Tree| id_in(m)),
            texts(out@) == all.take(i as int).filter_map(f),
        decreases items.len() - i,
    {
        proof {
            all.lemma_filter_map_take_succ(f, i as int);
            assert(all[i as int] == tree(items@[i as int]));
        }
        let ghost was = out@;
        if let Some(s) = model_id(&items[i]) {
            out.push(s);
            proof {
                assert(texts(out@) =~= texts(was).push(s@));
            }
        }
        proof {
            assert(texts(out@) =~= all.take(i + 1).filter_map(f));
        }
        i += 1;
    }
    proof {
        assert(all.take(i as int) =~= all);
    }
    out
}

/// The repo in what the hub answers a request for it with.
pub fn repo(id: &str, value: &Json) -> (r: Result<Repo, ProbeError>)
    ensures
        match r {
            Ok(x) => repo_in(tree(*value)) == Some(repo_facts(x)),
            Err(ProbeError::Malformed { reason }) => repo_in(tree(*value)) is None && reason@
                == "`"@ + id@ + "` did not come back as a model"@,
            Err(_) => false,
        },
{
    match repo_from_json(value) {
        Some(x) => Ok(x),
        None => Err(
            ProbeError::Malformed { reason: cat3("`", id, "` did not come back as a model") },
        ),
    }
}

/// The URL a file's bytes come from.
pub fn download_url(repo_id: &str, file: &str) -> (r: String)
    ensures
        r@ == "https://huggingface.co/"@ + repo_id@ + "/resolve/main/"@ + file@ + "?download=true"@,
{
    cat5("https://huggingface.co/", repo_id, "/resolve/main/", file, "?download=true")
}

/// The URL a repo is read from. The sizes are asked for: a file with no size
/// cannot be admitted against either ledger.
pub fn repo_url(id: &str) -> (r: String)
    ensures
        r@ == "https://huggingface.co/api/models/"@ + id@ + "?blobs=true"@,
{
    cat3("https://huggingface.co/api/models/", id, "?blobs=true")
}

/// How many results are asked for: at least one and at most fifty.
pub open spec fn asked_for(limit: usize) -> nat {
    if limit < 1 {
        1
    } else if limit > 50 {
        50
    } else {
        limit as nat
    }
}

/// The URL a search is read from.
pub fn search_url(query: &str, limit: usize) -> (r: String)
    ensures
        r@ == "https://huggingface.co/api/models?search="@ + encoded(encode_utf8(query@)) + "&limit="@
            + crate::text::decimal(asked_for(limit)),
{
    let n: u64 = if limit < 1 {
        1
    } else if limit > 50 {
        50
    } else {
        limit as u64
    };
    let head = cat2("https://huggingface.co/api/models?search=", urlencode(query).as_str());
    cat3(head.as_str(), "&limit=", number(n).as_str())
}

/// Whether a byte stands for itself in a query.
pub open spec fn unreserved(b: u8) -> bool {
    65 <= b <= 90 || 97 <= b <= 122 || 48 <= b <= 57 || b == 45 || b == 95 || b == 46 || b == 126
}

/// A hexadecimal digit, in capitals.
pub open spec fn hex_digit(d: u8) -> char {
    if d < 10 {
        (48 + d) as char
    } else {
        (55 + d) as char
    }
}

/// A byte as it stands in a query.
pub open spec fn encoded_byte(b: u8) -> Seq<char> {
    if unreserved(b) {
        seq![b as char]
    } else if b == 32 {
        seq!['+']
    } else {
        seq!['%', hex_digit(b / 16), hex_digit(b % 16)]
    }
}

/// Bytes as they stand in a query.
pub open spec fn encoded(bytes: Seq<u8>) -> Seq<char>
    decreases bytes.len(),
{
    if bytes.len() == 0 {
        Seq::empty()
    } else {
        encoded(bytes.drop_last()) + encoded_byte(bytes.last())
    }
}

fn hex(d: u8) -> (c: char)
    requires
        d < 16,
    ensures
        c == hex_digit(d),
{
    if d < 10 {
        (48 + d) as char
    } else {
        (55 + d) as char
    }
}

/// Percent-encode a query.
pub fn urlencode(s: &str) -> (r: String)
    ensures
        r@ == encoded(encode_utf8(s@)),
{
    let bytes = s.as_bytes();
    let mut out = String::new();
    let mut i: usize = 0;
    proof {
        assert(out@ =~= encoded(bytes@.take(0)));
    }
    while i < bytes.len()
        invariant
            i <= bytes@.len(),
            out@ == encoded(bytes@.take(i as int)),
        decreases bytes.len() - i,
    {
        let b = bytes[i];
        proof {
            assert(bytes@.take(i + 1).drop_last() =~= bytes@.take(i as int));
        }
        let ghost was = out@;
        if (65 <= b && b <= 90) || (97 <= b && b <= 122) || (48 <= b && b <= 57) || b == 45 || b
            == 95 || b == 46 || b == 126 {
            out.push(b as char);
        } else if b == 32 {
            out.push('+');
        } else {
            out.push('%');
            out.push(hex(b / 16));
            out.push(hex(b % 16));
        }
        proof {
            assert(out@ =~= was + encoded_byte(b));
        }
        i += 1;
    }
    proof {
        assert(bytes@.take(i as int) =~= bytes@);
    }
    out
}

/// Whether a listed file is what an entry of a repo says: the name it gives, the
/// format that name has, in the repo's quantisation where it is safetensors, and
/// the size it gives, of its own or else of the large file behind it.
pub open spec fn says_file(f: FileFacts, s: Tree, quant: Quant) -> bool {
    &&& as_text(field(s, "rfilename"@)) == Some(f.name)
    &&& format_of(f.name) is Safetensors ==> f.format == Format::Safetensors(quant)
    &&& !(format_of(f.name) is Safetensors) ==> f.format == format_of(f.name)
    &&& f.bits == bits_of(f.name)
    &&& as_unsigned(field(s, "size"@)) is Some ==> f.size == as_unsigned(field(s, "size"@))
    &&& as_unsigned(field(s, "size"@)) is None ==> f.size == as_unsigned(
        then_field(field(s, "lfs"@), "size"@),
    )
}

/// A repo lists every entry whose name is that of weights, and nothing else, each
/// as it says; it goes by its id, counts what it counts, and declares the base
/// model its card does or else its config.
pub proof fn a_repo_is_what_its_document_says(t: Tree, r: RepoFacts, i: int, k: int)
    requires
        repo_in(t) == Some(r),
    ensures
        as_text(field(t, "id"@)) is Some ==> r.id == as_text(field(t, "id"@))->0,
        as_text(field(t, "id"@)) is None ==> as_text(field(t, "modelId"@)) == Some(r.id),
        as_unsigned(field(t, "downloads"@)) is Some ==> r.downloads == as_unsigned(
            field(t, "downloads"@),
        )->0,
        as_unsigned(field(t, "likes"@)) is Some ==> r.likes == as_unsigned(field(t, "likes"@))->0,
        as_text(then_field(field(t, "cardData"@), "base_model"@)) is Some ==> r.base_model
            == as_text(then_field(field(t, "cardData"@), "base_model"@)),
        as_items(field(t, "siblings"@)) is None ==> r.files.len() == 0,
        ({
            let v = as_items(field(t, "siblings"@))->0;
            &&& as_items(field(t, "siblings"@)) is Some && 0 <= i < v.len() && as_text(
                field(v[i], "rfilename"@),
            ) is Some && format_of(as_text(field(v[i], "rfilename"@))->0) != Format::Other
                ==> exists|f: int|
                0 <= f < r.files.len() && says_file(
                    #[trigger] r.files[f],
                    v[i],
                    quant_in(r.quant_method),
                )
            &&& 0 <= k < r.files.len() ==> exists|e: int|
                0 <= e < v.len() && says_file(
                    r.files[k],
                    #[trigger] v[e],
                    quant_in(r.quant_method),
                ) && format_of(r.files[k].name) != Format::Other
        }),
{
    if let Some(v) = as_items(field(t, "siblings"@)) {
        let quant = quant_in(r.quant_method);
        let f = |s: Tree| listed(s, quant);
        crate::seqs::lemma_filter_map_members(v, f);
        assert(r.files == v.filter_map(f));
        if 0 <= i < v.len() && as_text(field(v[i], "rfilename"@)) is Some && format_of(
            as_text(field(v[i], "rfilename"@))->0,
        ) != Format::Other {
            assert(f(v[i]) is Some);
            let x = r.files.index_of(f(v[i])->0);
            assert(says_file(r.files[x], v[i], quant));
        }
        if 0 <= k < r.files.len() {
            let e = choose|e: int| 0 <= e < v.len() && f(#[trigger] v[e]) == Some(r.files[k]);
            assert(says_file(r.files[k], v[e], quant));
        }
    }
}

/// A file is a build exactly when a provider here loads its format and it is
/// neither an importance matrix nor a projector, by its name in any case; and a
/// repo needs a conversion exactly when it holds files and all are safetensors.
pub proof fn a_build_is_loadable_and_is_the_model(f: RepoFile, r: Repo)
    ensures
        build_file(f) <==> (f.format == Format::Gguf || f.format == Format::Mlx) && !(has(
            lowered(f.name@),
            "imatrix"@,
        ) || has(lowered(f.name@), "mmproj"@)),
        r.only_safetensors() <==> r.files@.len() > 0 && forall|i: int|
            0 <= i < r.files@.len() ==> (#[trigger] r.files@[i]).format is Safetensors,
{
    if r.only_safetensors() {
        assert forall|i: int| 0 <= i < r.files@.len() implies (
        #[trigger] r.files@[i]).format is Safetensors by {
            assert(is_safetensors(r.files@[i].format));
        }
    }
}

/// What is inside a repo's safetensors is full precision exactly where the repo
/// declares no method, and otherwise what the method says, blanks and case
/// aside; a method nobody knows is unknown, and never taken for another.
pub proof fn a_quantisation_is_what_is_declared(method: Option<Seq<char>>)
    ensures
        quant_in(method) == Quant::Bf16 <==> method is None,
        method is Some ==> {
            let m = lowered(trimmed(method->0));
            &&& quant_in(method) == Quant::Fp8 <==> m == "fp8"@
            &&& quant_in(method) == Quant::Awq <==> m == "awq"@
            &&& quant_in(method) == Quant::Gptq <==> m == "gptq"@
            &&& quant_in(method) == Quant::CompressedTensors <==> m == "compressed-tensors"@ || m
                == "compressed_tensors"@
            &&& quant_in(method) == Quant::BitsAndBytes <==> m == "bitsandbytes"@ || m == "bnb"@
        },
{
    reveal_strlit("fp8");
    reveal_strlit("awq");
    reveal_strlit("gptq");
    reveal_strlit("bnb");
    reveal_strlit("bitsandbytes");
    reveal_strlit("compressed-tensors");
    reveal_strlit("compressed_tensors");
    assert("fp8"@[0] == 'f' && "awq"@[0] == 'a' && "bnb"@[0] == 'b' && "gptq"@[0] == 'g');
    assert("bitsandbytes"@[0] == 'b' && "compressed-tensors"@[0] == 'c' && "compressed_tensors"@[0]
        == 'c');
}

} // verus!
