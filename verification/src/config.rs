//! Which providers there are, and where they listen.
use vstd::prelude::*;

use crate::provider::{kind_named, kind_text, ProviderKind};
use crate::seqs::{first_index, lemma_first_index_is};
use crate::text::{cat2, decimal, number, strip_back, strip_ends};

verus! {

#[derive(Debug, PartialEq, Eq)]
pub struct ProviderConfig {
    pub kind: ProviderKind,
    pub url: String,
    /// The command that starts this provider, where it is ours to start.
    pub start: Option<String>,
    /// The launchd label it runs under, where it has one of its own.
    pub launchd_label: Option<String>,
    /// Bytes per cached value, where the server was told to quantise its cache.
    pub kv_dtype_bytes: Option<u64>,
}

impl Clone for ProviderConfig {
    fn clone(&self) -> (r: Self)
        ensures
            r == *self,
    {
        ProviderConfig {
            kind: self.kind,
            url: self.url.clone(),
            start: self.start.clone(),
            launchd_label: self.launchd_label.clone(),
            kv_dtype_bytes: self.kv_dtype_bytes,
        }
    }
}

impl ProviderConfig {
    /// A provider at an address, and nothing else said about it.
    pub fn at(kind: ProviderKind, url: String) -> (r: ProviderConfig)
        ensures
            r == (ProviderConfig {
                kind,
                url,
                start: None,
                launchd_label: None,
                kv_dtype_bytes: None,
            }),
    {
        ProviderConfig { kind, url, start: None, launchd_label: None, kv_dtype_bytes: None }
    }

    /// The launchd label: the one declared, or one made from the provider's name.
    pub open spec fn label_text(self) -> Seq<char> {
        match self.launchd_label {
            Some(l) => l@,
            None => "dev.llm-harmony."@ + kind_text(self.kind),
        }
    }

    pub fn label(&self) -> (r: String)
        ensures
            r@ == self.label_text(),
    {
        match &self.launchd_label {
            Some(l) => l.clone(),
            None => cat2("dev.llm-harmony.", self.kind.as_str()),
        }
    }
}

#[derive(Debug, PartialEq, Eq)]
pub struct Config {
    pub providers: Vec<ProviderConfig>,
}

/// One provider as the file declares it. Kept apart from [`ProviderConfig`] so
/// `kind` can be validated with a message that names the offending string.
#[derive(Debug)]
pub struct RawProvider {
    pub kind: String,
    pub url: String,
    pub start: Option<String>,
    pub launchd_label: Option<String>,
    pub kv_dtype_bytes: Option<u64>,
}

/// The providers in reporting order.
pub open spec fn all_kinds() -> Seq<ProviderKind> {
    seq![
        ProviderKind::LmStudio,
        ProviderKind::Ollama,
        ProviderKind::LlamaCpp,
        ProviderKind::Vllm,
    ]
}

/// A provider on its conventional port.
pub open spec fn is_default(p: ProviderConfig, kind: ProviderKind) -> bool {
    &&& p.kind == kind
    &&& p.url@ == "http://127.0.0.1:"@ + decimal(kind.port() as nat)
    &&& p.start is None
    &&& p.launchd_label is None
    &&& p.kv_dtype_bytes is None
}

/// What a declared provider becomes: its kind resolved and its URL without
/// trailing slashes, so that paths join cleanly.
pub open spec fn is_declared(p: ProviderConfig, raw: RawProvider) -> bool {
    &&& kind_named(raw.kind@) == Some(p.kind)
    &&& p.url@ == strip_back(raw.url@, |c: char| c == '/')
    &&& p.start == raw.start
    &&& p.launchd_label == raw.launchd_label
    &&& p.kv_dtype_bytes == raw.kv_dtype_bytes
}

impl Config {
    /// Whether this is the zero-config behaviour.
    pub open spec fn is_defaults(self) -> bool {
        &&& self.providers@.len() == 4
        &&& forall|i: int| 0 <= i < 4 ==> is_default(#[trigger] self.providers@[i], all_kinds()[i])
    }

    /// Zero-config behaviour: every provider on its conventional port.
    pub fn defaults() -> (r: Self)
        ensures
            r.is_defaults(),
    {
        let mut providers: Vec<ProviderConfig> = Vec::new();
        let all = [
            ProviderKind::LmStudio,
            ProviderKind::Ollama,
            ProviderKind::LlamaCpp,
            ProviderKind::Vllm,
        ];
        let mut i: usize = 0;
        while i < 4
            invariant
                i <= 4,
                all@ == all_kinds(),
                providers@.len() == i,
                forall|j: int| 0 <= j < i ==> is_default(#[trigger] providers@[j], all_kinds()[j]),
            decreases 4 - i,
        {
            let kind = all[i];
            let url = cat2("http://127.0.0.1:", number(kind.default_port() as u64).as_str());
            providers.push(ProviderConfig::at(kind, url));
            i += 1;
        }
        Config { providers }
    }

    /// The configuration a file declares. Explicit providers replace the
    /// defaults entirely; none at all falls back to them. The first unknown
    /// kind is the error.
    pub fn from_entries(entries: Vec<RawProvider>) -> (r: Result<Self, String>)
        ensures
            ({
                let bad = first_index(
                    entries@,
                    |e: RawProvider| kind_named(e.kind@) is None,
                );
                match r {
                    Ok(c) => if entries@.len() == 0 {
                        c.is_defaults()
                    } else {
                        bad == entries@.len() && c.providers@.len() == entries@.len() && forall|
                            i: int,
                        |
                            0 <= i < entries@.len() ==> is_declared(
                                #[trigger] c.providers@[i],
                                entries@[i],
                            )
                    },
                    Err(e) => bad < entries@.len() && e@ == "unknown provider kind `"@
                        + entries@[bad].kind@ + "`"@,
                }
            }),
    {
        if entries.len() == 0 {
            return Ok(Config::defaults());
        }
        let ghost unknown = |e: RawProvider| kind_named(e.kind@) is None;
        let slash = |c: char| -> (b: bool)
            ensures
                b == (c == '/'),
        {
            c == '/'
        };
        let mut providers: Vec<ProviderConfig> = Vec::new();
        let mut i: usize = 0;
        while i < entries.len()
            invariant
                i <= entries.len(),
                unknown == (|e: RawProvider| kind_named(e.kind@) is None),
                forall|j: int| 0 <= j < i ==> !unknown(#[trigger] entries@[j]),
                providers@.len() == i,
                forall|j: int| 0 <= j < i ==> is_declared(#[trigger] providers@[j], entries@[j]),
                forall|c: char| #[trigger] slash.requires((c,)),
                forall|c: char, b: bool| slash.ensures((c,), b) ==> b == (c == '/'),
            decreases entries.len() - i,
        {
            let raw = &entries[i];
            match ProviderKind::named(raw.kind.as_str()) {
                Ok(kind) => {
                    providers.push(
                        ProviderConfig {
                            kind,
                            url: strip_ends(
                                raw.url.as_str(),
                                slash,
                                false,
                                true,
                                Ghost(|c: char| c == '/'),
                            ),
                            start: raw.start.clone(),
                            launchd_label: raw.launchd_label.clone(),
                            kv_dtype_bytes: raw.kv_dtype_bytes,
                        },
                    );
                },
                Err(e) => {
                    proof {
                        lemma_first_index_is(entries@, unknown, i as int);
                    }
                    return Err(e);
                },
            }
            i += 1;
        }
        proof {
            lemma_first_index_is(entries@, unknown, i as int);
        }
        Ok(Config { providers })
    }

    /// The first provider of a kind, if one is configured.
    pub fn provider(&self, kind: ProviderKind) -> (r: Option<&ProviderConfig>)
        ensures
            ({
                let i = first_index(self.providers@, |p: ProviderConfig| p.kind == kind);
                match r {
                    Some(p) => i < self.providers@.len() && *p == self.providers@[i],
                    None => i == self.providers@.len(),
                }
            }),
    {
        let ghost f = |p: ProviderConfig| p.kind == kind;
        let mut i: usize = 0;
        while i < self.providers.len()
            invariant
                i <= self.providers.len(),
                f == (|p: ProviderConfig| p.kind == kind),
                forall|j: int| 0 <= j < i ==> !f(#[trigger] self.providers@[j]),
            decreases self.providers.len() - i,
        {
            if self.providers[i].kind == kind {
                proof {
                    lemma_first_index_is(self.providers@, f, i as int);
                }
                return Some(&self.providers[i]);
            }
            i += 1;
        }
        proof {
            lemma_first_index_is(self.providers@, f, i as int);
        }
        None
    }
}

} // verus!
