//! What the stores on disk hold, from the files that were found in them.
pub mod hf;
pub mod lmstudio;
pub mod ollama;
pub mod vllm;

use vstd::prelude::*;

use crate::inventory::artifact::{bits_from_name, bits_of, Artifact, FileKey, Store};
use crate::inventory::graph::{keys_of, reaches};
use crate::paths::{components, join, parts, under};
use crate::seqs::{lemma_same_members, lemma_without_last};
use crate::text::{opt_text, same, texts};

verus! {

/// Directories that are never model artifacts.
pub open spec fn excluded_names() -> Seq<Seq<char>> {
    seq![
        "venv"@,
        ".venv"@,
        "__pycache__"@,
        ".git"@,
        "node_modules"@,
        ".cache_delete"@,
        "site-packages"@,
    ]
}

fn is_excluded_name(name: &str) -> (r: bool)
    ensures
        r == excluded_names().contains(name@),
{
    let all = [
        "venv",
        ".venv",
        "__pycache__",
        ".git",
        "node_modules",
        ".cache_delete",
        "site-packages",
    ];
    let mut i: usize = 0;
    while i < 7
        invariant
            i <= 7,
            all@.len() == 7,
            forall|k: int| 0 <= k < 7 ==> (#[trigger] all@[k])@ == excluded_names()[k],
            forall|k: int| 0 <= k < i ==> #[trigger] excluded_names()[k] != name@,
        decreases 7 - i,
    {
        if same(name, all[i]) {
            proof {
                assert(excluded_names()[i as int] == name@);
            }
            return true;
        }
        i += 1;
    }
    false
}

/// Whether any component of a path is a directory that holds no artifacts.
pub open spec fn excluded(path: Seq<char>) -> bool {
    exists|i: int|
        0 <= i < parts(path).len() && excluded_names().contains(#[trigger] parts(path)[i])
}

/// Whether a path lies in a directory that is never a model artifact.
pub fn is_excluded(path: &str) -> (r: bool)
    ensures
        r == excluded(path@),
{
    let names = components(path);
    let mut i: usize = 0;
    while i < names.len()
        invariant
            i <= names@.len(),
            texts(names@) == parts(path@),
            forall|k: int| 0 <= k < i ==> !excluded_names().contains(#[trigger] parts(path@)[k]),
        decreases names.len() - i,
    {
        proof {
            assert(parts(path@)[i as int] == names@[i as int]@);
        }
        if is_excluded_name(names[i].as_str()) {
            return true;
        }
        i += 1;
    }
    false
}

/// The bytes of artifacts, counting each allocation once: what reaches an
/// allocation that was reached before adds nothing, and so does a path that
/// reaches none.
pub open spec fn unique_bytes(artifacts: Seq<Artifact>) -> nat
    decreases artifacts.len(),
{
    if artifacts.len() == 0 {
        0
    } else {
        let front = artifacts.drop_last();
        let a = artifacts.last();
        unique_bytes(front) + match a.key {
            Some(k) => if keys_of(front).contains(k) {
                0
            } else {
                a.bytes as nat
            },
            None => 0,
        }
    }
}

proof fn lemma_unique_grows(artifacts: Seq<Artifact>, i: int)
    requires
        0 <= i <= artifacts.len(),
    ensures
        unique_bytes(artifacts.take(i)) <= unique_bytes(artifacts),
    decreases artifacts.len() - i,
{
    if i < artifacts.len() {
        lemma_unique_grows(artifacts, i + 1);
        assert(artifacts.take(i + 1).drop_last() =~= artifacts.take(i));
    } else {
        assert(artifacts.take(i) =~= artifacts);
    }
}

pub(crate) fn has_key(seen: &Vec<FileKey>, k: FileKey) -> (r: bool)
    ensures
        r == seen@.contains(k),
{
    let mut i: usize = 0;
    while i < seen.len()
        invariant
            i <= seen@.len(),
            forall|j: int| 0 <= j < i ==> #[trigger] seen@[j] != k,
        decreases seen.len() - i,
    {
        if seen[i] == k {
            return true;
        }
        i += 1;
    }
    false
}

/// Bytes on disk, counting each allocation once however many paths reach it.
pub fn total_unique_bytes(artifacts: &[Artifact]) -> (n: u64)
    requires
        unique_bytes(artifacts@) <= u64::MAX,
    ensures
        n == unique_bytes(artifacts@),
{
    let mut seen: Vec<FileKey> = Vec::new();
    let mut total: u64 = 0;
    let mut i: usize = 0;
    while i < artifacts.len()
        invariant
            i <= artifacts@.len(),
            unique_bytes(artifacts@) <= u64::MAX,
            seen@ == keys_of(artifacts@.take(i as int)),
            total == unique_bytes(artifacts@.take(i as int)),
        decreases artifacts.len() - i,
    {
        proof {
            assert(artifacts@.take(i + 1).drop_last() =~= artifacts@.take(i as int));
            lemma_unique_grows(artifacts@, i + 1);
        }
        if let Some(k) = artifacts[i].key {
            if !has_key(&seen, k) {
                seen.push(k);
                total = total + artifacts[i].bytes;
            }
        }
        i += 1;
    }
    proof {
        assert(artifacts@.take(i as int) =~= artifacts@);
    }
    total
}

/// A path to bytes that are reached already adds nothing to the total.
pub proof fn an_alias_adds_no_bytes(artifacts: Seq<Artifact>, a: Artifact, i: int)
    requires
        0 <= i < artifacts.len(),
        a.key == artifacts[i].key,
    ensures
        unique_bytes(artifacts.push(a)) == unique_bytes(artifacts),
{
    assert(artifacts.push(a).drop_last() =~= artifacts);
    crate::inventory::graph::lemma_keys_of(artifacts);
    if let Some(k) = artifacts[i].key {
        assert(keys_of(artifacts).contains(k));
    }
}

/// Whether an allocation is reached by any of some artifacts.
pub open spec fn reached(artifacts: Seq<Artifact>, key: Option<FileKey>) -> bool {
    exists|i: int| 0 <= i < artifacts.len() && (#[trigger] artifacts[i]).key == key
}

/// What an artifact adds beside others: its bytes, where it reaches some that
/// none of the others does.
pub open spec fn adds(artifacts: Seq<Artifact>, a: Artifact) -> nat {
    if a.key is Some && !reached(artifacts, a.key) {
        a.bytes as nat
    } else {
        0
    }
}

/// Whether the paths to one allocation agree on its size.
pub open spec fn sizes_agree(artifacts: Seq<Artifact>) -> bool {
    forall|i: int, j: int|
        #![trigger artifacts[i], artifacts[j]]
        0 <= i < artifacts.len() && 0 <= j < artifacts.len() && artifacts[i].key is Some
            && artifacts[i].key == artifacts[j].key ==> artifacts[i].bytes == artifacts[j].bytes
}

/// One more artifact adds its bytes where it reaches some that nothing reached
/// before, and nothing else.
pub proof fn one_more_adds_what_is_new(artifacts: Seq<Artifact>, a: Artifact)
    ensures
        unique_bytes(artifacts.push(a)) == unique_bytes(artifacts) + adds(artifacts, a),
{
    assert(artifacts.push(a).drop_last() =~= artifacts);
    crate::inventory::graph::lemma_keys_of(artifacts);
    if let Some(k) = a.key {
        if keys_of(artifacts).contains(k) {
            let i = choose|i: int| 0 <= i < artifacts.len() && #[trigger] reaches(artifacts[i], k);
            assert(artifacts[i].key == a.key);
        } else if reached(artifacts, a.key) {
            let i = choose|i: int| 0 <= i < artifacts.len() && (#[trigger] artifacts[i]).key == a.key;
            assert(keys_of(artifacts).contains(k));
        }
    }
}

/// The bytes of artifacts, with one taken out.
proof fn lemma_unique_without(s: Seq<Artifact>, i: int)
    requires
        0 <= i < s.len(),
        sizes_agree(s),
    ensures
        unique_bytes(s) == unique_bytes(s.remove(i)) + adds(s.remove(i), s[i]),
    decreases s.len(),
{
    let front = s.drop_last();
    let last = s.last();
    assert(s[s.len() - 1] == last);
    assert(front.push(last) =~= s);
    one_more_adds_what_is_new(front, last);
    if i == s.len() - 1 {
        assert(s.remove(i) =~= front);
    } else {
        let rest = front.remove(i);
        let less = s.remove(i);
        assert(sizes_agree(front)) by {
            assert forall|a: int, b: int|
                #![trigger front[a], front[b]]
                0 <= a < front.len() && 0 <= b < front.len() && front[a].key is Some
                    && front[a].key == front[b].key implies front[a].bytes == front[b].bytes by {
                assert(s[a] == front[a] && s[b] == front[b]);
            }
        }
        lemma_unique_without(front, i);
        assert(less =~= rest.push(last));
        one_more_adds_what_is_new(rest, last);
        assert(front[i] == s[i]);
        lemma_reached_without(front, i, last.key);
        lemma_reached_push(rest, last, s[i].key);
        assert(s[i].key is Some && s[i].key == last.key ==> s[i].bytes == last.bytes);
    }
}

proof fn lemma_reached_without(s: Seq<Artifact>, i: int, key: Option<FileKey>)
    requires
        0 <= i < s.len(),
    ensures
        reached(s, key) <==> (reached(s.remove(i), key) || s[i].key == key),
{
    let r = s.remove(i);
    if reached(s, key) {
        let k = choose|k: int| 0 <= k < s.len() && (#[trigger] s[k]).key == key;
        if k < i {
            assert(r[k] == s[k]);
        } else if k > i {
            assert(r[k - 1] == s[k]);
        }
    }
    if reached(r, key) {
        let k = choose|k: int| 0 <= k < r.len() && (#[trigger] r[k]).key == key;
        if k < i {
            assert(s[k] == r[k]);
        } else {
            assert(s[k + 1] == r[k]);
        }
    }
    assert(s[i].key == key ==> reached(s, key));
}

proof fn lemma_reached_push(s: Seq<Artifact>, a: Artifact, key: Option<FileKey>)
    ensures
        reached(s.push(a), key) <==> (reached(s, key) || a.key == key),
{
    let t = s.push(a);
    if reached(s, key) {
        let k = choose|k: int| 0 <= k < s.len() && (#[trigger] s[k]).key == key;
        assert(t[k] == s[k]);
    }
    if reached(t, key) {
        let k = choose|k: int| 0 <= k < t.len() && (#[trigger] t[k]).key == key;
        if k < s.len() {
            assert(s[k] == t[k]);
        }
    }
    assert(t[s.len() as int] == a);
}

/// The bytes on disk do not depend on the order in which they are found, where
/// the paths to one allocation agree on its size.
pub proof fn the_order_does_not_matter(s: Seq<Artifact>, t: Seq<Artifact>)
    requires
        s.to_multiset() == t.to_multiset(),
        sizes_agree(s),
    ensures
        unique_bytes(s) == unique_bytes(t),
    decreases s.len(),
{
    broadcast use vstd::seq_lib::group_to_multiset_ensures;

    if s.len() == 0 {
        assert(t.to_multiset().len() == 0);
    } else {
        let j = lemma_without_last(s, t);
        let front = s.drop_last();
        let rest = t.remove(j);
        assert(sizes_agree(t)) by {
            assert forall|a: int, b: int|
                #![trigger t[a], t[b]]
                0 <= a < t.len() && 0 <= b < t.len() && t[a].key is Some && t[a].key == t[b].key
                    implies t[a].bytes == t[b].bytes by {
                assert(t.contains(t[a]) && t.contains(t[b]));
                lemma_same_members(s, t, t[a]);
                lemma_same_members(s, t, t[b]);
                let x = s.index_of(t[a]);
                let y = s.index_of(t[b]);
                assert(s[x] == t[a] && s[y] == t[b]);
            }
        }
        assert(sizes_agree(front)) by {
            assert forall|a: int, b: int|
                #![trigger front[a], front[b]]
                0 <= a < front.len() && 0 <= b < front.len() && front[a].key is Some
                    && front[a].key == front[b].key implies front[a].bytes == front[b].bytes by {
                assert(s[a] == front[a] && s[b] == front[b]);
            }
        }
        the_order_does_not_matter(front, rest);
        lemma_unique_without(t, j);
        lemma_unique_without(s, s.len() - 1);
        assert(s.remove(s.len() - 1) =~= front);
        let key = s.last().key;
        assert(reached(front, key) <==> reached(rest, key)) by {
            if reached(front, key) {
                let k = choose|k: int| 0 <= k < front.len() && (#[trigger] front[k]).key == key;
                assert(front.contains(front[k]));
                lemma_same_members(front, rest, front[k]);
                let x = rest.index_of(front[k]);
                assert(rest[x].key == key);
            }
            if reached(rest, key) {
                let k = choose|k: int| 0 <= k < rest.len() && (#[trigger] rest[k]).key == key;
                assert(rest.contains(rest[k]));
                lemma_same_members(front, rest, rest[k]);
                let x = front.index_of(rest[k]);
                assert(front[x].key == key);
            }
        }
    }
}

/// Where a store keeps artifacts, under a home directory.
pub open spec fn places(store: Store) -> Seq<Seq<char>> {
    match store {
        Store::HfCache => seq![".cache/huggingface/hub"@],
        Store::LmStudio => seq![".lmstudio/models"@, ".lmstudio/.internal/bundled-models"@],
        Store::LlamaCpp => seq![".llamacpp/models"@],
        Store::Vllm => seq![".vllm-mlx"@],
        Store::Ollama => seq![".ollama/models"@],
    }
}

/// Where a store keeps artifacts, under a home directory.
///
/// A list because LM Studio has two: the models you install, and the ones it
/// ships with.
pub fn roots(store: Store, home: &str) -> (r: Vec<String>)
    ensures
        texts(r@) == places(store).map_values(|p: Seq<char>| under(home@, p)),
{
    let mut out: Vec<String> = Vec::new();
    let (first, second): (&str, Option<&str>) = match store {
        Store::HfCache => (".cache/huggingface/hub", None),
        Store::LmStudio => (".lmstudio/models", Some(".lmstudio/.internal/bundled-models")),
        Store::LlamaCpp => (".llamacpp/models", None),
        Store::Vllm => (".vllm-mlx", None),
        Store::Ollama => (".ollama/models", None),
    };
    out.push(join(home, first));
    if let Some(p) = second {
        out.push(join(home, p));
    }
    proof {
        assert(texts(out@) =~= places(store).map_values(|p: Seq<char>| under(home@, p)));
    }
    out
}

/// Whether `r` is `a` under the name that a store's layout gives it. A name
/// that carries a bit depth supplies one where the file's own name did not.
pub open spec fn hinted(a: Artifact, r: Artifact, hint: Option<Seq<char>>) -> bool {
    &&& r.id == a.id
    &&& r.path == a.path
    &&& r.store == a.store
    &&& r.format == a.format
    &&& r.bytes == a.bytes
    &&& r.key == a.key
    &&& r.is_link == a.is_link
    &&& match hint {
        Some(h) => r.name_hint@ == h && r.bits == match a.bits {
            Some(b) => Some(b),
            None => bits_of(h),
        },
        None => r.name_hint == a.name_hint && r.bits == a.bits,
    }
}

/// An artifact under the name that a store's layout gives it.
pub(crate) fn rehint(a: &Artifact, hint: Option<String>) -> (r: Artifact)
    ensures
        hinted(*a, r, opt_text(hint)),
{
    let mut r = a.clone();
    if let Some(h) = hint {
        if r.bits.is_none() {
            r.bits = bits_from_name(h.as_str());
        }
        r.name_hint = h;
    }
    r
}

} // verus!
