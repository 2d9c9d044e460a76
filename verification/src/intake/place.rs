//! Where a pulled file goes.
//!
//! A GGUF for llama.cpp and a GGUF for LM Studio are the same bytes and belong
//! in different stores, and a file in the wrong one is a file the provider that
//! was supposed to serve it cannot see.
use vstd::prelude::*;

use crate::inventory::artifact::{Format, Store};
use crate::inventory::scan::{places, roots};
use crate::paths::{counted, counts, join, lies_under, parts, under};
use crate::provider::ProviderKind;
use crate::seqs::{lemma_filter_members, lemma_filter_take};
use crate::text::{chars, ends, lemma_split_len, opt_text, same, split, split_on, starts, texts};

verus! {

/// Which store a provider serves a format from.
pub open spec fn store_of(provider: ProviderKind, format: Format) -> Option<Store> {
    match (provider, format) {
        (ProviderKind::LmStudio, Format::Gguf) => Some(Store::LmStudio),
        (ProviderKind::LmStudio, Format::Mlx) => Some(Store::LmStudio),
        (ProviderKind::LlamaCpp, Format::Gguf) => Some(Store::LlamaCpp),
        (ProviderKind::Vllm, Format::Mlx) => Some(Store::Vllm),
        _ => None,
    }
}

/// Which store serves a provider, for a format it can actually load.
///
/// `None` where the pairing is not real: Ollama's store is a blob database
/// keyed by digest, written by its own pull, so a file dropped into it is one
/// nothing will load; and no provider here loads safetensors without a
/// conversion.
pub fn store_for(provider: ProviderKind, format: Format) -> (r: Option<Store>)
    ensures
        r == store_of(provider, format),
{
    match (provider, format) {
        (ProviderKind::LmStudio, Format::Gguf) => Some(Store::LmStudio),
        (ProviderKind::LmStudio, Format::Mlx) => Some(Store::LmStudio),
        (ProviderKind::LlamaCpp, Format::Gguf) => Some(Store::LlamaCpp),
        (ProviderKind::Vllm, Format::Mlx) => Some(Store::Vllm),
        _ => None,
    }
}

/// Whether a piece of a repo id names a directory of its own.
pub open spec fn names_directory(s: Seq<char>) -> bool {
    s.len() > 0 && s != "."@ && s != ".."@
}

/// The directories a repo id names.
pub open spec fn segments(repo_id: Seq<char>) -> Seq<Seq<char>> {
    split(repo_id, '/').filter(|s: Seq<char>| names_directory(s))
}

/// A directory below another, one name at a time.
pub open spec fn descend(root: Seq<char>, names: Seq<Seq<char>>) -> Seq<char>
    decreases names.len(),
{
    if names.len() == 0 {
        root
    } else {
        under(descend(root, names.drop_last()), names.last())
    }
}

/// The directory a repo's files land in, in a store under a home directory.
pub open spec fn landing(store: Store, repo_id: Seq<char>, home: Seq<char>) -> Seq<char> {
    descend(under(home, places(store)[0]), segments(repo_id))
}

/// The directory a repo's files land in, or `None` when there is no home
/// directory for the store to be in.
///
/// The repo id becomes the directory, so `TheBloke/Qwen3-14B-GGUF` lands at
/// `<store>/TheBloke/Qwen3-14B-GGUF/`: the layout every scan here already
/// expects, and the one that keeps a publisher's two builds apart.
pub fn directory_for(store: Store, repo_id: &str, home: Option<&str>) -> (r: Option<String>)
    ensures
        opt_text(r) == match home {
            Some(h) => Some(landing(store, repo_id@, h@)),
            None => None,
        },
{
    let h = match home {
        Some(h) => h,
        None => {
            return None;
        },
    };
    let all = roots(store, h);
    let ghost root = under(h@, places(store)[0]);
    proof {
        assert(texts(all@).len() == places(store).len());
        assert(texts(all@)[0] == all@[0]@);
    }
    let mut out = all[0].clone();
    let pieces = split_on(repo_id, '/');
    let ghost p = |s: Seq<char>| names_directory(s);
    let mut i: usize = 0;
    proof {
        assert(texts(pieces@).take(0).filter(p) =~= Seq::empty());
    }
    while i < pieces.len()
        invariant
            i <= pieces@.len(),
            p == (|s: Seq<char>| names_directory(s)),
            out@ == descend(root, texts(pieces@).take(i as int).filter(p)),
        decreases pieces.len() - i,
    {
        let s = pieces[i].as_str();
        proof {
            lemma_filter_take(texts(pieces@), p, i as int);
            let kept = texts(pieces@).take(i as int).filter(p);
            assert(kept.push(s@).drop_last() =~= kept);
        }
        if chars(s).len() > 0 && !same(s, ".") && !same(s, "..") {
            out = join(out.as_str(), s);
        }
        i += 1;
    }
    proof {
        assert(texts(pieces@).take(i as int) =~= texts(pieces@));
    }
    Some(out)
}

/// A text with no separator in it.
spec fn plain(s: Seq<char>) -> bool {
    forall|i: int| 0 <= i < s.len() ==> #[trigger] s[i] != '/'
}

/// Cutting what has a plain text behind it: the text joins the last piece.
proof fn lemma_split_plain(s: Seq<char>, t: Seq<char>)
    requires
        plain(t),
    ensures
        split(s + t, '/').len() == split(s, '/').len(),
        split(s + t, '/') == split(s, '/').drop_last().push(split(s, '/').last() + t),
    decreases t.len(),
{
    lemma_split_len(s, '/');
    let pieces = split(s, '/');
    if t.len() == 0 {
        assert(s + t =~= s);
        assert(pieces.last() + t =~= pieces.last());
        assert(pieces.drop_last().push(pieces.last()) =~= pieces);
    } else {
        let u = t.drop_last();
        assert forall|i: int| 0 <= i < u.len() implies #[trigger] u[i] != '/' by {
            assert(t[i] != '/');
        }
        lemma_split_plain(s, u);
        assert((s + t).drop_last() =~= s + u);
        assert((s + t).last() == t.last());
        assert(t.last() != '/') by {
            assert(t[t.len() - 1] != '/');
        }
        let before = split(s + u, '/');
        assert(before.last() == pieces.last() + u);
        assert(before.drop_last() =~= pieces.drop_last());
        assert((pieces.last() + u).push(t.last()) =~= pieces.last() + t);
        assert(split(s + t, '/') =~= pieces.drop_last().push(pieces.last() + t));
    }
}

/// Every piece of a cut text is plain.
proof fn lemma_pieces_plain(s: Seq<char>)
    ensures
        forall|i: int| 0 <= i < split(s, '/').len() ==> plain(#[trigger] split(s, '/')[i]),
    decreases s.len(),
{
    lemma_split_len(s, '/');
    if s.len() > 0 {
        lemma_pieces_plain(s.drop_last());
        lemma_split_len(s.drop_last(), '/');
        let before = split(s.drop_last(), '/');
        let all = split(s, '/');
        assert forall|i: int| 0 <= i < all.len() implies plain(#[trigger] all[i]) by {
            if i < before.len() - 1 {
                assert(all[i] == before[i]);
            } else if s.last() != '/' {
                assert(plain(before[before.len() - 1]));
                assert(all[i] =~= before.last().push(s.last()));
            } else if i == before.len() - 1 {
                assert(all[i] == before[i]);
            }
        }
    } else {
        assert(split(s, '/') =~= seq![Seq::<char>::empty()]);
    }
}

/// Components that come of the same pieces are the same.
proof fn lemma_counted_same(a: Seq<Seq<char>>, b: Seq<Seq<char>>, n: nat)
    requires
        n <= a.len(),
        n <= b.len(),
        forall|i: int| 0 <= i < n ==> #[trigger] a[i] == b[i],
    ensures
        counted(a, n) == counted(b, n),
    decreases n,
{
    if n > 0 {
        lemma_counted_same(a, b, (n - 1) as nat);
    }
}

/// One name more is one component more.
pub proof fn lemma_parts_under(base: Seq<char>, name: Seq<char>)
    requires
        base.len() > 0,
        name.len() > 0,
        name != "."@,
        forall|i: int| 0 <= i < name.len() ==> #[trigger] name[i] != '/',
    ensures
        parts(under(base, name)) == parts(base).push(name),
        under(base, name).len() > 0,
{
    reveal_strlit("/");
    reveal_strlit(".");
    assert(!starts(name, "/"@)) by {
        if starts(name, "/"@) {
            assert(name.take(1)[0] == "/"@[0]);
        }
    }
    let whole = under(base, name);
    let pieces = split(base, '/');
    lemma_split_len(base, '/');
    let n = pieces.len();
    if ends(base, "/"@) {
        assert(base.last() == '/') by {
            assert(base.skip(base.len() - 1)[0] == "/"@[0]);
        }
        lemma_split_len(base.drop_last(), '/');
        assert(pieces.last() == Seq::<char>::empty());
        lemma_split_plain(base, name);
        assert(pieces.last() + name =~= name);
        let all = split(whole, '/');
        assert(all =~= pieces.drop_last().push(name));
        lemma_counted_same(pieces, all, (n - 1) as nat);
        assert(n >= 2);
        assert(counts(all, n - 1));
        assert(!counts(pieces, n - 1));
        assert(counted(all, n) == counted(pieces, n).push(name));
    } else {
        let joined = base + "/"@;
        assert(whole =~= joined + name);
        assert(joined.drop_last() =~= base);
        assert(joined.last() == '/');
        assert(split(joined, '/') == pieces.push(Seq::empty()));
        lemma_split_plain(joined, name);
        assert(split(joined, '/').drop_last() =~= pieces);
        assert(Seq::<char>::empty() + name =~= name);
        let all = split(whole, '/');
        assert(all =~= pieces.push(name));
        lemma_counted_same(pieces, all, n);
        assert(counts(all, n as int));
        assert(counted(all, n + 1) == counted(pieces, n).push(name));
    }
    assert(starts(whole, "/"@) == starts(base, "/"@)) by {
        assert(whole[0] == base[0]);
        if starts(base, "/"@) {
            assert(base.take(1)[0] == "/"@[0]);
            assert(whole.take(1) =~= "/"@);
        }
        if starts(whole, "/"@) {
            assert(whole.take(1)[0] == "/"@[0]);
            assert(base.take(1) =~= "/"@);
        }
    }
    assert(parts(whole) =~= parts(base).push(name));
}

proof fn lemma_descend(root: Seq<char>, names: Seq<Seq<char>>)
    requires
        root.len() > 0,
        forall|i: int|
            0 <= i < names.len() ==> names_directory(#[trigger] names[i]) && plain(names[i]),
    ensures
        parts(descend(root, names)) == parts(root) + names,
        descend(root, names).len() > 0,
    decreases names.len(),
{
    if names.len() == 0 {
        assert(parts(root) + names =~= parts(root));
    } else {
        let front = names.drop_last();
        assert forall|i: int| 0 <= i < front.len() implies names_directory(#[trigger] front[i])
            && plain(front[i]) by {
            assert(front[i] == names[i]);
        }
        lemma_descend(root, front);
        let last = names[names.len() - 1];
        assert(names_directory(last) && plain(last));
        lemma_parts_under(descend(root, front), last);
        assert(parts(root) + names =~= (parts(root) + front).push(last));
    }
}

/// A repo id becomes its directory and cannot escape the store: the directory
/// is the store's own and, below it, the names of the id, none of which leads
/// back up.
pub proof fn a_repo_cannot_escape_its_store(store: Store, repo_id: Seq<char>, home: Seq<char>)
    ensures
        lies_under(landing(store, repo_id, home), under(home, places(store)[0])),
        parts(landing(store, repo_id, home)) == parts(under(home, places(store)[0])) + segments(
            repo_id,
        ),
        !segments(repo_id).contains(".."@),
{
    let root = under(home, places(store)[0]);
    let names = segments(repo_id);
    let p = |s: Seq<char>| names_directory(s);
    reveal_strlit(".cache/huggingface/hub");
    reveal_strlit(".lmstudio/models");
    reveal_strlit(".llamacpp/models");
    reveal_strlit(".vllm-mlx");
    reveal_strlit(".ollama/models");
    assert(places(store)[0].len() > 0);
    assert(root.len() > 0);
    lemma_pieces_plain(repo_id);
    lemma_filter_members(split(repo_id, '/'), p);
    assert forall|i: int| 0 <= i < names.len() implies names_directory(#[trigger] names[i])
        && plain(names[i]) by {
        assert(p(names[i]));
        let k = split(repo_id, '/').index_of(names[i]);
        assert(plain(split(repo_id, '/')[k]));
    }
    lemma_descend(root, names);
    let all = parts(landing(store, repo_id, home));
    assert(all.take(parts(root).len() as int) =~= parts(root));
    if names.contains(".."@) {
        assert(p(".."@));
    }
}

} // verus!
