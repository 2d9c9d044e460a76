//! Paths as text: their components, and how two of them lie to each other.
//!
//! Paths are compared by components, never by spelling: repeated separators
//! and inner `.` components do not count.
use vstd::prelude::*;

use crate::text::{cat2, cat3, chars, ends, ends_with, same, split, split_on, starts, starts_with, texts};

verus! {

/// Whether the `i`th piece between separators is a component.
pub open spec fn counts(pieces: Seq<Seq<char>>, i: int) -> bool {
    pieces[i].len() > 0 && (pieces[i] != "."@ || i == 0)
}

/// The pieces that are components, of the first `n`.
pub open spec fn counted(pieces: Seq<Seq<char>>, n: nat) -> Seq<Seq<char>>
    decreases n,
{
    if n == 0 {
        Seq::empty()
    } else {
        let before = counted(pieces, (n - 1) as nat);
        if counts(pieces, n - 1) {
            before.push(pieces[n - 1])
        } else {
            before
        }
    }
}

/// The components of a path. The root of an absolute one is the first, `/`.
pub open spec fn parts(path: Seq<char>) -> Seq<Seq<char>> {
    let pieces = split(path, '/');
    let names = counted(pieces, pieces.len());
    if starts(path, "/"@) {
        seq!["/"@] + names
    } else {
        names
    }
}

/// The components of a path.
pub fn components(path: &str) -> (r: Vec<String>)
    ensures
        texts(r@) == parts(path@),
{
    let pieces = split_on(path, '/');
    let mut out: Vec<String> = Vec::new();
    let ghost root: Seq<Seq<char>> = if starts(path@, "/"@) {
        seq!["/"@]
    } else {
        Seq::empty()
    };
    if starts_with(path, "/") {
        out.push("/".to_owned());
    }
    proof {
        assert(texts(out@) =~= root);
    }
    let mut i: usize = 0;
    while i < pieces.len()
        invariant
            i <= pieces@.len(),
            texts(out@) == root + counted(texts(pieces@), i as nat),
        decreases pieces.len() - i,
    {
        let piece = pieces[i].as_str();
        proof {
            assert(texts(pieces@)[i as int] == piece@);
        }
        if !same(piece, "") && (i == 0 || !same(piece, ".")) {
            proof {
                reveal_strlit("");
                assert(piece@.len() > 0) by {
                    if piece@.len() == 0 {
                        assert(piece@ =~= ""@);
                    }
                }
            }
            let ghost was = out@;
            out.push(pieces[i].clone());
            proof {
                assert(texts(out@) =~= texts(was).push(piece@));
                assert(texts(out@) =~= root + counted(texts(pieces@), (i + 1) as nat));
            }
        } else {
            proof {
                reveal_strlit("");
            }
        }
        i += 1;
    }
    proof {
        if !starts(path@, "/"@) {
            assert(texts(out@) =~= counted(texts(pieces@), pieces@.len()));
        }
    }
    out
}

/// Whether one path lies at or below another.
pub open spec fn lies_under(path: Seq<char>, base: Seq<char>) -> bool {
    let p = parts(path);
    let b = parts(base);
    b.len() <= p.len() && p.take(b.len() as int) == b
}

/// The components of a path below a base it lies under.
pub open spec fn below(path: Seq<char>, base: Seq<char>) -> Option<Seq<Seq<char>>> {
    if lies_under(path, base) {
        Some(parts(path).skip(parts(base).len() as int))
    } else {
        None
    }
}

/// The directory a path stands in, by components; the root stands in none.
pub open spec fn directory(path: Seq<char>) -> Option<Seq<Seq<char>>> {
    let p = parts(path);
    if p.len() == 0 || p.last() == "/"@ {
        None
    } else {
        Some(p.drop_last())
    }
}

/// The components of a path below a base it lies under.
pub fn strip_base(path: &str, base: &str) -> (r: Option<Vec<String>>)
    ensures
        match r {
            Some(rest) => below(path@, base@) == Some(texts(rest@)),
            None => below(path@, base@) is None,
        },
{
    let p = components(path);
    let b = components(base);
    if b.len() > p.len() {
        return None;
    }
    let mut i: usize = 0;
    while i < b.len()
        invariant
            i <= b@.len() <= p@.len(),
            texts(p@) == parts(path@),
            texts(b@) == parts(base@),
            forall|k: int| 0 <= k < i ==> #[trigger] texts(p@)[k] == texts(b@)[k],
        decreases b.len() - i,
    {
        if !same(p[i].as_str(), b[i].as_str()) {
            proof {
                assert(texts(p@).take(b@.len() as int)[i as int] == p@[i as int]@);
                assert(texts(b@)[i as int] == b@[i as int]@);
            }
            return None;
        }
        proof {
            assert(texts(p@)[i as int] == texts(b@)[i as int]);
        }
        i += 1;
    }
    proof {
        assert(texts(p@).take(b@.len() as int) =~= texts(b@));
    }
    let mut rest: Vec<String> = Vec::new();
    let mut k: usize = b.len();
    proof {
        assert(texts(rest@) =~= texts(p@).subrange(b@.len() as int, k as int));
    }
    while k < p.len()
        invariant
            b@.len() <= k <= p@.len(),
            texts(rest@) == texts(p@).subrange(b@.len() as int, k as int),
        decreases p.len() - k,
    {
        let ghost was = rest@;
        rest.push(p[k].clone());
        proof {
            assert(texts(rest@) =~= texts(was).push(p@[k as int]@));
            assert(texts(p@).subrange(b@.len() as int, k + 1) =~= texts(p@).subrange(
                b@.len() as int,
                k as int,
            ).push(p@[k as int]@));
        }
        k += 1;
    }
    proof {
        assert(texts(rest@) =~= texts(p@).skip(b@.len() as int));
    }
    Some(rest)
}

/// Whether one path lies at or below another.
pub fn is_under(path: &str, base: &str) -> (r: bool)
    ensures
        r == lies_under(path@, base@),
{
    strip_base(path, base).is_some()
}

/// Whether two paths stand in the same directory.
pub fn same_directory(a: &str, b: &str) -> (r: bool)
    ensures
        r == (directory(a@) is Some && directory(a@) == directory(b@)),
{
    let x = components(a);
    let y = components(b);
    proof {
        if x@.len() > 0 {
            assert(texts(x@).last() == x@.last()@);
        }
        if y@.len() > 0 {
            assert(texts(y@).last() == y@.last()@);
        }
    }
    if x.len() == 0 || same(x[x.len() - 1].as_str(), "/") || y.len() == 0 || same(
        y[y.len() - 1].as_str(),
        "/",
    ) {
        return false;
    }
    if x.len() != y.len() {
        proof {
            assert(directory(a@)->0.len() == x@.len() - 1);
            assert(directory(b@)->0.len() == y@.len() - 1);
        }
        return false;
    }
    let mut i: usize = 0;
    while i + 1 < x.len()
        invariant
            0 <= i < x@.len(),
            x@.len() == y@.len(),
            texts(x@) == parts(a@),
            texts(y@) == parts(b@),
            directory(a@) == Some(texts(x@).drop_last()),
            directory(b@) == Some(texts(y@).drop_last()),
            forall|k: int| 0 <= k < i ==> #[trigger] texts(x@)[k] == texts(y@)[k],
        decreases x.len() - i,
    {
        if !same(x[i].as_str(), y[i].as_str()) {
            proof {
                assert(texts(x@).drop_last()[i as int] == x@[i as int]@);
                assert(texts(y@).drop_last()[i as int] == y@[i as int]@);
            }
            return false;
        }
        i += 1;
    }
    proof {
        assert(texts(x@).drop_last() =~= texts(y@).drop_last());
    }
    true
}

/// The name a path ends in; the root and `..` are no names.
pub open spec fn name_of(path: Seq<char>) -> Option<Seq<char>> {
    let p = parts(path);
    if p.len() == 0 || p.last() == "/"@ || p.last() == ".."@ || p.last() == "."@ {
        None
    } else {
        Some(p.last())
    }
}

/// The name a path ends in.
pub fn file_name(path: &str) -> (r: Option<String>)
    ensures
        crate::text::opt_text(r) == name_of(path@),
{
    let p = components(path);
    if p.len() == 0 {
        return None;
    }
    let last = &p[p.len() - 1];
    proof {
        assert(texts(p@).last() == last@);
    }
    if same(last.as_str(), "/") || same(last.as_str(), "..") || same(last.as_str(), ".") {
        None
    } else {
        Some(last.clone())
    }
}

/// A path below another: an absolute one stands for itself.
pub open spec fn under(base: Seq<char>, path: Seq<char>) -> Seq<char> {
    if starts(path, "/"@) {
        path
    } else if base.len() == 0 || ends(base, "/"@) {
        base + path
    } else {
        base + "/"@ + path
    }
}

/// A path below another.
pub fn join(base: &str, path: &str) -> (r: String)
    ensures
        r@ == under(base@, path@),
{
    if starts_with(path, "/") {
        path.to_owned()
    } else if chars(base).len() == 0 || ends_with(base, "/") {
        cat2(base, path)
    } else {
        cat3(base, "/", path)
    }
}

/// The last piece that is a component, of the first `n`.
pub open spec fn last_counted(pieces: Seq<Seq<char>>, n: nat) -> Option<int>
    decreases n,
{
    if n == 0 {
        None
    } else if counts(pieces, n - 1) {
        Some(n - 1)
    } else {
        last_counted(pieces, (n - 1) as nat)
    }
}

/// What a path says of the directory it stands in: the text up to the end of
/// the component before its last; the root, or nothing, where there is none
/// before it. A path without a component of its own stands in none.
pub open spec fn parent_text(path: Seq<char>) -> Option<Seq<char>> {
    let pieces = split(path, '/');
    match last_counted(pieces, pieces.len()) {
        None => None,
        Some(last) => match last_counted(pieces, last as nat) {
            Some(before) => Some(crate::text::joined(pieces.take(before + 1), "/"@)),
            None => if starts(path, "/"@) {
                Some("/"@)
            } else {
                Some(""@)
            },
        },
    }
}

fn find_counted(pieces: &Vec<String>, n: usize) -> (r: Option<usize>)
    requires
        n <= pieces@.len(),
    ensures
        match r {
            Some(i) => last_counted(texts(pieces@), n as nat) == Some(i as int) && i < n,
            None => last_counted(texts(pieces@), n as nat) is None,
        },
{
    let mut k: usize = n;
    while k > 0
        invariant
            k <= n <= pieces@.len(),
            last_counted(texts(pieces@), n as nat) == last_counted(texts(pieces@), k as nat),
        decreases k,
    {
        let piece = pieces[k - 1].as_str();
        proof {
            assert(texts(pieces@)[k - 1] == piece@);
        }
        if chars(piece).len() > 0 && (k == 1 || !same(piece, ".")) {
            return Some(k - 1);
        }
        k -= 1;
    }
    None
}

/// What a path says of the directory it stands in.
pub fn parent(path: &str) -> (r: Option<String>)
    ensures
        crate::text::opt_text(r) == parent_text(path@),
{
    let pieces = split_on(path, '/');
    let last = match find_counted(&pieces, pieces.len()) {
        Some(i) => i,
        None => {
            return None;
        },
    };
    match find_counted(&pieces, last) {
        Some(before) => {
            let mut kept: Vec<String> = Vec::new();
            let mut i: usize = 0;
            proof {
                assert(texts(kept@) =~= texts(pieces@).take(0));
            }
            while i <= before
                invariant
                    i <= before + 1,
                    before < pieces.len(),
                    texts(kept@) == texts(pieces@).take(i as int),
                decreases before + 1 - i,
            {
                let ghost was = kept@;
                kept.push(pieces[i].clone());
                proof {
                    assert(texts(kept@) =~= texts(was).push(texts(pieces@)[i as int]));
                    assert(texts(pieces@).take(i + 1) =~= texts(pieces@).take(i as int).push(
                        texts(pieces@)[i as int],
                    ));
                }
                i += 1;
            }
            Some(crate::text::join(&kept, "/"))
        },
        None => if starts_with(path, "/") {
            Some("/".to_owned())
        } else {
            Some("".to_owned())
        },
    }
}

} // verus!
