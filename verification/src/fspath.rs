//! Filesystem paths as text, taken apart at the slashes.
//!
//! A path is cut into parts the way the operating system reads it: empty parts
//! (from a leading, trailing or doubled slash) do not count, and neither does
//! a `.` other than one that begins a relative path.
use vstd::prelude::*;

use crate::text::{chars_of, same_text};

verus! {

/// The pieces of `s` between the separators, empty ones included.
pub open spec fn split_at(s: Seq<char>, sep: char) -> Seq<Seq<char>>
    decreases s.len(),
{
    if s.len() == 0 {
        seq![Seq::<char>::empty()]
    } else {
        let before = split_at(s.drop_last(), sep);
        if s.last() == sep {
            before.push(Seq::<char>::empty())
        } else {
            before.drop_last().push(before.last().push(s.last()))
        }
    }
}

/// There is always at least one piece.
pub proof fn lemma_split_nonempty(s: Seq<char>, sep: char)
    ensures
        split_at(s, sep).len() >= 1,
    decreases s.len(),
{
    if s.len() > 0 {
        lemma_split_nonempty(s.drop_last(), sep);
    }
}

/// Texts as mathematical values.
pub open spec fn texts(v: Seq<String>) -> Seq<Seq<char>> {
    v.map_values(|s: String| s@)
}

/// Cut `s` at every separator.
pub fn split_text(s: &str, sep: char) -> (r: Vec<String>)
    ensures
        texts(r@) == split_at(s@, sep),
{
    let chars = chars_of(s);
    let mut done: Vec<String> = Vec::new();
    let mut current = String::new();
    let mut i: usize = 0;
    proof {
        assert(texts(done@).push(current@) =~= split_at(chars@.take(0), sep));
    }
    while i < chars.len()
        invariant
            0 <= i <= chars.len(),
            texts(done@).push(current@) =~= split_at(chars@.take(i as int), sep),
        decreases chars.len() - i,
    {
        let c = chars[i];
        proof {
            assert(chars@.take(i + 1).drop_last() =~= chars@.take(i as int));
            assert(split_at(chars@.take(i as int), sep).drop_last() =~= texts(done@));
        }
        if c == sep {
            let ghost finished = current@;
            done.push(current);
            current = String::new();
            proof {
                assert(texts(done@).drop_last() =~= split_at(chars@.take(i as int), sep).drop_last());
                assert(texts(done@) =~= split_at(chars@.take(i as int), sep));
            }
        } else {
            current.push(c);
        }
        i = i + 1;
    }
    assert(chars@.take(i as int) =~= s@);
    let ghost before = texts(done@);
    let ghost tail = current@;
    done.push(current);
    assert(texts(done@) =~= before.push(tail));
    done
}

/// What the pieces of a path name, from the outermost directory in: empty
/// pieces and `.` name nothing, `..` takes the previous name back.
pub open spec fn resolve_pieces(pieces: Seq<Seq<char>>) -> Seq<Seq<char>>
    decreases pieces.len(),
{
    if pieces.len() == 0 {
        Seq::empty()
    } else {
        let before = resolve_pieces(pieces.drop_last());
        let piece = pieces.last();
        if piece.len() == 0 || piece == "."@ {
            before
        } else if piece == ".."@ {
            if before.len() == 0 {
                before
            } else {
                before.drop_last()
            }
        } else {
            before.push(piece)
        }
    }
}

/// The component names of a path, with `.` and `..` resolved textually.
pub open spec fn components_of(path: Seq<char>) -> Seq<Seq<char>> {
    resolve_pieces(split_at(path, '/'))
}

/// Split a path into component names, dropping the root and resolving `.` and
/// `..` textually.
pub fn normalised_components(path: &str) -> (r: Vec<String>)
    ensures
        texts(r@) == components_of(path@),
{
    let pieces = split_text(path, '/');
    let ghost all = texts(pieces@);
    let mut out: Vec<String> = Vec::new();
    let mut i: usize = 0;
    assert(texts(out@) =~= resolve_pieces(all.take(0)));
    while i < pieces.len()
        invariant
            0 <= i <= pieces.len(),
            all == texts(pieces@),
            texts(out@) =~= resolve_pieces(all.take(i as int)),
        decreases pieces.len() - i,
    {
        let piece = &pieces[i];
        proof {
            assert(all.take(i + 1).drop_last() =~= all.take(i as int));
            assert(all.take(i + 1).last() == piece@);
        }
        if piece.as_str().is_empty() || same_text(piece.as_str(), ".") {
            // names nothing
        } else if same_text(piece.as_str(), "..") {
            let ghost before = texts(out@);
            let popped = out.pop();
            assert(before.len() > 0 ==> texts(out@) =~= before.drop_last());
        } else {
            let ghost before = texts(out@);
            out.push(piece.clone());
            assert(texts(out@) =~= before.push(piece@));
        }
        i = i + 1;
    }
    assert(all.take(i as int) =~= all);
    out
}

/// `/` before every name.
pub open spec fn joined(names: Seq<Seq<char>>) -> Seq<char>
    decreases names.len(),
{
    if names.len() == 0 {
        Seq::empty()
    } else {
        joined(names.drop_last()) + seq!['/'] + names.last()
    }
}

/// Whether `name` can be a component: not empty, no slash, not `.` or `..`.
pub open spec fn is_component_name(name: Seq<char>) -> bool {
    &&& name.len() > 0
    &&& !name.contains('/')
    &&& name != "."@
    &&& name != ".."@
}

/// Pieces never hold the separator.
pub proof fn lemma_split_pieces(s: Seq<char>, sep: char)
    ensures
        forall|k: int|
            0 <= k < split_at(s, sep).len() ==> !(#[trigger] split_at(s, sep)[k]).contains(sep),
    decreases s.len(),
{
    if s.len() > 0 {
        lemma_split_pieces(s.drop_last(), sep);
        lemma_split_nonempty(s.drop_last(), sep);
        let before = split_at(s.drop_last(), sep);
        let after = split_at(s, sep);
        assert forall|k: int| 0 <= k < after.len() implies !(#[trigger] after[k]).contains(sep) by {
            if s.last() == sep {
                if k < before.len() {
                    assert(after[k] == before[k]);
                }
            } else if k < before.len() - 1 {
                assert(after[k] == before[k]);
            } else {
                assert(!before.last().contains(sep)) by {
                    assert(before.last() == before[before.len() - 1]);
                }
                if after[k].contains(sep) {
                    let j = choose|j: int| 0 <= j < after[k].len() && after[k][j] == sep;
                    assert(before.last()[j] == sep);
                }
            }
        }
    }
}

/// Every name that a path resolves to can be a component.
pub proof fn lemma_components_are_names(path: Seq<char>)
    ensures
        forall|k: int|
            0 <= k < components_of(path).len() ==> is_component_name(
                #[trigger] components_of(path)[k],
            ),
{
    lemma_split_pieces(path, '/');
    lemma_resolved_are_names(split_at(path, '/'));
}

proof fn lemma_resolved_are_names(pieces: Seq<Seq<char>>)
    requires
        forall|k: int| 0 <= k < pieces.len() ==> !(#[trigger] pieces[k]).contains('/'),
    ensures
        forall|k: int|
            0 <= k < resolve_pieces(pieces).len() ==> is_component_name(
                #[trigger] resolve_pieces(pieces)[k],
            ),
    decreases pieces.len(),
{
    if pieces.len() > 0 {
        let shorter = pieces.drop_last();
        assert forall|k: int| 0 <= k < shorter.len() implies !(#[trigger] shorter[k]).contains(
            '/',
        ) by {
            assert(shorter[k] == pieces[k]);
        }
        lemma_resolved_are_names(shorter);
        let before = resolve_pieces(shorter);
        let after = resolve_pieces(pieces);
        assert(!pieces.last().contains('/')) by {
            assert(pieces.last() == pieces[pieces.len() - 1]);
        }
        assert forall|k: int| 0 <= k < after.len() implies is_component_name(#[trigger] after[k]) by {
            if k < before.len() {
                assert(after[k] == before[k]);
            }
        }
    }
}

/// A name after one more slash is one more piece.
proof fn lemma_split_one_more(before: Seq<char>, name: Seq<char>)
    requires
        !name.contains('/'),
    ensures
        split_at(before + seq!['/'] + name, '/') == split_at(before, '/').push(name),
    decreases name.len(),
{
    let whole = before + seq!['/'] + name;
    if name.len() == 0 {
        assert(whole.drop_last() =~= before);
        assert(name =~= Seq::<char>::empty());
    } else {
        let shorter = name.drop_last();
        assert(!shorter.contains('/')) by {
            if shorter.contains('/') {
                let k = choose|k: int| 0 <= k < shorter.len() && shorter[k] == '/';
                assert(name[k] == '/');
            }
        }
        lemma_split_one_more(before, shorter);
        assert(whole.drop_last() =~= before + seq!['/'] + shorter);
        assert(name.contains(name.last()));
        assert(split_at(before, '/').push(shorter).drop_last() =~= split_at(before, '/'));
        assert(shorter.push(name.last()) =~= name);
    }
}

/// Joining names and taking the path apart again gives the names back.
pub proof fn joining_and_splitting_agree(names: Seq<Seq<char>>)
    requires
        forall|k: int| 0 <= k < names.len() ==> is_component_name(#[trigger] names[k]),
    ensures
        components_of(joined(names)) == names,
    decreases names.len(),
{
    if names.len() == 0 {
        let pieces = split_at(Seq::<char>::empty(), '/');
        assert(resolve_pieces(pieces.drop_last()) =~= Seq::<Seq<char>>::empty());
        assert(pieces.last().len() == 0);
        assert(resolve_pieces(pieces) =~= names);
    } else {
        let shorter = names.drop_last();
        assert forall|k: int| 0 <= k < shorter.len() implies is_component_name(
            #[trigger] shorter[k],
        ) by {
            assert(shorter[k] == names[k]);
        }
        joining_and_splitting_agree(shorter);
        assert(is_component_name(names[names.len() - 1]));
        lemma_split_one_more(joined(shorter), names.last());
        let before = split_at(joined(shorter), '/');
        assert(before.push(names.last()).drop_last() =~= before);
        assert(shorter.push(names.last()) =~= names);
    }
}

/// A path that was resolved stays as it is when it is resolved again.
pub proof fn resolving_a_resolved_path_changes_nothing(path: Seq<char>)
    ensures
        components_of(joined(components_of(path))) == components_of(path),
{
    lemma_components_are_names(path);
    joining_and_splitting_agree(components_of(path));
}

// Paths that are not resolved: `..` stays a part of its own.

/// Whether piece `k` of a path counts as a part.
pub open spec fn is_part(pieces: Seq<Seq<char>>, absolute: bool, k: int) -> bool {
    pieces[k].len() > 0 && (pieces[k] == "."@ ==> k == 0 && !absolute)
}

/// The parts among the first `n` pieces.
pub open spec fn parts_upto(pieces: Seq<Seq<char>>, absolute: bool, n: nat) -> Seq<Seq<char>>
    decreases n,
{
    if n == 0 {
        Seq::empty()
    } else {
        let before = parts_upto(pieces, absolute, (n - 1) as nat);
        if is_part(pieces, absolute, n - 1) {
            before.push(pieces[n - 1])
        } else {
            before
        }
    }
}

pub open spec fn is_absolute(path: Seq<char>) -> bool {
    path.len() > 0 && path[0] == '/'
}

/// The parts of a path.
pub open spec fn parts_of(path: Seq<char>) -> Seq<Seq<char>> {
    let pieces = split_at(path, '/');
    parts_upto(pieces, is_absolute(path), pieces.len())
}

/// Whether a part names an entry, rather than being `.` or `..`.
pub open spec fn is_normal(part: Seq<char>) -> bool {
    part != "."@ && part != ".."@
}

/// The parts that name entries.
pub open spec fn normal_parts(parts: Seq<Seq<char>>) -> Seq<Seq<char>>
    decreases parts.len(),
{
    if parts.len() == 0 {
        Seq::empty()
    } else {
        let before = normal_parts(parts.drop_last());
        if is_normal(parts.last()) {
            before.push(parts.last())
        } else {
            before
        }
    }
}

/// Whether `path` lies at or under `root`, part by part. Every path lies under the
/// empty one.
pub open spec fn is_under(root: Seq<char>, path: Seq<char>) -> bool {
    &&& parts_of(root).is_prefix_of(parts_of(path))
    &&& is_absolute(root) == is_absolute(path) || (!is_absolute(root) && parts_of(root).len()
        == 0)
}

/// Whether `path` lies below `root` and leads straight down from it, without a
/// `..` on the way.
pub open spec fn lies_in(root: Seq<char>, path: Seq<char>) -> bool {
    &&& is_under(root, path)
    &&& parts_of(root).len() < parts_of(path).len()
    &&& forall|k: int|
        parts_of(root).len() <= k < parts_of(path).len() ==> #[trigger] parts_of(path)[k] != ".."@
}

/// What is left of `path` behind `root`; all of it where it is not under it.
pub open spec fn parts_below(root: Seq<char>, path: Seq<char>) -> Seq<Seq<char>> {
    if is_under(root, path) {
        parts_of(path).skip(parts_of(root).len() as int)
    } else {
        parts_of(path)
    }
}

/// The directories between `root` and the entry that `path` names.
pub open spec fn dirs_below(root: Seq<char>, path: Seq<char>) -> Seq<Seq<char>> {
    let below = parts_below(root, path);
    if below.len() == 0 {
        Seq::empty()
    } else {
        normal_parts(below.drop_last())
    }
}

/// The name of the entry that a path ends in, if it ends in one.
pub open spec fn file_name_of(path: Seq<char>) -> Option<Seq<char>> {
    let parts = parts_of(path);
    if parts.len() > 0 && is_normal(parts.last()) {
        Some(parts.last())
    } else {
        None
    }
}

/// A path cut into parts.
pub(crate) struct Parts {
    pub absolute: bool,
    pub parts: Vec<String>,
}

/// Cut a path into its parts.
pub(crate) fn path_parts(path: &str) -> (r: Parts)
    ensures
        r.absolute == is_absolute(path@),
        texts(r.parts@) == parts_of(path@),
{
    let chars = chars_of(path);
    let absolute = chars.len() > 0 && chars[0] == '/';
    let pieces = split_text(path, '/');
    let ghost all = texts(pieces@);
    let mut parts: Vec<String> = Vec::new();
    let mut k: usize = 0;
    while k < pieces.len()
        invariant
            0 <= k <= pieces.len(),
            all == texts(pieces@),
            texts(parts@) =~= parts_upto(all, absolute, k as nat),
        decreases pieces.len() - k,
    {
        let piece = &pieces[k];
        assert(all[k as int] == piece@);
        let dot = same_text(piece.as_str(), ".");
        if !piece.as_str().is_empty() && (!dot || (k == 0 && !absolute)) {
            let ghost before = texts(parts@);
            parts.push(piece.clone());
            assert(texts(parts@) =~= before.push(piece@));
        }
        k = k + 1;
    }
    Parts { absolute, parts }
}

/// Whether the second sequence of names begins with the first.
fn begins_with(root: &Vec<String>, path: &Vec<String>) -> (r: bool)
    ensures
        r == texts(root@).is_prefix_of(texts(path@)),
{
    if root.len() > path.len() {
        return false;
    }
    let mut k: usize = 0;
    while k < root.len()
        invariant
            0 <= k <= root.len() <= path.len(),
            forall|j: int| 0 <= j < k ==> #[trigger] texts(root@)[j] == texts(path@)[j],
        decreases root.len() - k,
    {
        if !same_text(root[k].as_str(), path[k].as_str()) {
            assert(texts(root@)[k as int] != texts(path@)[k as int]);
            assert(!texts(root@).is_prefix_of(texts(path@))) by {
                if texts(root@).is_prefix_of(texts(path@)) {
                    assert(texts(path@).subrange(0, root.len() as int)[k as int] == texts(
                        path@,
                    )[k as int]);
                }
            }
            return false;
        }
        k = k + 1;
    }
    assert(texts(root@) =~= texts(path@).subrange(0, root.len() as int));
    true
}

/// Whether `path` lies at or under `root`, part by part.
pub fn path_is_under(root: &str, path: &str) -> (r: bool)
    ensures
        r == is_under(root@, path@),
{
    let r = path_parts(root);
    let p = path_parts(path);
    holds(&r, &p)
}

/// Whether a path that is cut into parts lies at or under another.
fn holds(root: &Parts, path: &Parts) -> (r: bool)
    ensures
        r == (texts(root.parts@).is_prefix_of(texts(path.parts@)) && (root.absolute
            == path.absolute || (!root.absolute && root.parts@.len() == 0))),
{
    begins_with(&root.parts, &path.parts) && (root.absolute == path.absolute || (!root.absolute
        && root.parts.len() == 0))
}

/// The directories between `root` and the entry that `path` names.
pub(crate) fn dirs_between(root: &str, path: &str) -> (r: Vec<String>)
    ensures
        texts(r@) == dirs_below(root@, path@),
        r.len() <= parts_of(path@).len(),
{
    let top = path_parts(root);
    let whole = path_parts(path);
    let under = holds(&top, &whole);
    let start: usize = if under {
        top.parts.len()
    } else {
        0
    };
    let ghost all = texts(whole.parts@);
    let ghost below = parts_below(root@, path@);
    proof {
        assert(all.skip(0) =~= all);
        assert(below =~= all.skip(start as int));
    }
    let mut out: Vec<String> = Vec::new();
    if start >= whole.parts.len() {
        return out;
    }
    let end: usize = whole.parts.len() - 1;
    let mut k: usize = start;
    assert(all.subrange(start as int, start as int) =~= Seq::<Seq<char>>::empty());
    while k < end
        invariant
            start <= k <= end < whole.parts.len(),
            all == texts(whole.parts@),
            texts(out@) =~= normal_parts(all.subrange(start as int, k as int)),
            out.len() <= k - start,
        decreases end - k,
    {
        let part = &whole.parts[k];
        proof {
            assert(all.subrange(start as int, k + 1).drop_last() =~= all.subrange(
                start as int,
                k as int,
            ));
            assert(all.subrange(start as int, k + 1).last() == part@);
        }
        if !same_text(part.as_str(), ".") && !same_text(part.as_str(), "..") {
            let ghost before = texts(out@);
            out.push(part.clone());
            assert(texts(out@) =~= before.push(part@));
        }
        k = k + 1;
    }
    assert(below.drop_last() =~= all.subrange(start as int, end as int));
    out
}

/// The name of the entry that a path ends in, if it ends in one.
pub(crate) fn file_name(path: &str) -> (r: Option<String>)
    ensures
        crate::text::text_view(r) == file_name_of(path@),
{
    let mut whole = path_parts(path);
    let ghost all = texts(whole.parts@);
    match whole.parts.pop() {
        Some(last) => {
            assert(all.last() == last@);
            if same_text(last.as_str(), ".") || same_text(last.as_str(), "..") {
                None
            } else {
                Some(last)
            }
        },
        None => None,
    }
}

/// What a path is compared by: whether it is absolute, and its parts.
pub struct PathKey {
    pub absolute: bool,
    pub parts: Seq<Seq<char>>,
}

/// What a path is compared by.
pub open spec fn path_key(path: Seq<char>) -> PathKey {
    PathKey { absolute: is_absolute(path), parts: parts_of(path) }
}

/// Whether two paths are the same, part by part.
pub open spec fn same_path(a: Seq<char>, b: Seq<char>) -> bool {
    path_key(a) == path_key(b)
}

/// Whether two paths are the same, part by part.
pub(crate) fn paths_equal(a: &str, b: &str) -> (r: bool)
    ensures
        r == same_path(a@, b@),
{
    let x = path_parts(a);
    let y = path_parts(b);
    if x.absolute != y.absolute || x.parts.len() != y.parts.len() {
        assert(parts_of(a@).len() == x.parts.len());
        assert(parts_of(b@).len() == y.parts.len());
        return false;
    }
    let mut k: usize = 0;
    while k < x.parts.len()
        invariant
            0 <= k <= x.parts.len(),
            x.parts.len() == y.parts.len(),
            texts(x.parts@) == parts_of(a@),
            texts(y.parts@) == parts_of(b@),
            forall|j: int| 0 <= j < k ==> #[trigger] parts_of(a@)[j] == parts_of(b@)[j],
        decreases x.parts.len() - k,
    {
        assert(parts_of(a@)[k as int] == x.parts@[k as int]@);
        assert(parts_of(b@)[k as int] == y.parts@[k as int]@);
        if !same_text(x.parts[k].as_str(), y.parts[k].as_str()) {
            return false;
        }
        k = k + 1;
    }
    assert(parts_of(a@) =~= parts_of(b@));
    true
}

/// The components of a path are what its parts name.
proof fn lemma_parts_resolve(pieces: Seq<Seq<char>>, absolute: bool, n: nat)
    requires
        n <= pieces.len(),
    ensures
        resolve_pieces(pieces.take(n as int)) == resolve_pieces(parts_upto(pieces, absolute, n)),
        forall|k: int|
            0 <= k < parts_upto(pieces, absolute, n).len() ==> (#[trigger] parts_upto(
                pieces,
                absolute,
                n,
            )[k]).len() > 0,
    decreases n,
{
    if n == 0 {
        assert(pieces.take(0) =~= Seq::<Seq<char>>::empty());
    } else {
        lemma_parts_resolve(pieces, absolute, (n - 1) as nat);
        let before = parts_upto(pieces, absolute, (n - 1) as nat);
        assert(pieces.take(n as int).drop_last() =~= pieces.take(n - 1));
        assert(before.push(pieces[n - 1]).drop_last() =~= before);
    }
}

/// Parts that go straight down add their names.
proof fn lemma_resolve_straight(parts: Seq<Seq<char>>, m: int, n: int)
    requires
        0 <= m <= n <= parts.len(),
        forall|k: int| m <= k < n ==> (#[trigger] parts[k]).len() > 0 && parts[k] != ".."@,
    ensures
        resolve_pieces(parts.take(n)) == resolve_pieces(parts.take(m)) + normal_parts(
            parts.subrange(m, n),
        ),
    decreases n,
{
    if m == n {
        assert(parts.subrange(m, n) =~= Seq::<Seq<char>>::empty());
        assert(resolve_pieces(parts.take(m)) =~= resolve_pieces(parts.take(m)) + normal_parts(
            parts.subrange(m, n),
        ));
    } else {
        lemma_resolve_straight(parts, m, n - 1);
        assert(parts.take(n).drop_last() =~= parts.take(n - 1));
        assert(parts.subrange(m, n).drop_last() =~= parts.subrange(m, n - 1));
        assert(parts.take(n).last() == parts[n - 1]);
        assert(parts.subrange(m, n).last() == parts[n - 1]);
        assert(resolve_pieces(parts.take(n)) =~= resolve_pieces(parts.take(m)) + normal_parts(
            parts.subrange(m, n),
        ));
    }
}

/// Whichever root a path lies in, the directories from the top of the tree down to
/// it are the same.
pub proof fn every_root_names_a_path_alike(root: Seq<char>, other: Seq<char>, path: Seq<char>)
    requires
        lies_in(root, path),
        lies_in(other, path),
    ensures
        components_of(root) + dirs_below(root, path) == components_of(other) + dirs_below(
            other,
            path,
        ),
{
    lemma_dirs_from_top(root, path);
    lemma_dirs_from_top(other, path);
}

/// The directories from the top of the tree down to a path.
proof fn lemma_dirs_from_top(root: Seq<char>, path: Seq<char>)
    requires
        lies_in(root, path),
    ensures
        components_of(root) + dirs_below(root, path) == resolve_pieces(
            parts_of(path).drop_last(),
        ),
{
    let parts = parts_of(path);
    let top = parts_of(root);
    let m = top.len() as int;
    let n = parts.len() - 1;
    let pieces = split_at(root, '/');
    lemma_parts_resolve(pieces, is_absolute(root), pieces.len());
    assert(pieces.take(pieces.len() as int) =~= pieces);
    let below = split_at(path, '/');
    lemma_parts_resolve(below, is_absolute(path), below.len());
    lemma_resolve_straight(parts, m, n);
    assert(parts.take(m) =~= top);
    assert(parts.take(n) =~= parts.drop_last());
    assert(parts_below(root, path).drop_last() =~= parts.subrange(m, n));
}

/// Whether names can be the components of a path.
pub open spec fn are_names(names: Seq<Seq<char>>) -> bool {
    forall|k: int| 0 <= k < names.len() ==> is_component_name(#[trigger] names[k])
}

/// One more piece behind a path: a name is one more component, `..` takes the last one
/// back, and `.` and a slash with nothing behind it say nothing.
pub proof fn what_a_piece_adds_to_a_path(path: Seq<char>, name: Seq<char>)
    requires
        is_component_name(name),
    ensures
        components_of(path + seq!['/'] + name) == components_of(path).push(name),
        components_of(path + seq!['/'] + ".."@) == (if components_of(path).len() > 0 {
            components_of(path).drop_last()
        } else {
            components_of(path)
        }),
        components_of(path + seq!['/'] + "."@) == components_of(path),
        components_of(path + seq!['/']) == components_of(path),
        components_of(Seq::empty()).len() == 0,
{
    reveal_strlit(".");
    reveal_strlit("..");
    let pieces = split_at(path, '/');
    let nothing = Seq::<char>::empty();
    lemma_split_one_more(path, name);
    lemma_split_one_more(path, ".."@);
    lemma_split_one_more(path, "."@);
    lemma_split_one_more(path, nothing);
    assert(path + seq!['/'] + nothing =~= path + seq!['/']);
    assert(pieces.push(name).drop_last() =~= pieces);
    assert(pieces.push(".."@).drop_last() =~= pieces);
    assert(pieces.push("."@).drop_last() =~= pieces);
    assert(pieces.push(nothing).drop_last() =~= pieces);
    assert(".."@ != "."@) by {
        assert(".."@.len() == 2 && "."@.len() == 1);
    }
    let empty = split_at(nothing, '/');
    assert(resolve_pieces(empty.drop_last()) =~= Seq::<Seq<char>>::empty());
    assert(empty.last().len() == 0);
}

/// The parts of a path made of names are those names; its last one is the name of the
/// entry.
pub proof fn a_path_of_names_has_them_for_parts(names: Seq<Seq<char>>)
    requires
        are_names(names),
    ensures
        parts_of(joined(names)) == names,
        is_absolute(joined(names)) == (names.len() > 0),
        file_name_of(joined(names)) == (if names.len() > 0 {
            Some(names.last())
        } else {
            None
        }),
    decreases names.len(),
{
    lemma_parts_of_names(names);
    if names.len() > 0 {
        assert(is_component_name(names[names.len() - 1]));
    }
}

proof fn lemma_parts_of_names(names: Seq<Seq<char>>)
    requires
        are_names(names),
    ensures
        is_absolute(joined(names)) == (names.len() > 0),
        split_at(joined(names), '/').len() == names.len() + 1,
        parts_upto(split_at(joined(names), '/'), names.len() > 0, names.len() + 1) == names,
        forall|absolute: bool| #[trigger]
            parts_upto(split_at(joined(names), '/'), absolute, names.len() + 1) == names,
    decreases names.len(),
{
    if names.len() == 0 {
        let pieces = split_at(Seq::<char>::empty(), '/');
        assert(joined(names) =~= Seq::<char>::empty());
        assert(pieces[0].len() == 0);
        assert forall|absolute: bool| #[trigger] parts_upto(pieces, absolute, 1) == names by {
            reveal_with_fuel(parts_upto, 2);
            assert(parts_upto(pieces, absolute, 1) =~= names);
        }
    } else {
        let shorter = names.drop_last();
        let name = names.last();
        assert(name == names[names.len() - 1]);
        assert forall|k: int| 0 <= k < shorter.len() implies is_component_name(
            #[trigger] shorter[k],
        ) by {
            assert(shorter[k] == names[k]);
        }
        lemma_parts_of_names(shorter);
        lemma_split_one_more(joined(shorter), name);
        let before = split_at(joined(shorter), '/');
        let pieces = split_at(joined(names), '/');
        assert(pieces == before.push(name));
        if shorter.len() == 0 {
            assert(joined(shorter) =~= Seq::<char>::empty());
            assert(joined(names)[0] == '/');
        } else {
            assert(joined(names)[0] == joined(shorter)[0]);
        }
        assert forall|absolute: bool| #[trigger]
            parts_upto(pieces, absolute, names.len() + 1) == names by {
            lemma_same_parts(before, pieces, absolute, names.len());
            assert(parts_upto(before, absolute, shorter.len() + 1) == shorter);
            assert(pieces[names.len() as int] == name);
            assert(shorter.push(name) =~= names);
        }
    }
}

/// Pieces behind the first `n` make no difference to the parts among those.
proof fn lemma_same_parts(a: Seq<Seq<char>>, b: Seq<Seq<char>>, absolute: bool, n: nat)
    requires
        n <= a.len(),
        n <= b.len(),
        forall|k: int| 0 <= k < n ==> a[k] == #[trigger] b[k],
    ensures
        parts_upto(a, absolute, n) == parts_upto(b, absolute, n),
    decreases n,
{
    if n > 0 {
        lemma_same_parts(a, b, absolute, (n - 1) as nat);
        assert(a[n - 1] == b[n - 1]);
    }
}

/// Of two paths made of names the one lies under the other where its names begin with
/// those of the other, and the directories between are the names between.
pub proof fn what_lies_between_two_paths(top: Seq<Seq<char>>, names: Seq<Seq<char>>)
    requires
        are_names(top),
        are_names(names),
        top.len() > 0,
    ensures
        is_under(joined(top), joined(names)) == top.is_prefix_of(names),
        top.is_prefix_of(names) && top.len() < names.len() ==> {
            &&& dirs_below(joined(top), joined(names)) == names.subrange(
                top.len() as int,
                names.len() - 1,
            )
            &&& components_of(joined(top)) + dirs_below(joined(top), joined(names)).push(
                names.last(),
            ) == names
            &&& lies_in(joined(top), joined(names))
        },
{
    a_path_of_names_has_them_for_parts(top);
    a_path_of_names_has_them_for_parts(names);
    joining_and_splitting_agree(top);
    if top.is_prefix_of(names) && top.len() < names.len() {
        let below = names.skip(top.len() as int);
        let dirs = names.subrange(top.len() as int, names.len() - 1);
        assert(below.drop_last() =~= dirs);
        assert forall|k: int| 0 <= k < dirs.len() implies is_component_name(#[trigger] dirs[k]) by {
            assert(dirs[k] == names[top.len() + k]);
        }
        lemma_all_normal(dirs);
        assert(top + dirs.push(names.last()) =~= names);
        assert forall|k: int| top.len() <= k < names.len() implies #[trigger] names[k]
            != ".."@ by {
            assert(is_component_name(names[k]));
        }
    }
}

proof fn lemma_all_normal(names: Seq<Seq<char>>)
    requires
        are_names(names),
    ensures
        normal_parts(names) == names,
    decreases names.len(),
{
    if names.len() > 0 {
        let shorter = names.drop_last();
        assert forall|k: int| 0 <= k < shorter.len() implies is_component_name(
            #[trigger] shorter[k],
        ) by {
            assert(shorter[k] == names[k]);
        }
        lemma_all_normal(shorter);
        assert(is_component_name(names[names.len() - 1]));
        assert(shorter.push(names.last()) =~= names);
    }
}

/// Two paths made of names are the same to the watch just where the names are.
pub proof fn paths_are_told_apart_by_their_names(a: Seq<Seq<char>>, b: Seq<Seq<char>>)
    requires
        are_names(a),
        are_names(b),
    ensures
        same_path(joined(a), joined(b)) == (a == b),
{
    a_path_of_names_has_them_for_parts(a);
    a_path_of_names_has_them_for_parts(b);
}

/// A text is cut at every separator and nowhere else: what stands before the first one is
/// the first piece, and what stands behind it is cut in the same way. A text without one is
/// one piece.
pub proof fn a_text_is_cut_at_every_separator(piece: Seq<char>, rest: Seq<char>, sep: char)
    requires
        !piece.contains(sep),
    ensures
        split_at(piece, sep) == seq![piece],
        split_at(piece + seq![sep] + rest, sep) == seq![piece] + split_at(rest, sep),
    decreases piece.len() + rest.len(),
{
    if piece.len() > 0 {
        let less = piece.drop_last();
        assert(piece.contains(piece[piece.len() - 1]));
        assert forall|i: int| 0 <= i < less.len() implies #[trigger] less[i] != sep by {
            assert(piece.contains(piece[i]));
        }
        a_text_is_cut_at_every_separator(less, Seq::empty(), sep);
        let before = seq![less];
        assert(less.push(piece.last()) =~= piece);
        assert(before.drop_last().push(before.last().push(piece.last())) =~= seq![piece]);
    } else {
        assert(piece =~= Seq::<char>::empty());
        assert(split_at(piece, sep) =~= seq![piece]);
    }
    let whole = piece + seq![sep] + rest;
    if rest.len() == 0 {
        assert(whole.drop_last() =~= piece);
        assert(whole.last() == sep);
        assert(split_at(rest, sep) == seq![Seq::<char>::empty()]);
        assert(split_at(whole, sep) == split_at(piece, sep).push(Seq::<char>::empty()));
        assert(seq![piece].push(Seq::<char>::empty()) =~= seq![piece] + seq![
            Seq::<char>::empty(),
        ]);
    } else {
        let less = rest.drop_last();
        a_text_is_cut_at_every_separator(piece, less, sep);
        assert(whole.drop_last() =~= piece + seq![sep] + less);
        assert(whole.last() == rest.last());
        let before = split_at(less, sep);
        lemma_split_nonempty(less, sep);
        let longer = seq![piece] + before;
        if rest.last() == sep {
            assert(longer.push(Seq::<char>::empty()) =~= seq![piece] + before.push(
                Seq::<char>::empty(),
            ));
        } else {
            assert(longer.last() == before.last());
            assert(longer.drop_last() =~= seq![piece] + before.drop_last());
            let last = before.last().push(rest.last());
            assert(longer.drop_last().push(last) =~= seq![piece] + before.drop_last().push(last));
        }
    }
}

} // verus!
