//! Paths as byte strings: components, extensions and extension swaps.
use vstd::prelude::*;
use vstd::string::StringSliceAdditionalSpecFns;

verus! {

/// The byte `/`.
pub const SLASH: u8 = 47;

/// The byte `.`.
pub const DOT: u8 = 46;

/// The index just past the last `b` in `s`, or 0 when `s` holds no `b`.
pub open spec fn after_last(s: Seq<u8>, b: u8) -> int {
    choose|k: int| is_after_last(s, b, k)
}

pub open spec fn is_after_last(s: Seq<u8>, b: u8, k: int) -> bool {
    &&& 0 <= k <= s.len()
    &&& (k == 0 || s[k - 1] == b)
    &&& forall|j: int| k <= j < s.len() ==> s[j] != b
}

proof fn lemma_after_last_unique(s: Seq<u8>, b: u8, k: int)
    requires
        is_after_last(s, b, k),
    ensures
        after_last(s, b) == k,
{
    let c = after_last(s, b);
    assert(is_after_last(s, b, c));
    if c < k {
        assert(s[k - 1] != b);
    } else if c > k {
        assert(s[c - 1] != b);
    }
}

/// The index just past the last `b` in `s`.
pub fn find_after_last(s: &[u8], b: u8) -> (r: usize)
    ensures
        r == after_last(s@, b),
        is_after_last(s@, b, r as int),
{
    let mut k: usize = s.len();
    while k > 0
        invariant
            0 <= k <= s@.len(),
            forall|j: int| k <= j < s@.len() ==> s@[j] != b,
        decreases k,
    {
        if s[k - 1] == b {
            proof {
                lemma_after_last_unique(s@, b, k as int);
            }
            return k;
        }
        k -= 1;
    }
    proof {
        lemma_after_last_unique(s@, b, 0);
    }
    0
}

/// Start of the last component (the file name).
pub open spec fn name_start(path: Seq<u8>) -> int {
    after_last(path, SLASH)
}

/// Index, within the file name, just past the dot that starts the extension.
pub open spec fn dot_in_name(path: Seq<u8>) -> int {
    after_last(path.subrange(name_start(path), path.len() as int), DOT)
}

/// The file name has an extension: a dot that is not its first byte.
pub open spec fn has_extension(path: Seq<u8>) -> bool {
    dot_in_name(path) >= 2
}

/// The bytes after the last dot of the file name, empty when there is none.
pub open spec fn extension(path: Seq<u8>) -> Seq<u8> {
    if has_extension(path) {
        path.subrange(name_start(path) + dot_in_name(path), path.len() as int)
    } else {
        Seq::empty()
    }
}

/// The path without its extension and the dot before it.
pub open spec fn without_extension(path: Seq<u8>) -> Seq<u8> {
    if has_extension(path) {
        path.subrange(0, name_start(path) + dot_in_name(path) - 1)
    } else {
        path
    }
}

/// The path with its extension replaced by `ext` (removed when `ext` is empty).
pub open spec fn with_extension(path: Seq<u8>, ext: Seq<u8>) -> Seq<u8> {
    if ext.len() == 0 {
        without_extension(path)
    } else {
        without_extension(path).push(DOT) + ext
    }
}

/// Some component of `path` (a maximal run without `/`) equals `name`.
pub open spec fn has_component(path: Seq<u8>, name: Seq<u8>) -> bool {
    exists|i: int| is_component_at(path, name, i)
}

pub open spec fn is_component_at(path: Seq<u8>, name: Seq<u8>, i: int) -> bool {
    &&& 0 <= i
    &&& i + name.len() <= path.len()
    &&& path.subrange(i, i + name.len()) == name
    &&& (i == 0 || path[i - 1] == SLASH)
    &&& (i + name.len() == path.len() || path[i + name.len()] == SLASH)
}

/// Where the stem of `path` ends and its extension starts.
fn split_extension(path: &[u8]) -> (r: (usize, usize))
    ensures
        r.0 <= r.1 <= path@.len(),
        path@.subrange(0, r.0 as int) == without_extension(path@),
        path@.subrange(r.1 as int, path@.len() as int) == extension(path@),
{
    let n = find_after_last(path, SLASH);
    assert(path@.len() == path.len());
    let name = vstd::slice::slice_subrange(path, n, path.len());
    let d = find_after_last(name, DOT);
    if d >= 2 {
        (n + d - 1, n + d)
    } else {
        assert(path@.subrange(0, path@.len() as int) =~= path@);
        assert(path@.subrange(path@.len() as int, path@.len() as int) =~= Seq::<u8>::empty());
        (path.len(), path.len())
    }
}

/// The extension of `path`.
pub fn path_extension(path: &[u8]) -> (r: Vec<u8>)
    ensures
        r@ == extension(path@),
{
    let (_, start) = split_extension(path);
    crate::bytes::bytes_copy(vstd::slice::slice_subrange(path, start, path.len()))
}

/// `path` with its extension replaced by `ext`.
pub fn path_with_extension(path: &[u8], ext: &[u8]) -> (r: Vec<u8>)
    ensures
        r@ == with_extension(path@, ext@),
{
    let (stem_end, _) = split_extension(path);
    let mut r = crate::bytes::bytes_copy(vstd::slice::slice_subrange(path, 0, stem_end));
    if ext.len() > 0 {
        r.push(DOT);
        crate::bytes::bytes_extend(&mut r, ext);
    }
    r
}

/// Whether some component of `path` equals `name`.
pub fn path_has_component(path: &[u8], name: &[u8]) -> (r: bool)
    ensures
        r == has_component(path@, name@),
{
    if name.len() > path.len() {
        return false;
    }
    let last = path.len() - name.len();
    let mut i: usize = 0;
    while i <= last
        invariant
            last == path@.len() - name@.len(),
            0 <= i <= last + 1,
            forall|j: int| 0 <= j < i ==> !is_component_at(path@, name@, j),
        decreases last + 1 - i,
    {
        let starts = i == 0 || path[i - 1] == SLASH;
        let ends = i + name.len() == path.len() || path[i + name.len()] == SLASH;
        if starts && ends && crate::bytes::bytes_eq(
            vstd::slice::slice_subrange(path, i, i + name.len()),
            name,
        ) {
            assert(is_component_at(path@, name@, i as int));
            return true;
        }
        if i == last {
            assert(forall|j: int| 0 <= j <= last ==> !is_component_at(path@, name@, j));
            return false;
        }
        i += 1;
    }
    false
}

/// The byte `*`.
pub const STAR: u8 = 42;

/// Path `s` matches glob `p`: `**` stands for any bytes, `*` for any bytes
/// but `/`, and every other byte for itself.
pub open spec fn glob_match(p: Seq<u8>, s: Seq<u8>) -> bool
    decreases p.len() + s.len(),
{
    if p.len() == 0 {
        s.len() == 0
    } else if p.len() >= 2 && p[0] == STAR && p[1] == STAR {
        glob_match(p.subrange(2, p.len() as int), s) || (s.len() > 0 && glob_match(
            p,
            s.subrange(1, s.len() as int),
        ))
    } else if p[0] == STAR {
        glob_match(p.subrange(1, p.len() as int), s) || (s.len() > 0 && s[0] != SLASH
            && glob_match(p, s.subrange(1, s.len() as int)))
    } else {
        s.len() > 0 && p[0] == s[0] && glob_match(
            p.subrange(1, p.len() as int),
            s.subrange(1, s.len() as int),
        )
    }
}

/// Whether path `s` matches glob `p`.
pub fn glob_matches(p: &[u8], s: &[u8]) -> (r: bool)
    ensures
        r == glob_match(p@, s@),
    decreases p@.len() + s@.len(),
{
    assert(p@.len() == p.len() && s@.len() == s.len());
    if p.len() == 0 {
        return s.len() == 0;
    }
    if p.len() >= 2 && p[0] == STAR && p[1] == STAR {
        if glob_matches(vstd::slice::slice_subrange(p, 2, p.len()), s) {
            return true;
        }
        return s.len() > 0 && glob_matches(p, vstd::slice::slice_subrange(s, 1, s.len()));
    }
    if p[0] == STAR {
        if glob_matches(vstd::slice::slice_subrange(p, 1, p.len()), s) {
            return true;
        }
        return s.len() > 0 && s[0] != SLASH && glob_matches(
            p,
            vstd::slice::slice_subrange(s, 1, s.len()),
        );
    }
    s.len() > 0 && p[0] == s[0] && glob_matches(
        vstd::slice::slice_subrange(p, 1, p.len()),
        vstd::slice::slice_subrange(s, 1, s.len()),
    )
}

/// A path of the project, held as its bytes.
#[derive(Clone, Debug, PartialEq, Eq)]
pub struct ProjectPath {
    path: Vec<u8>,
}

impl ProjectPath {
    pub closed spec fn bytes(&self) -> Seq<u8> {
        self.path@
    }

    pub fn from_bytes(path: Vec<u8>) -> (r: ProjectPath)
        ensures
            r.bytes() == path@,
    {
        ProjectPath { path }
    }

    pub fn from_str(path: &str) -> (r: ProjectPath)
        ensures
            r.bytes() == path.spec_bytes(),
    {
        ProjectPath { path: crate::bytes::bytes_copy(path.as_bytes()) }
    }

    pub fn as_bytes(&self) -> (r: &[u8])
        ensures
            r@ == self.bytes(),
    {
        self.path.as_slice()
    }
}

} // verus!
