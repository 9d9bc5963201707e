//! The data model: asset types and flags, assets, dependencies,
//! invalidations, diagnostics and the transformer pipeline map.
use vstd::prelude::*;
use crate::bytes::{bytes_copy, bytes_eq};
use crate::path::{extension, path_extension};

verus! {

/// Kind of an asset, derived from its extension and free to change along a
/// transformer chain.
#[derive(Clone, Copy, Debug, PartialEq, Eq, Structural)]
pub enum AssetType {
    Js,
    Jsx,
    Ts,
    Tsx,
    Css,
    Html,
    Json,
    Unknown,
}

pub open spec fn ext_js() -> Seq<u8> {
    seq![106u8, 115u8]
}

pub open spec fn ext_jsx() -> Seq<u8> {
    seq![106u8, 115u8, 120u8]
}

pub open spec fn ext_ts() -> Seq<u8> {
    seq![116u8, 115u8]
}

pub open spec fn ext_tsx() -> Seq<u8> {
    seq![116u8, 115u8, 120u8]
}

pub open spec fn ext_css() -> Seq<u8> {
    seq![99u8, 115u8, 115u8]
}

pub open spec fn ext_html() -> Seq<u8> {
    seq![104u8, 116u8, 109u8, 108u8]
}

pub open spec fn ext_json() -> Seq<u8> {
    seq![106u8, 115u8, 111u8, 110u8]
}

pub open spec fn ext_unknown() -> Seq<u8> {
    seq![117u8, 110u8, 107u8, 110u8, 111u8, 119u8, 110u8]
}

/// The asset type that an extension names; matching is case-sensitive.
pub open spec fn type_of_extension(ext: Seq<u8>) -> AssetType {
    if ext == ext_js() {
        AssetType::Js
    } else if ext == ext_jsx() {
        AssetType::Jsx
    } else if ext == ext_ts() {
        AssetType::Ts
    } else if ext == ext_tsx() {
        AssetType::Tsx
    } else if ext == ext_css() {
        AssetType::Css
    } else if ext == ext_html() {
        AssetType::Html
    } else if ext == ext_json() {
        AssetType::Json
    } else {
        AssetType::Unknown
    }
}

/// The extension written for an asset type.
pub open spec fn extension_of_type(t: AssetType) -> Seq<u8> {
    match t {
        AssetType::Js => ext_js(),
        AssetType::Jsx => ext_jsx(),
        AssetType::Ts => ext_ts(),
        AssetType::Tsx => ext_tsx(),
        AssetType::Css => ext_css(),
        AssetType::Html => ext_html(),
        AssetType::Json => ext_json(),
        AssetType::Unknown => ext_unknown(),
    }
}

impl AssetType {
    pub fn from_extension(ext: &[u8]) -> (r: AssetType)
        ensures
            r == type_of_extension(ext@),
    {
        if bytes_eq(ext, vec![106u8, 115u8].as_slice()) {
            AssetType::Js
        } else if bytes_eq(ext, vec![106u8, 115u8, 120u8].as_slice()) {
            AssetType::Jsx
        } else if bytes_eq(ext, vec![116u8, 115u8].as_slice()) {
            AssetType::Ts
        } else if bytes_eq(ext, vec![116u8, 115u8, 120u8].as_slice()) {
            AssetType::Tsx
        } else if bytes_eq(ext, vec![99u8, 115u8, 115u8].as_slice()) {
            AssetType::Css
        } else if bytes_eq(ext, vec![104u8, 116u8, 109u8, 108u8].as_slice()) {
            AssetType::Html
        } else if bytes_eq(ext, vec![106u8, 115u8, 111u8, 110u8].as_slice()) {
            AssetType::Json
        } else {
            AssetType::Unknown
        }
    }

    /// The type of the file at `path`, from its extension.
    pub fn from_path(path: &[u8]) -> (r: AssetType)
        ensures
            r == type_of_extension(extension(path@)),
    {
        let ext = path_extension(path);
        AssetType::from_extension(ext.as_slice())
    }

    pub fn extension(&self) -> (r: Vec<u8>)
        ensures
            r@ == extension_of_type(*self),
    {
        match self {
            AssetType::Js => vec![106u8, 115u8],
            AssetType::Jsx => vec![106u8, 115u8, 120u8],
            AssetType::Ts => vec![116u8, 115u8],
            AssetType::Tsx => vec![116u8, 115u8, 120u8],
            AssetType::Css => vec![99u8, 115u8, 115u8],
            AssetType::Html => vec![104u8, 116u8, 109u8, 108u8],
            AssetType::Json => vec![106u8, 115u8, 111u8, 110u8],
            AssetType::Unknown => vec![117u8, 110u8, 107u8, 110u8, 111u8, 119u8, 110u8],
        }
    }
}

/// Flag: no component of the asset's path is `node_modules`.
pub const IS_SOURCE: u32 = 1;

/// Flag: the asset has side effects.
pub const SIDE_EFFECTS: u32 = 2;

/// Flag: the asset may be split across bundles.
pub const IS_BUNDLE_SPLITTABLE: u32 = 4;

/// Whether `flag` is set in `flags`.
pub open spec fn has_flag(flags: u32, flag: u32) -> bool {
    flags & flag != 0
}

#[derive(Clone, Copy, Debug, PartialEq, Eq, Structural)]
pub struct AssetStats {
    pub size: u32,
    pub time: u32,
}

/// One produced artifact.
#[derive(Clone, Debug, PartialEq, Eq)]
pub struct Asset {
    pub file_path: Vec<u8>,
    /// Interned handle of the asset's environment.
    pub env: u32,
    pub pipeline: Option<Vec<u8>>,
    pub asset_type: AssetType,
    pub content_key: u64,
    pub output_hash: u64,
    pub flags: u32,
    pub stats: AssetStats,
    pub unique_key: Option<Vec<u8>>,
}

impl Asset {
    pub fn is_source(&self) -> (r: bool)
        ensures
            r == has_flag(self.flags, IS_SOURCE),
    {
        self.flags & IS_SOURCE != 0
    }

    pub fn has_side_effects(&self) -> (r: bool)
        ensures
            r == has_flag(self.flags, SIDE_EFFECTS),
    {
        self.flags & SIDE_EFFECTS != 0
    }

    pub fn is_bundle_splittable(&self) -> (r: bool)
        ensures
            r == has_flag(self.flags, IS_BUNDLE_SPLITTABLE),
    {
        self.flags & IS_BUNDLE_SPLITTABLE != 0
    }
}

/// How soon a dependency is needed.
#[derive(Clone, Copy, Debug, PartialEq, Eq, Structural)]
pub enum Priority {
    Sync,
    Parallel,
    Lazy,
}

/// A reference from an asset to another source, yet to be resolved.
#[derive(Clone, Debug, PartialEq, Eq)]
pub struct Dependency {
    pub specifier: Vec<u8>,
    /// Interned handle of the environment the target is built for.
    pub env: u32,
    pub priority: Priority,
    pub pipeline: Option<Vec<u8>>,
}

/// A condition under which a cached request result goes stale.
#[derive(Clone, Debug, PartialEq, Eq)]
pub enum Invalidation {
    InvalidateOnFileUpdate(Vec<u8>),
    InvalidateOnFileCreate(Vec<u8>),
    InvalidateOnFileDelete(Vec<u8>),
    InvalidateOnEnvChange(Vec<u8>),
    InvalidateOnStartup,
}

#[derive(Clone, Copy, Debug, PartialEq, Eq, Structural)]
pub enum FileEventKind {
    Create,
    Update,
    Delete,
}

/// A change on disk reported at the start of a build.
#[derive(Clone, Debug, PartialEq, Eq)]
pub struct FileEvent {
    pub path: Vec<u8>,
    pub kind: FileEventKind,
}

/// Who raised a diagnostic.
#[derive(Clone, Copy, Debug, PartialEq, Eq, Structural)]
pub enum DiagnosticKind {
    /// A transformer or resolver rejected its input.
    Plugin,
    /// A file could not be read.
    Io,
    /// A transformer chain kept changing the asset's type.
    PipelineRestartLimit,
    /// The asset graph outgrew the number of nodes it can index.
    GraphLimit,
}

/// A user-facing error.
#[derive(Clone, Debug, PartialEq, Eq)]
pub struct Diagnostic {
    pub kind: DiagnosticKind,
    pub message: Vec<u8>,
    pub file_path: Option<Vec<u8>>,
}

/// A transformer plugin, by identifier.
#[derive(Clone, Copy, Debug, PartialEq, Eq, Structural)]
pub struct PluginNode {
    pub id: u32,
}

/// The transformer chain configured for an extension and an optional named
/// pipeline.
#[derive(Clone, Debug, PartialEq, Eq)]
pub struct PipelineEntry {
    pub extension: Vec<u8>,
    pub pipeline: Option<Vec<u8>>,
    pub chain: Vec<PluginNode>,
}

/// The bytes of an optional byte string.
pub open spec fn opt_bytes(o: Option<Vec<u8>>) -> Option<Seq<u8>> {
    match o {
        Some(v) => Some(v@),
        None => None,
    }
}

pub fn opt_bytes_eq(a: &Option<Vec<u8>>, b: &Option<Vec<u8>>) -> (r: bool)
    ensures
        r == (opt_bytes(*a) == opt_bytes(*b)),
{
    match (a, b) {
        (Some(x), Some(y)) => bytes_eq(x.as_slice(), y.as_slice()),
        (None, None) => true,
        _ => false,
    }
}

pub fn opt_bytes_copy(a: &Option<Vec<u8>>) -> (r: Option<Vec<u8>>)
    ensures
        opt_bytes(r) == opt_bytes(*a),
{
    match a {
        Some(x) => Some(bytes_copy(x.as_slice())),
        None => None,
    }
}

pub open spec fn entry_matches(e: PipelineEntry, ext: Seq<u8>, pipeline: Option<Seq<u8>>) -> bool {
    e.extension@ == ext && opt_bytes(e.pipeline) == pipeline
}

pub open spec fn is_first_match(
    entries: Seq<PipelineEntry>,
    ext: Seq<u8>,
    pipeline: Option<Seq<u8>>,
    i: int,
) -> bool {
    &&& 0 <= i < entries.len()
    &&& entry_matches(entries[i], ext, pipeline)
    &&& forall|j: int| 0 <= j < i ==> !entry_matches(entries[j], ext, pipeline)
}

/// The chain of the first entry for `(ext, pipeline)`, if there is one.
pub open spec fn lookup_chain(entries: Seq<PipelineEntry>, ext: Seq<u8>, pipeline: Option<Seq<u8>>) -> Option<
    Seq<PluginNode>,
> {
    if exists|i: int| is_first_match(entries, ext, pipeline, i) {
        Some(entries[choose|i: int| is_first_match(entries, ext, pipeline, i)].chain@)
    } else {
        None
    }
}

/// The chain for a file: the entry for its extension and pipeline; for a
/// named pipeline, unless `named_only`, else the unnamed entry for its
/// extension; else the empty chain, which passes an asset through.
pub open spec fn chain_for(
    entries: Seq<PipelineEntry>,
    path: Seq<u8>,
    pipeline: Option<Seq<u8>>,
    named_only: bool,
) -> Seq<PluginNode> {
    let ext = extension(path);
    match lookup_chain(entries, ext, pipeline) {
        Some(c) => c,
        None => if pipeline is Some && !named_only {
            match lookup_chain(entries, ext, None) {
                Some(c) => c,
                None => Seq::empty(),
            }
        } else {
            Seq::empty()
        },
    }
}

/// Lookup from extension and optional named pipeline to a transformer chain.
#[derive(Clone, Debug, PartialEq, Eq)]
pub struct PipelineMap {
    pub entries: Vec<PipelineEntry>,
}

pub fn copy_chain(c: &Vec<PluginNode>) -> (r: Vec<PluginNode>)
    ensures
        r@ == c@,
{
    let mut r: Vec<PluginNode> = Vec::new();
    let mut i: usize = 0;
    while i < c.len()
        invariant
            0 <= i <= c@.len(),
            r@ == c@.subrange(0, i as int),
        decreases c@.len() - i,
    {
        r.push(c[i]);
        i += 1;
        assert(r@ =~= c@.subrange(0, i as int));
    }
    assert(c@.subrange(0, c@.len() as int) =~= c@);
    r
}

/// Whether two chains list the same plugins in the same order.
pub fn chains_equal(a: &Vec<PluginNode>, b: &Vec<PluginNode>) -> (r: bool)
    ensures
        r == (a@ == b@),
{
    if a.len() != b.len() {
        return false;
    }
    let mut i: usize = 0;
    while i < a.len()
        invariant
            a@.len() == b@.len(),
            0 <= i <= a@.len(),
            forall|j: int| 0 <= j < i ==> a@[j] == b@[j],
        decreases a@.len() - i,
    {
        if a[i] != b[i] {
            return false;
        }
        i += 1;
    }
    assert(a@ =~= b@);
    true
}

impl PipelineMap {
    fn find(&self, ext: &[u8], pipeline: &Option<Vec<u8>>) -> (r: Option<usize>)
        ensures
            match r {
                Some(i) => is_first_match(self.entries@, ext@, opt_bytes(*pipeline), i as int),
                None => !exists|i: int| is_first_match(self.entries@, ext@, opt_bytes(*pipeline), i),
            },
    {
        let mut i: usize = 0;
        while i < self.entries.len()
            invariant
                0 <= i <= self.entries@.len(),
                forall|j: int|
                    0 <= j < i ==> !entry_matches(self.entries@[j], ext@, opt_bytes(*pipeline)),
            decreases self.entries@.len() - i,
        {
            let e = &self.entries[i];
            if bytes_eq(e.extension.as_slice(), ext) && opt_bytes_eq(&e.pipeline, pipeline) {
                return Some(i);
            }
            i += 1;
        }
        None
    }

    proof fn lemma_first_match(&self, ext: Seq<u8>, pipeline: Option<Seq<u8>>, i: int)
        requires
            is_first_match(self.entries@, ext, pipeline, i),
        ensures
            lookup_chain(self.entries@, ext, pipeline) == Some(self.entries@[i].chain@),
    {
        let k = choose|k: int| is_first_match(self.entries@, ext, pipeline, k);
        assert(is_first_match(self.entries@, ext, pipeline, k));
        if k < i {
            assert(!entry_matches(self.entries@[k], ext, pipeline));
        } else if k > i {
            assert(!entry_matches(self.entries@[i], ext, pipeline));
        }
    }

    /// The transformer chain for the file at `path` in `pipeline`.
    pub fn get(&self, path: &[u8], pipeline: &Option<Vec<u8>>, named_only: bool) -> (r: Vec<PluginNode>)
        ensures
            r@ == chain_for(self.entries@, path@, opt_bytes(*pipeline), named_only),
    {
        let ext = path_extension(path);
        match self.find(ext.as_slice(), pipeline) {
            Some(i) => {
                proof {
                    self.lemma_first_match(ext@, opt_bytes(*pipeline), i as int);
                }
                copy_chain(&self.entries[i].chain)
            },
            None => {
                if pipeline.is_some() && !named_only {
                    match self.find(ext.as_slice(), &None) {
                        Some(i) => {
                            proof {
                                self.lemma_first_match(ext@, None, i as int);
                            }
                            copy_chain(&self.entries[i].chain)
                        },
                        None => Vec::new(),
                    }
                } else {
                    Vec::new()
                }
            },
        }
    }
}

} // verus!
