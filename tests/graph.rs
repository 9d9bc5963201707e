use std::cell::RefCell;
use std::collections::HashMap;

use parcel_build::asset_graph::{build, Parcel, Resolution, Resolver};
use parcel_build::asset_request::{
    AssetRequest, AssetRequestResult, Cache, FileSystem, Transformer, TransformerResult,
};
use parcel_build::request_tracker::RequestTracker;
use parcel_build::types::{
    Asset, AssetType, Dependency, Diagnostic, DiagnosticKind, FileEvent, FileEventKind,
    Invalidation, PipelineEntry, PipelineMap, PluginNode, Priority,
};

struct Files(HashMap<Vec<u8>, Vec<u8>>);

impl FileSystem for Files {
    fn read(&self, path: &[u8]) -> Option<Vec<u8>> {
        self.0.get(path).cloned()
    }
}

#[derive(Default)]
struct Blobs(Vec<(Vec<u8>, Vec<u8>)>);

impl Cache for Blobs {
    fn set(&mut self, key: Vec<u8>, bytes: Vec<u8>) {
        self.0.push((key, bytes));
    }
}

struct SameName;

impl Resolver for SameName {
    fn resolve(
        &self,
        dependency: &Dependency,
        _from: &Option<Vec<u8>>,
    ) -> Result<Resolution, Vec<Diagnostic>> {
        Ok(Resolution {
            file_path: dependency.specifier.clone(),
            env: dependency.env,
            pipeline: None,
            side_effects: false,
        })
    }
}

/// Plugin 1 declares a dependency on `b.js` for `a.js`; plugin 2 fails.
struct Plugins {
    runs: RefCell<Vec<Vec<u8>>>,
}

impl Transformer for Plugins {
    fn transform(
        &self,
        plugin: &PluginNode,
        asset: Asset,
        code: Vec<u8>,
    ) -> Result<TransformerResult, Vec<Diagnostic>> {
        self.runs.borrow_mut().push(asset.file_path.clone());
        if plugin.id == 2 {
            return Err(vec![Diagnostic {
                kind: DiagnosticKind::Plugin,
                message: b"syntax error".to_vec(),
                file_path: Some(asset.file_path.clone()),
            }]);
        }
        let dependencies = if asset.file_path == b"a.js".to_vec() {
            vec![Dependency {
                specifier: b"b.js".to_vec(),
                env: asset.env,
                priority: Priority::Sync,
                pipeline: None,
            }]
        } else {
            vec![]
        };
        Ok(TransformerResult { asset, code, dependencies, invalidations: vec![] })
    }
}

fn files(list: &[(&str, &str)]) -> Files {
    Files(list.iter().map(|(p, c)| (p.as_bytes().to_vec(), c.as_bytes().to_vec())).collect())
}

fn js_map(ids: &[u32]) -> PipelineMap {
    PipelineMap {
        entries: vec![PipelineEntry {
            extension: b"js".to_vec(),
            pipeline: None,
            chain: ids.iter().map(|id| PluginNode { id: *id }).collect(),
        }],
    }
}

#[test]
fn single_js_entry_without_transforms() {
    let fs = files(&[("a.js", "console.log(1)")]);
    let mut cache = Blobs::default();
    let plugins = Plugins { runs: RefCell::new(vec![]) };
    let g = build(vec![b"a.js".to_vec()], 5, js_map(&[]), &plugins, &SameName, &fs, &mut cache)
        .unwrap();
    assert_eq!(g.nodes.len(), 1);
    assert_eq!(g.entries, vec![0]);
    assert!(g.edges.is_empty());
    let asset = &g.nodes[0].result.asset;
    assert_eq!(asset.file_path, b"a.js".to_vec());
    assert_eq!(asset.asset_type, AssetType::Js);
    assert!(asset.is_source());
    assert_eq!(asset.output_hash, xxhash_rust::xxh3::xxh3_64(b"console.log(1)"));
    assert_eq!(asset.stats.size, 14);
    assert!(g.nodes[0].result.dependencies.is_empty());
    assert_eq!(cache.0.len(), 1);
    assert_eq!(cache.0[0].0, format!("{:016x}", asset.content_key).into_bytes());
    assert_eq!(cache.0[0].1, b"console.log(1)".to_vec());
}

#[test]
fn node_modules_entry_is_not_source() {
    let fs = files(&[("pkg/node_modules/x.js", "x")]);
    let mut cache = Blobs::default();
    let plugins = Plugins { runs: RefCell::new(vec![]) };
    let g = build(
        vec![b"pkg/node_modules/x.js".to_vec()],
        0,
        js_map(&[]),
        &plugins,
        &SameName,
        &fs,
        &mut cache,
    )
    .unwrap();
    assert!(!g.nodes[0].result.asset.is_source());
}

#[test]
fn dependencies_become_nodes_and_edges() {
    let fs = files(&[("a.js", "import b"), ("b.js", "b")]);
    let mut cache = Blobs::default();
    let plugins = Plugins { runs: RefCell::new(vec![]) };
    let g = build(
        vec![b"a.js".to_vec(), b"b.js".to_vec()],
        0,
        js_map(&[1]),
        &plugins,
        &SameName,
        &fs,
        &mut cache,
    )
    .unwrap();
    assert_eq!(g.nodes.len(), 2);
    assert_eq!(g.entries, vec![0, 1]);
    assert_eq!(g.edges.len(), 1);
    assert_eq!((g.edges[0].from, g.edges[0].to), (0, 1));
    assert_eq!(plugins.runs.borrow().len(), 2);
}

#[test]
fn incremental_rebuild_reruns_only_invalidated() {
    let fs = files(&[("a.js", "import b"), ("b.js", "b")]);
    let mut cache = Blobs::default();
    let plugins = Plugins { runs: RefCell::new(vec![]) };
    let mut parcel = Parcel::new(vec![b"a.js".to_vec()], 0, js_map(&[1]));
    let g1 = parcel.build(&vec![], &plugins, &SameName, &fs, &mut cache).unwrap();
    assert_eq!(g1.nodes.len(), 2);
    assert_eq!(*plugins.runs.borrow(), vec![b"a.js".to_vec(), b"b.js".to_vec()]);
    plugins.runs.borrow_mut().clear();
    let events = vec![FileEvent { path: b"b.js".to_vec(), kind: FileEventKind::Update }];
    let g2 = parcel.build(&events, &plugins, &SameName, &fs, &mut cache).unwrap();
    assert_eq!(g2.nodes.len(), 2);
    assert_eq!(*plugins.runs.borrow(), vec![b"b.js".to_vec()]);
    plugins.runs.borrow_mut().clear();
    let g3 = parcel.build(&vec![], &plugins, &SameName, &fs, &mut cache).unwrap();
    assert_eq!(g3, g2);
    assert!(plugins.runs.borrow().is_empty());
}

#[test]
fn transformer_failure_propagates() {
    let fs = files(&[("a.js", "a")]);
    let mut cache = Blobs::default();
    let plugins = Plugins { runs: RefCell::new(vec![]) };
    let err = build(vec![b"a.js".to_vec()], 0, js_map(&[2]), &plugins, &SameName, &fs, &mut cache)
        .unwrap_err();
    assert_eq!(
        err,
        vec![Diagnostic {
            kind: DiagnosticKind::Plugin,
            message: b"syntax error".to_vec(),
            file_path: Some(b"a.js".to_vec()),
        }]
    );
    assert!(cache.0.is_empty());
}

#[test]
fn unreadable_file_is_an_io_diagnostic() {
    let fs = files(&[]);
    let mut cache = Blobs::default();
    let plugins = Plugins { runs: RefCell::new(vec![]) };
    let err = build(vec![b"gone.js".to_vec()], 0, js_map(&[]), &plugins, &SameName, &fs, &mut cache)
        .unwrap_err();
    assert_eq!(err[0].kind, DiagnosticKind::Io);
    assert_eq!(err[0].file_path, Some(b"gone.js".to_vec()));
}

#[test]
fn no_entries_give_an_empty_graph() {
    let fs = files(&[]);
    let mut cache = Blobs::default();
    let plugins = Plugins { runs: RefCell::new(vec![]) };
    let g = build(vec![], 0, js_map(&[]), &plugins, &SameName, &fs, &mut cache).unwrap();
    assert!(g.nodes.is_empty() && g.edges.is_empty() && g.entries.is_empty());
}

#[test]
fn asset_request_records_file_update_and_is_idempotent() {
    let map = js_map(&[]);
    let fs = files(&[]);
    let plugins = Plugins { runs: RefCell::new(vec![]) };
    let mut cache = Blobs::default();
    let request = || AssetRequest {
        transformers: &map,
        file_path: b"a.js".to_vec(),
        code: Some(b"let a".to_vec()),
        pipeline: None,
        env: 3,
        side_effects: false,
    };
    assert_eq!(request().id(), request().id());
    let mut other = request();
    other.env = 4;
    assert_ne!(request().id(), other.id());
    let r1 = request().run(&plugins, &fs, &mut cache);
    let r2 = request().run(&plugins, &fs, &mut cache);
    assert_eq!(r1.invalidations, vec![Invalidation::InvalidateOnFileUpdate(b"a.js".to_vec())]);
    let (a1, a2) = (r1.result.unwrap(), r2.result.unwrap());
    assert_eq!(a1, a2);
    assert_eq!(a1.asset.output_hash, xxhash_rust::xxh3::xxh3_64(b"let a"));
    assert_ne!(a1.asset.content_key, 0);
    assert_eq!(cache.0[0], cache.0[1]);
}

fn result(n: u32) -> AssetRequestResult {
    let mut asset = parcel_build::asset_request::initial_asset(b"x.js", n, &None, false);
    asset.stats.time = n;
    AssetRequestResult { asset, dependencies: vec![] }
}

#[test]
fn tracker_marks_dependents_dirty() {
    let mut t: RequestTracker<AssetRequestResult> = RequestTracker::new();
    let update = |p: &str| Invalidation::InvalidateOnFileUpdate(p.as_bytes().to_vec());
    let leaf = t.record(10, Some(result(1)), vec![update("leaf.js")], vec![]);
    let mid = t.record(20, Some(result(2)), vec![], vec![leaf]);
    let top = t.record(30, Some(result(3)), vec![], vec![mid]);
    let other = t.record(40, Some(result(4)), vec![update("other.js")], vec![]);
    assert_eq!((leaf, mid, top, other), (0, 1, 2, 3));
    assert_eq!(t.cached(30), Some(&result(3)));
    t.next_build(&vec![FileEvent { path: b"leaf.js".to_vec(), kind: FileEventKind::Update }]);
    assert_eq!(t.cached(10), None);
    assert_eq!(t.cached(20), None);
    assert_eq!(t.cached(30), None);
    assert_eq!(t.cached(40), Some(&result(4)));
    // A delete does not fire an update invalidation.
    t.next_build(&vec![FileEvent { path: b"other.js".to_vec(), kind: FileEventKind::Delete }]);
    assert_eq!(t.cached(40), Some(&result(4)));
    assert_eq!(t.record(10, Some(result(5)), vec![], vec![]), 0);
    assert_eq!(t.cached(10), Some(&result(5)));
    assert_eq!(t.len(), 4);
}

#[test]
fn tracker_does_not_reuse_failures() {
    let mut t: RequestTracker<AssetRequestResult> = RequestTracker::new();
    t.record(7, None, vec![], vec![]);
    assert_eq!(t.cached(7), None);
    assert_eq!(t.find(7), Some(0));
    assert_eq!(t.find(8), None);
}

#[test]
fn create_events_match_globs() {
    let mut t: RequestTracker<AssetRequestResult> = RequestTracker::new();
    let glob = Invalidation::InvalidateOnFileCreate(b"src/*.js".to_vec());
    t.record(1, Some(result(1)), vec![glob], vec![]);
    t.next_build(&vec![FileEvent { path: b"src/a/b.js".to_vec(), kind: FileEventKind::Create }]);
    assert_eq!(t.cached(1), Some(&result(1)));
    t.next_build(&vec![FileEvent { path: b"src/new.js".to_vec(), kind: FileEventKind::Create }]);
    assert_eq!(t.cached(1), None);
}
