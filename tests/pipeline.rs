use std::cell::RefCell;

use parcel_build::asset_request::{
    initial_asset, next_step, run_pipeline, PipelineStep, Transformer, TransformerResult,
};
use parcel_build::path::{glob_matches, path_extension, path_has_component, path_with_extension, ProjectPath};
use parcel_build::types::{
    Asset, AssetType, Diagnostic, DiagnosticKind, PipelineEntry, PipelineMap, PluginNode,
};

fn entry(ext: &str, ids: &[u32]) -> PipelineEntry {
    PipelineEntry {
        extension: ext.as_bytes().to_vec(),
        pipeline: None,
        chain: ids.iter().map(|id| PluginNode { id: *id }).collect(),
    }
}

fn chain(ids: &[u32]) -> Vec<PluginNode> {
    ids.iter().map(|id| PluginNode { id: *id }).collect()
}

/// Plugin 1 turns TypeScript into JavaScript, plugin 2 minifies JavaScript,
/// plugin 3 turns JavaScript back into TypeScript.
struct Plugins {
    calls: RefCell<Vec<u32>>,
}

impl Transformer for Plugins {
    fn transform(
        &self,
        plugin: &PluginNode,
        mut asset: Asset,
        code: Vec<u8>,
    ) -> Result<TransformerResult, Vec<Diagnostic>> {
        self.calls.borrow_mut().push(plugin.id);
        let code = match plugin.id {
            1 => {
                asset.asset_type = AssetType::Js;
                b"js-out".to_vec()
            }
            2 => b"min".to_vec(),
            3 => {
                asset.asset_type = AssetType::Ts;
                code
            }
            _ => {
                return Err(vec![Diagnostic {
                    kind: DiagnosticKind::Plugin,
                    message: b"no such plugin".to_vec(),
                    file_path: None,
                }])
            }
        };
        Ok(TransformerResult { asset, code, dependencies: vec![], invalidations: vec![] })
    }
}

#[test]
fn paths_extensions_and_components() {
    assert_eq!(path_extension(b"src/a.js"), b"js".to_vec());
    assert_eq!(path_extension(b"src/.bashrc"), b"".to_vec());
    assert_eq!(path_extension(b"dir.d/file"), b"".to_vec());
    assert_eq!(path_extension(b"a.min.css"), b"css".to_vec());
    assert_eq!(path_with_extension(b"src/a.ts", b"js"), b"src/a.js".to_vec());
    assert_eq!(path_with_extension(b"src/a", b"js"), b"src/a.js".to_vec());
    assert_eq!(path_with_extension(b"src/a.ts", b""), b"src/a".to_vec());
    assert!(path_has_component(b"pkg/node_modules/x.js", b"node_modules"));
    assert!(path_has_component(b"node_modules", b"node_modules"));
    assert!(!path_has_component(b"node_modules_x/a.js", b"node_modules"));
    assert!(!path_has_component(b"a/my_node_modules/b", b"node_modules"));
    let p = ProjectPath::from_str("src/a.js");
    assert_eq!(p.as_bytes(), b"src/a.js");
    assert_eq!(p, ProjectPath::from_bytes(b"src/a.js".to_vec()));
}

#[test]
fn asset_types_from_extensions() {
    assert_eq!(AssetType::from_extension(b"js"), AssetType::Js);
    assert_eq!(AssetType::from_extension(b"tsx"), AssetType::Tsx);
    assert_eq!(AssetType::from_extension(b"json"), AssetType::Json);
    assert_eq!(AssetType::from_extension(b"JS"), AssetType::Unknown);
    assert_eq!(AssetType::from_extension(b"png"), AssetType::Unknown);
    assert_eq!(AssetType::Unknown.extension(), b"unknown".to_vec());
    assert_eq!(AssetType::from_path(b"src/a.html"), AssetType::Html);
}

#[test]
fn source_flag_follows_node_modules() {
    let a = initial_asset(b"src/a.js", 7, &None, false);
    assert!(a.is_source());
    assert!(a.is_bundle_splittable());
    assert!(!a.has_side_effects());
    assert_eq!(a.asset_type, AssetType::Js);
    assert_eq!(a.env, 7);
    let b = initial_asset(b"pkg/node_modules/x.js", 7, &None, true);
    assert!(!b.is_source());
    assert!(b.has_side_effects());
    assert_eq!(b.flags, 4 | 2);
}

#[test]
fn pipeline_map_lookup() {
    let map = PipelineMap {
        entries: vec![
            entry("js", &[2]),
            PipelineEntry {
                extension: b"js".to_vec(),
                pipeline: Some(b"raw".to_vec()),
                chain: chain(&[9]),
            },
        ],
    };
    assert_eq!(map.get(b"a.js", &None, false), chain(&[2]));
    assert_eq!(map.get(b"a.js", &Some(b"raw".to_vec()), false), chain(&[9]));
    assert_eq!(map.get(b"a.js", &Some(b"other".to_vec()), false), chain(&[2]));
    assert_eq!(map.get(b"a.js", &Some(b"other".to_vec()), true), chain(&[]));
    assert_eq!(map.get(b"a.png", &None, false), chain(&[]));
}

#[test]
fn type_change_restarts_with_new_chain() {
    let map = PipelineMap { entries: vec![entry("ts", &[1]), entry("js", &[2])] };
    let plugins = Plugins { calls: RefCell::new(vec![]) };
    let asset = initial_asset(b"a.ts", 0, &None, false);
    let pipeline = map.get(b"a.ts", &None, false);
    let out = run_pipeline(pipeline, asset, b"let x: number = 1".to_vec(), &map, &plugins).unwrap();
    assert_eq!(out.asset.asset_type, AssetType::Js);
    assert_eq!(out.code, b"min".to_vec());
    assert_eq!(*plugins.calls.borrow(), vec![1, 2]);
}

#[test]
fn equal_chain_does_not_restart() {
    let map = PipelineMap { entries: vec![entry("ts", &[1, 2]), entry("js", &[1, 2])] };
    let plugins = Plugins { calls: RefCell::new(vec![]) };
    let asset = initial_asset(b"a.ts", 0, &None, false);
    let out = run_pipeline(chain(&[1, 2]), asset, b"x".to_vec(), &map, &plugins).unwrap();
    assert_eq!(out.asset.asset_type, AssetType::Js);
    assert_eq!(*plugins.calls.borrow(), vec![1, 2]);
}

#[test]
fn next_step_decides_restart() {
    let map = PipelineMap { entries: vec![entry("ts", &[1]), entry("js", &[2])] };
    let mut a = initial_asset(b"a.ts", 0, &None, false);
    assert!(matches!(next_step(&map, &chain(&[1]), AssetType::Ts, &a), PipelineStep::Continue));
    a.asset_type = AssetType::Js;
    match next_step(&map, &chain(&[1]), AssetType::Ts, &a) {
        PipelineStep::Restart(next) => assert_eq!(next, chain(&[2])),
        PipelineStep::Continue => panic!("expected a restart"),
    }
    assert!(matches!(next_step(&map, &chain(&[2]), AssetType::Ts, &a), PipelineStep::Continue));
}

#[test]
fn empty_chain_passes_through() {
    let map = PipelineMap { entries: vec![] };
    let plugins = Plugins { calls: RefCell::new(vec![]) };
    let asset = initial_asset(b"a.png", 0, &None, false);
    let out = run_pipeline(vec![], asset.clone(), b"bytes".to_vec(), &map, &plugins).unwrap();
    assert_eq!(out.asset, asset);
    assert_eq!(out.asset.asset_type, AssetType::Unknown);
    assert_eq!(out.code, b"bytes".to_vec());
    assert!(plugins.calls.borrow().is_empty());
}

#[test]
fn plugin_diagnostics_stop_the_chain() {
    let map = PipelineMap { entries: vec![] };
    let plugins = Plugins { calls: RefCell::new(vec![]) };
    let asset = initial_asset(b"a.js", 0, &None, false);
    let err = run_pipeline(chain(&[2, 5, 2]), asset, b"x".to_vec(), &map, &plugins).unwrap_err();
    assert_eq!(err.len(), 1);
    assert_eq!(err[0].kind, DiagnosticKind::Plugin);
    assert_eq!(*plugins.calls.borrow(), vec![2, 5]);
}

#[test]
fn endless_type_flips_hit_the_restart_limit() {
    let map = PipelineMap { entries: vec![entry("ts", &[1]), entry("js", &[3])] };
    let plugins = Plugins { calls: RefCell::new(vec![]) };
    let asset = initial_asset(b"a.ts", 0, &None, false);
    let err = run_pipeline(chain(&[1]), asset, b"x".to_vec(), &map, &plugins).unwrap_err();
    assert_eq!(err[0].kind, DiagnosticKind::PipelineRestartLimit);
    assert_eq!(plugins.calls.borrow().len(), 17);
}

#[test]
fn globs_match_paths() {
    assert!(glob_matches(b"src/*.js", b"src/new.js"));
    assert!(!glob_matches(b"src/*.js", b"src/a/b.js"));
    assert!(glob_matches(b"src/**.js", b"src/a/b.js"));
    assert!(glob_matches(b"src/a.js", b"src/a.js"));
    assert!(!glob_matches(b"src/a.js", b"src/b.js"));
    assert!(glob_matches(b"*", b""));
    assert!(!glob_matches(b"", b"a"));
}

/// Plugin 1 turns TypeScript into JavaScript and declares a dependency;
/// plugin 2 declares another.
struct Declaring;

impl Transformer for Declaring {
    fn transform(
        &self,
        plugin: &PluginNode,
        mut asset: Asset,
        code: Vec<u8>,
    ) -> Result<TransformerResult, Vec<Diagnostic>> {
        if plugin.id == 1 {
            asset.asset_type = AssetType::Js;
        }
        let dependency = parcel_build::types::Dependency {
            specifier: format!("dep{}", plugin.id).into_bytes(),
            env: 0,
            priority: parcel_build::types::Priority::Sync,
            pipeline: None,
        };
        Ok(TransformerResult {
            asset,
            code,
            dependencies: vec![dependency],
            invalidations: vec![parcel_build::types::Invalidation::InvalidateOnStartup],
        })
    }
}

#[test]
fn restart_keeps_what_was_gathered() {
    let map = PipelineMap { entries: vec![entry("ts", &[1]), entry("js", &[2])] };
    let asset = initial_asset(b"a.ts", 0, &None, false);
    let out = run_pipeline(chain(&[1]), asset, b"x".to_vec(), &map, &Declaring).unwrap();
    let specifiers: Vec<Vec<u8>> = out.dependencies.iter().map(|d| d.specifier.clone()).collect();
    assert_eq!(specifiers, vec![b"dep1".to_vec(), b"dep2".to_vec()]);
    assert_eq!(out.invalidations.len(), 2);
    assert_eq!(out.asset.asset_type, AssetType::Js);
}
