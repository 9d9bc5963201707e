//! The asset graph builder: expands entries into assets, resolving and
//! transforming dependencies until no new file remains.
use vstd::prelude::*;
use crate::asset_request::{
    copy_result, input_bytes, is_finished, is_initial_asset, is_io_failure, is_restart_limit,
    lemma_same_result_symmetric_all, request_identity, request_outcome, run_spec, same_result,
    RunOutcome, AssetRequest, AssetRequestResult, Cache, FileSystem, Transformer};
use crate::bytes::{bytes_copy, bytes_eq};
use crate::asset_request::enc_map;
use crate::bytes::{enc_bytes, enc_opt, enc_u64, xxh3_64_of};
use crate::request_tracker::{
    after_events, cached_result, index_of_key, keys_unique, lemma_rerun_exactly_stale, reachable, RequestNode, RequestTracker};
use crate::types::{
    chain_for, opt_bytes, opt_bytes_copy, opt_bytes_eq, Asset, PluginNode, Dependency, Diagnostic, DiagnosticKind, FileEvent,
    PipelineMap, Priority,
};

verus! {

/// Most assets one graph holds.
pub const MAX_GRAPH_NODES: usize = 0xffff_ffff;

/// Where a dependency or entry leads: a file in an environment and an
/// optional named pipeline.
#[derive(Clone, Debug, PartialEq, Eq)]
pub struct Resolution {
    pub file_path: Vec<u8>,
    /// Interned handle of the environment.
    pub env: u32,
    pub pipeline: Option<Vec<u8>>,
    pub side_effects: bool,
}

/// Resolves specifiers to files; implemented by the host.
pub trait Resolver {
    /// What resolving `dependency` from the file at `from` gives.
    closed spec fn resolve_spec(&self, dependency: Dependency, from: Option<Seq<u8>>) -> Result<
        Resolution,
        Vec<Diagnostic>,
    > {
        arbitrary()
    }

    /// Resolves `dependency`, declared by the file at `from` (`None` for an
    /// entry).
    fn resolve(&self, dependency: &Dependency, from: &Option<Vec<u8>>) -> (r: Result<
        Resolution,
        Vec<Diagnostic>,
    >)
        ensures
            r == self.resolve_spec(*dependency, opt_bytes(*from)),
    ;
}

/// Two resolutions name the same asset: same file, environment and pipeline.
pub open spec fn same_target(a: Resolution, b: Resolution) -> bool {
    a.file_path@ == b.file_path@ && a.env == b.env && opt_bytes(a.pipeline) == opt_bytes(
        b.pipeline,
    )
}

/// One asset of the graph and the resolution that led to it.
#[derive(Clone, Debug, PartialEq, Eq)]
pub struct AssetNode {
    pub target: Resolution,
    pub result: AssetRequestResult,
}

/// A dependency from node `from` that resolved to node `to`.
#[derive(Clone, Debug, PartialEq, Eq)]
pub struct AssetEdge {
    pub from: usize,
    pub to: usize,
    pub dependency: Dependency,
}

/// Assets as nodes of an index arena; dependencies as index pairs.
#[derive(Clone, Debug, PartialEq, Eq)]
pub struct AssetGraph {
    pub nodes: Vec<AssetNode>,
    pub edges: Vec<AssetEdge>,
    /// The node of each entry, in entry order.
    pub entries: Vec<usize>,
}

/// Every index in the graph names a node, and no two nodes share a target.
pub open spec fn graph_wf(g: AssetGraph) -> bool {
    &&& forall|k: int|
        0 <= k < g.edges@.len() ==> (#[trigger] g.edges@[k]).from < g.nodes@.len() && g.edges@[k].to
            < g.nodes@.len()
    &&& forall|k: int| 0 <= k < g.entries@.len() ==> #[trigger] g.entries@[k] < g.nodes@.len()
    &&& forall|a: int, b: int|
        0 <= a < b < g.nodes@.len() ==> !same_target(
            #[trigger] g.nodes@[a].target,
            #[trigger] g.nodes@[b].target,
        )
}

/// The tracker key of the asset request for `t`: the hash of its inputs.
pub open spec fn target_key(map: PipelineMap, t: Resolution) -> u64 {
    xxh3_64_of(
        enc_bytes(t.file_path@) + enc_opt(None) + enc_opt(opt_bytes(t.pipeline)) + enc_u64(
            t.env as u64,
        ) + seq![if t.side_effects { 1u8 } else { 0u8 }] + enc_map(map),
    )
}

/// The tracker key of a node's asset request.
pub open spec fn node_key(map: PipelineMap, n: AssetNode) -> u64 {
    target_key(map, n.target)
}

/// No other of the first `n` nodes shares node `x`'s key.
pub open spec fn key_unique_among(map: PipelineMap, nodes: Seq<AssetNode>, x: int, n: int) -> bool {
    forall|y: int| 0 <= y < n && y != x ==> node_key(map, #[trigger] nodes[y]) != node_key(map, nodes[x])
}

/// No two nodes' requests share a key (they differ unless their hashes
/// collide).
pub open spec fn keys_distinct(map: PipelineMap, g: AssetGraph) -> bool {
    forall|x: int| 0 <= x < g.nodes@.len() ==> #[trigger] key_unique_among(map, g.nodes@, x, g.nodes@.len() as int)
}

/// `tracker` holds a clean result equal to the node's under its key.
pub open spec fn recorded(map: PipelineMap, tracker: Seq<RequestNode<AssetRequestResult>>, n: AssetNode) -> bool {
    cached_result(tracker, node_key(map, n)) matches Some(v) && same_result(n.result, v)
}

/// Where a node's result comes from: the clean result `tracker` held for its
/// request, or else a run of that request.
pub open spec fn result_origin<T: Transformer, F: FileSystem>(
    tr: T,
    fs: F,
    map: PipelineMap,
    tracker: Seq<RequestNode<AssetRequestResult>>,
    n: AssetNode,
) -> bool {
    match cached_result(tracker, node_key(map, n)) {
        Some(v) => same_result(n.result, v),
        None => request_gives(tr, fs, map, n.target, n.result),
    }
}

/// How a built graph relates to the tracker before (`t0`) and after (`t1`)
/// the build. When no two nodes' request keys collide, each node's result is
/// the clean result `t0` held for its request, or else that of a run of the
/// request, and `t1` holds it as a clean result. Keys of no node keep what
/// `t0` held.
pub open spec fn graph_tracked<T: Transformer, F: FileSystem>(
    tr: T,
    fs: F,
    map: PipelineMap,
    t0: Seq<RequestNode<AssetRequestResult>>,
    t1: Seq<RequestNode<AssetRequestResult>>,
    g: AssetGraph,
) -> bool {
    &&& keys_distinct(map, g) ==> forall|k: int|
        0 <= k < g.nodes@.len() ==> recorded(map, t1, #[trigger] g.nodes@[k]) && result_origin(
            tr,
            fs,
            map,
            t0,
            g.nodes@[k],
        )
    &&& forall|key: u64|
        (forall|k: int| 0 <= k < g.nodes@.len() ==> key != node_key(map, #[trigger] g.nodes@[k]))
            ==> #[trigger] cached_result(t1, key) == cached_result(t0, key)
}

/// Node `x` is an entry's node, or an edge reaches it from an earlier node.
pub open spec fn discovered(entries: Seq<usize>, edges: Seq<AssetEdge>, x: int) -> bool {
    (exists|j: int| 0 <= j < entries.len() && #[trigger] entries[j] == x) || (exists|e: int|
        0 <= e < edges.len() && (#[trigger] edges[e]).to == x && edges[e].from < x)
}

/// `p` is a path of edges of `g` from an entry's node to its last node.
pub open spec fn is_entry_path(g: AssetGraph, p: Seq<int>) -> bool {
    &&& p.len() >= 1
    &&& exists|j: int| 0 <= j < g.entries@.len() && #[trigger] g.entries@[j] == p[0]
    &&& forall|i: int| 0 <= i < p.len() - 1 ==> #[trigger] linked(g, p[i], p[i + 1])
}

/// Some edge of `g` goes from node `a` to node `b`.
pub open spec fn linked(g: AssetGraph, a: int, b: int) -> bool {
    exists|e: int| 0 <= e < g.edges@.len() && (#[trigger] g.edges@[e]).from == a && g.edges@[e].to == b
}

/// Node `x` lies at the end of a path from an entry's node.
pub open spec fn reached(g: AssetGraph, x: int) -> bool {
    exists|p: Seq<int>| #[trigger] is_entry_path(g, p) && p.last() == x
}

/// Every node of a graph in which each node is discovered lies on a path
/// from an entry.
pub proof fn lemma_reachable_from_entry(g: AssetGraph, x: int)
    requires
        0 <= x < g.nodes@.len(),
        forall|y: int| 0 <= y < g.nodes@.len() ==> #[trigger] discovered(g.entries@, g.edges@, y),
        forall|e: int| 0 <= e < g.edges@.len() ==> (#[trigger] g.edges@[e]).from < g.nodes@.len(),
    ensures
        reached(g, x),
    decreases x,
{
    assert(discovered(g.entries@, g.edges@, x));
    if exists|j: int| 0 <= j < g.entries@.len() && #[trigger] g.entries@[j] == x {
        let p = seq![x];
        assert(is_entry_path(g, p));
    } else {
        let e = choose|e: int| 0 <= e < g.edges@.len() && (#[trigger] g.edges@[e]).to == x && g.edges@[e].from < x;
        let f = g.edges@[e].from as int;
        lemma_reachable_from_entry(g, f);
        let q = choose|q: Seq<int>| #[trigger] is_entry_path(g, q) && q.last() == f;
        let p = q.push(x);
        assert forall|i: int| 0 <= i < p.len() - 1 implies #[trigger] linked(g, p[i], p[i + 1]) by {
            if i < q.len() - 1 {
                assert(p[i] == q[i] && p[i + 1] == q[i + 1]);
            } else {
                assert(p[i] == f && p[i + 1] == x);
                assert(g.edges@[e].from == p[i]);
            }
        }
        assert(p[0] == q[0]);
        assert(is_entry_path(g, p));
    }
}

/// The single `GraphLimit` diagnostic.
pub open spec fn is_graph_limit(d: Vec<Diagnostic>) -> bool {
    d@.len() == 1 && d@[0].kind == DiagnosticKind::GraphLimit
}

/// The resolver fails with `d` on some dependency.
pub open spec fn resolver_fails<R: Resolver>(resolver: R, d: Vec<Diagnostic>) -> bool {
    exists|dep: Dependency, from: Option<Seq<u8>>|
        #[trigger] resolver.resolve_spec(dep, from) == Err::<Resolution, Vec<Diagnostic>>(d)
}

/// The transformer chain the builder's asset request for `t` runs.
pub open spec fn target_chain(map: PipelineMap, t: Resolution) -> Seq<PluginNode> {
    chain_for(map.entries@, t.file_path@, opt_bytes(t.pipeline), false)
}

/// `res` is what the builder's asset request for `t` gives on success: the
/// file's bytes run through its chain from the initial asset, finished.
pub open spec fn request_gives<T: Transformer, F: FileSystem>(
    tr: T,
    fs: F,
    map: PipelineMap,
    t: Resolution,
    res: AssetRequestResult,
) -> bool {
    fs.read_spec(t.file_path@) matches Some(bytes) && exists|a0: Asset|
        #[trigger] is_initial_asset(a0, t.file_path@, t.env, opt_bytes(t.pipeline), t.side_effects)
            && (run_spec(tr, map, target_chain(map, t), a0, bytes) matches RunOutcome::Done {
            asset,
            code,
            dependencies,
            invalidations,
        } && is_finished(res.asset, asset, code) && res.dependencies@ == dependencies)
}

/// The builder's asset request for `t` fails with `d`: the file cannot be
/// read, or its chain fails with `d`.
pub open spec fn request_fails<T: Transformer, F: FileSystem>(
    tr: T,
    fs: F,
    map: PipelineMap,
    t: Resolution,
    d: Vec<Diagnostic>,
) -> bool {
    match fs.read_spec(t.file_path@) {
        None => is_io_failure(Err::<AssetRequestResult, Vec<Diagnostic>>(d), t.file_path@),
        Some(bytes) => exists|a0: Asset|
            #[trigger] is_initial_asset(a0, t.file_path@, t.env, opt_bytes(t.pipeline), t.side_effects)
                && match run_spec(tr, map, target_chain(map, t), a0, bytes) {
                RunOutcome::Failed(e) => e == d,
                RunOutcome::RestartLimit(p) => is_restart_limit(
                    Err::<AssetRequestResult, Vec<Diagnostic>>(d),
                    p,
                ),
                RunOutcome::Done { .. } => false,
            },
    }
}

/// The dependency an entry is resolved as.
pub open spec fn is_entry_dependency(d: Dependency, entry: Seq<u8>, env: u32) -> bool {
    d.specifier@ == entry && d.env == env && d.priority == Priority::Sync && d.pipeline is None
}

/// `resolver` resolves `dep`, declared by the file at `from`, to `target`.
pub open spec fn resolves_to<R: Resolver>(resolver: R, dep: Dependency, from: Option<Seq<u8>>, target: Resolution) -> bool {
    resolver.resolve_spec(dep, from) matches Ok(res) && same_target(target, res)
}

/// Some edge leaves node `k` for a target that `dep` of the file at `from`
/// resolves to.
pub open spec fn has_edge<R: Resolver>(
    resolver: R,
    edges: Seq<AssetEdge>,
    targets: Seq<Resolution>,
    k: int,
    dep: Dependency,
    from: Seq<u8>,
) -> bool {
    exists|e: int|
        0 <= e < edges.len() && (#[trigger] edges[e]).from == k && edges[e].to < targets.len()
            && resolves_to(resolver, dep, Some(from), targets[edges[e].to as int])
}

/// The graph is closed under resolution: each dependency of each node has
/// an edge to the node its resolution names.
pub open spec fn graph_closed<R: Resolver>(resolver: R, g: AssetGraph) -> bool {
    forall|k: int, j: int|
        0 <= k < g.nodes@.len() && 0 <= j < g.nodes@[k].result.dependencies@.len() ==> has_edge(
            resolver,
            g.edges@,
            Seq::new(g.nodes@.len(), |x: int| g.nodes@[x].target),
            k,
            #[trigger] g.nodes@[k].result.dependencies@[j],
            g.nodes@[k].target.file_path@,
        )
}

/// `target` is what the dependency made of `entry` resolves to.
pub open spec fn entry_resolves_to<R: Resolver>(resolver: R, entry: Seq<u8>, env: u32, target: Resolution) -> bool {
    exists|d: Dependency| #[trigger] is_entry_dependency(d, entry, env) && resolves_to(resolver, d, None, target)
}

/// Each entry's node is the target its entry resolves to.
pub open spec fn entries_resolved<R: Resolver>(resolver: R, entries: Seq<Vec<u8>>, env: u32, g: AssetGraph) -> bool {
    forall|k: int|
        0 <= k < entries.len() ==> entry_resolves_to(
            resolver,
            entries[k]@,
            env,
            g.nodes@[(#[trigger] g.entries@[k]) as int].target,
        )
}

/// Entry `k` sits at a target its entry resolves to.
pub open spec fn entry_at<R: Resolver>(
    resolver: R,
    entries: Seq<Vec<u8>>,
    env: u32,
    targets: Seq<Resolution>,
    entry_nodes: Seq<usize>,
    k: int,
) -> bool {
    entry_resolves_to(resolver, entries[k]@, env, targets[entry_nodes[k] as int])
}

proof fn lemma_has_edge_kept<R: Resolver>(
    resolver: R,
    e0: Seq<AssetEdge>,
    e1: Seq<AssetEdge>,
    t0: Seq<Resolution>,
    t1: Seq<Resolution>,
    k: int,
    dep: Dependency,
    from: Seq<u8>,
)
    requires
        has_edge(resolver, e0, t0, k, dep, from),
        e0.len() <= e1.len(),
        forall|i: int| 0 <= i < e0.len() ==> e1[i] == e0[i],
        t0.len() <= t1.len(),
        forall|i: int| 0 <= i < t0.len() ==> same_target(t1[i], t0[i]),
    ensures
        has_edge(resolver, e1, t1, k, dep, from),
{
    let e = choose|e: int|
        0 <= e < e0.len() && (#[trigger] e0[e]).from == k && e0[e].to < t0.len() && resolves_to(
            resolver,
            dep,
            Some(from),
            t0[e0[e].to as int],
        );
    assert(e1[e] == e0[e]);
    assert(same_target(t1[e0[e].to as int], t0[e0[e].to as int]));
}

pub open spec fn targets_distinct(ts: Seq<Resolution>) -> bool {
    forall|a: int, b: int|
        0 <= a < b < ts.len() ==> !same_target(#[trigger] ts[a], #[trigger] ts[b])
}

fn same_target_exec(a: &Resolution, b: &Resolution) -> (r: bool)
    ensures
        r == same_target(*a, *b),
{
    a.env == b.env && bytes_eq(a.file_path.as_slice(), b.file_path.as_slice()) && opt_bytes_eq(
        &a.pipeline,
        &b.pipeline,
    )
}

fn copy_resolution(a: &Resolution) -> (r: Resolution)
    ensures
        same_target(r, *a),
        r.side_effects == a.side_effects,
{
    Resolution {
        file_path: bytes_copy(a.file_path.as_slice()),
        env: a.env,
        pipeline: opt_bytes_copy(&a.pipeline),
        side_effects: a.side_effects,
    }
}

/// The index of the target equal to `t`, appending `t` when none is.
fn find_or_add(targets: &mut Vec<Resolution>, t: Resolution) -> (r: Result<usize, Vec<Diagnostic>>)
    requires
        targets_distinct(old(targets)@),
        old(targets)@.len() <= MAX_GRAPH_NODES,
    ensures
        targets_distinct(final(targets)@),
        final(targets)@.len() <= MAX_GRAPH_NODES,
        match r {
            Ok(i) => {
                &&& i < final(targets)@.len()
                &&& same_target(final(targets)@[i as int], t)
                &&& (final(targets)@ == old(targets)@ || (i == old(targets)@.len() && final(targets)@
                    == old(targets)@.push(t)))
            },
            Err(d) => final(targets)@ == old(targets)@ && is_graph_limit(d),
        },
{
    let mut i: usize = 0;
    while i < targets.len()
        invariant
            *targets == *old(targets),
            targets_distinct(targets@),
            targets@.len() <= MAX_GRAPH_NODES,
            0 <= i <= targets@.len(),
            forall|j: int| 0 <= j < i ==> !same_target(targets@[j], t),
        decreases targets@.len() - i,
    {
        if same_target_exec(&targets[i], &t) {
            return Ok(i);
        }
        i += 1;
    }
    if targets.len() >= MAX_GRAPH_NODES {
        return Err(
            vec![Diagnostic {
                kind: DiagnosticKind::GraphLimit,
                message: Vec::new(),
                file_path: Some(t.file_path),
            }],
        );
    }
    let ghost before = targets@;
    let r = targets.len();
    targets.push(t);
    proof {
        assert forall|a: int, b: int| 0 <= a < b < targets@.len() implies !same_target(
            #[trigger] targets@[a],
            #[trigger] targets@[b],
        ) by {
            assert(targets@[a] == before[a]);
            if b < r {
                assert(targets@[b] == before[b]);
            }
        }
    }
    Ok(r)
}

/// Builds the asset graph of `entries`, each resolved in environment `env`.
/// Asset requests whose clean result `tracker` holds are not run again; the
/// others run and their outcome is recorded. The first diagnostics of a
/// resolver or an asset request end the build and are returned unchanged.
/// A built graph is closed (`graph_closed`), its entries sit at their
/// resolutions (`entries_resolved`), and the tracker holds a clean result
/// for every node's request.
pub fn build_graph<T: Transformer, R: Resolver, F: FileSystem, C: Cache>(
    entries: &Vec<Vec<u8>>,
    env: u32,
    transformers: &PipelineMap,
    tracker: &mut RequestTracker<AssetRequestResult>,
    transformer: &T,
    resolver: &R,
    fs: &F,
    cache: &mut C,
) -> (r: Result<AssetGraph, Vec<Diagnostic>>)
    requires
        old(tracker).wf(),
    ensures
        final(tracker).wf(),
        r matches Ok(g) ==> graph_wf(g) && g.entries@.len() == entries@.len() && graph_closed(
            *resolver,
            g,
        ) && entries_resolved(*resolver, entries@, env, g) && forall|k: int|
            0 <= k < g.nodes@.len() ==> (#[trigger] cached_result(
                final(tracker)@,
                target_key(*transformers, g.nodes@[k].target),
            )) is Some,
        entries@.len() == 0 ==> (r matches Ok(g) && g.nodes@.len() == 0 && g.edges@.len() == 0),
        r matches Err(d) ==> resolver_fails(*resolver, d) || is_graph_limit(d) || exists|t: Resolution|
            #[trigger] request_fails(*transformer, *fs, *transformers, t, d),
        r matches Ok(g) ==> graph_tracked(*transformer, *fs, *transformers, old(tracker)@, final(tracker)@, g),
        r matches Ok(g) ==> forall|x: int| 0 <= x < g.nodes@.len() ==> #[trigger] reached(g, x),
{
    let mut targets: Vec<Resolution> = Vec::new();
    let mut entry_nodes: Vec<usize> = Vec::new();
    let mut e: usize = 0;
    while e < entries.len()
        invariant
            tracker.wf(),
            tracker@ == old(tracker)@,
            0 <= e <= entries@.len(),
            forall|x: int| 0 <= x < targets@.len() ==> #[trigger] discovered(entry_nodes@, Seq::<AssetEdge>::empty(), x),
            entry_nodes@.len() == e,
            targets_distinct(targets@),
            targets@.len() <= MAX_GRAPH_NODES,
            forall|k: int| 0 <= k < e ==> #[trigger] entry_nodes@[k] < targets@.len(),
            forall|k: int|
                0 <= k < e ==> #[trigger] entry_at(*resolver, entries@, env, targets@, entry_nodes@, k),
            entries@.len() == 0 ==> targets@.len() == 0,
        decreases entries@.len() - e,
    {
        let dep = Dependency {
            specifier: bytes_copy(entries[e].as_slice()),
            env,
            priority: Priority::Sync,
            pipeline: None,
        };
        let res = match resolver.resolve(&dep, &None) {
            Ok(res) => res,
            Err(d) => return Err(d),
        };
        let ghost before = targets@;
        let ghost before_nodes = entry_nodes@;
        let ghost resolved = res;
        let idx = match find_or_add(&mut targets, res) {
            Ok(i) => i,
            Err(d) => return Err(d),
        };
        entry_nodes.push(idx);
        proof {
            assert forall|x: int| 0 <= x < targets@.len() implies #[trigger] discovered(entry_nodes@, Seq::<AssetEdge>::empty(), x) by {
                if x == idx {
                    assert(entry_nodes@[e as int] == x);
                } else {
                    assert(discovered(before_nodes, Seq::<AssetEdge>::empty(), x));
                    let j = choose|j: int| 0 <= j < before_nodes.len() && #[trigger] before_nodes[j] == x;
                    assert(entry_nodes@[j] == x);
                }
            }
            assert(is_entry_dependency(dep, entries@[e as int]@, env));
            assert(entry_at(*resolver, entries@, env, targets@, entry_nodes@, e as int));
            assert forall|k: int| 0 <= k < e implies #[trigger] entry_at(
                *resolver,
                entries@,
                env,
                targets@,
                entry_nodes@,
                k,
            ) by {
                assert(entry_at(*resolver, entries@, env, before, before_nodes, k));
                assert(entry_nodes@[k] == before_nodes[k]);
                assert(targets@[before_nodes[k] as int] == before[before_nodes[k] as int]);
            }
        }
        e += 1;
    }
    let mut nodes: Vec<AssetNode> = Vec::new();
    let mut edges: Vec<AssetEdge> = Vec::new();
    assert(edges@ =~= Seq::<AssetEdge>::empty());
    let mut next: usize = 0;
    while next < targets.len()
        invariant
            tracker.wf(),
            targets_distinct(targets@),
            targets@.len() <= MAX_GRAPH_NODES,
            0 <= next <= targets@.len(),
            nodes@.len() == next,
            entry_nodes@.len() == entries@.len(),
            forall|k: int| 0 <= k < entry_nodes@.len() ==> #[trigger] entry_nodes@[k] < targets@.len(),
            forall|k: int|
                0 <= k < edges@.len() ==> (#[trigger] edges@[k]).from < targets@.len() && edges@[k].to
                    < targets@.len(),
            forall|k: int| 0 <= k < next ==> same_target(#[trigger] nodes@[k].target, targets@[k]),
            forall|k: int|
                0 <= k < entries@.len() ==> #[trigger] entry_at(
                    *resolver,
                    entries@,
                    env,
                    targets@,
                    entry_nodes@,
                    k,
                ),
            forall|x: int, j: int|
                0 <= x < next && 0 <= j < nodes@[x].result.dependencies@.len() ==> has_edge(
                    *resolver,
                    edges@,
                    targets@,
                    x,
                    #[trigger] nodes@[x].result.dependencies@[j],
                    nodes@[x].target.file_path@,
                ),
            forall|x: int|
                0 <= x < next ==> (#[trigger] cached_result(
                    tracker@,
                    target_key(*transformers, nodes@[x].target),
                )) is Some,
            forall|x: int|
                0 <= x < next ==> #[trigger] key_unique_among(*transformers, nodes@, x, next as int)
                    ==> recorded(*transformers, tracker@, nodes@[x]) && result_origin(
                    *transformer,
                    *fs,
                    *transformers,
                    old(tracker)@,
                    nodes@[x],
                ),
            forall|key: u64|
                (forall|x: int| 0 <= x < next ==> key != node_key(*transformers, #[trigger] nodes@[x]))
                    ==> #[trigger] cached_result(tracker@, key) == cached_result(old(tracker)@, key),
            forall|x: int| 0 <= x < targets@.len() ==> #[trigger] discovered(entry_nodes@, edges@, x),
            entries@.len() == 0 ==> targets@.len() == 0 && edges@.len() == 0,
        decreases MAX_GRAPH_NODES - next,
    {
        let target = copy_resolution(&targets[next]);
        let request = AssetRequest {
            transformers,
            file_path: bytes_copy(target.file_path.as_slice()),
            code: None,
            pipeline: opt_bytes_copy(&target.pipeline),
            env: target.env,
            side_effects: target.side_effects,
        };
        let key = request.id();
        assert(request_identity(request) =~= enc_bytes(target.file_path@) + enc_opt(None) + enc_opt(
            opt_bytes(target.pipeline),
        ) + enc_u64(target.env as u64) + seq![if target.side_effects { 1u8 } else { 0u8 }] + enc_map(
            *transformers,
        ));
        assert(key == target_key(*transformers, target));
        let ghost before_tracker = tracker@;
        let ghost req = request;
        assert(input_bytes(req, *fs) == fs.read_spec(target.file_path@));
        assert(chain_for(req.transformers.entries@, req.file_path@, opt_bytes(req.pipeline), false)
            == target_chain(*transformers, target));
        let result = match tracker.cached(key) {
            Some(r) => copy_result(r),
            None => {
                let ghost w0 = cache.writes();
                let out = request.run(transformer, fs, cache);
                match out.result {
                    Ok(r) => {
                        proof {
                            let bytes = input_bytes(req, *fs)->Some_0;
                            let a0 = choose|a0: Asset|
                                #[trigger] is_initial_asset(
                                    a0,
                                    req.file_path@,
                                    req.env,
                                    opt_bytes(req.pipeline),
                                    req.side_effects,
                                ) && request_outcome(
                                    out,
                                    run_spec(
                                        *transformer,
                                        *req.transformers,
                                        chain_for(req.transformers.entries@, req.file_path@, opt_bytes(req.pipeline), false),
                                        a0,
                                        bytes,
                                    ),
                                    w0,
                                    cache.writes(),
                                );
                            assert(is_initial_asset(a0, target.file_path@, target.env, opt_bytes(target.pipeline), target.side_effects));
                            assert(request_gives(*transformer, *fs, *transformers, target, r));
                        }
                        tracker.record(key, Some(copy_result(&r)), out.invalidations, Vec::new());
                        r
                    },
                    Err(d) => {
                        proof {
                            if input_bytes(req, *fs) is Some {
                                let bytes = input_bytes(req, *fs)->Some_0;
                                let a0 = choose|a0: Asset|
                                    #[trigger] is_initial_asset(
                                        a0,
                                        req.file_path@,
                                        req.env,
                                        opt_bytes(req.pipeline),
                                        req.side_effects,
                                    ) && request_outcome(
                                        out,
                                        run_spec(
                                            *transformer,
                                            *req.transformers,
                                            chain_for(req.transformers.entries@, req.file_path@, opt_bytes(req.pipeline), false),
                                            a0,
                                            bytes,
                                        ),
                                        w0,
                                        cache.writes(),
                                    );
                                assert(is_initial_asset(a0, target.file_path@, target.env, opt_bytes(target.pipeline), target.side_effects));
                            }
                            assert(request_fails(*transformer, *fs, *transformers, target, d));
                        }
                        tracker.record(key, None, out.invalidations, Vec::new());
                        return Err(d);
                    },
                }
            },
        };
        proof {
            assert forall|x: int| 0 <= x < next implies (#[trigger] cached_result(
                tracker@,
                target_key(*transformers, nodes@[x].target),
            )) is Some by {
                let kx = target_key(*transformers, nodes@[x].target);
                if kx != key {
                    assert(cached_result(tracker@, kx) == cached_result(before_tracker, kx));
                }
            }
            assert forall|x: int|
                0 <= x < next && #[trigger] key_unique_among(*transformers, nodes@, x, next as int)
                    implies recorded(*transformers, tracker@, nodes@[x]) && result_origin(
                    *transformer,
                    *fs,
                    *transformers,
                    old(tracker)@,
                    nodes@[x],
                ) by {
                let kx = node_key(*transformers, nodes@[x]);
                if kx != key {
                    assert(cached_result(tracker@, kx) == cached_result(before_tracker, kx));
                }
            }
            assert forall|k2: u64|
                (forall|x: int| 0 <= x < next ==> k2 != node_key(*transformers, #[trigger] nodes@[x]))
                    && k2 != key implies #[trigger] cached_result(tracker@, k2) == cached_result(
                old(tracker)@,
                k2,
            ) by {
                assert(cached_result(tracker@, k2) == cached_result(before_tracker, k2));
            }
            let here = AssetNode { target, result };
            lemma_same_result_symmetric_all();
            assert(recorded(*transformers, tracker@, here));
            if forall|x: int| 0 <= x < next ==> key != node_key(*transformers, #[trigger] nodes@[x]) {
                assert(cached_result(before_tracker, key) == cached_result(old(tracker)@, key));
                assert(result_origin(*transformer, *fs, *transformers, old(tracker)@, here));
            }
        }
        let from = Some(bytes_copy(target.file_path.as_slice()));
        let mut k: usize = 0;
        while k < result.dependencies.len()
            invariant
                tracker.wf(),
                targets_distinct(targets@),
                targets@.len() <= MAX_GRAPH_NODES,
                next < targets@.len(),
                0 <= k <= result.dependencies@.len(),
                forall|x: int| 0 <= x < entry_nodes@.len() ==> #[trigger] entry_nodes@[x] < targets@.len(),
                forall|x: int|
                    0 <= x < edges@.len() ==> (#[trigger] edges@[x]).from < targets@.len()
                        && edges@[x].to < targets@.len(),
                forall|x: int| 0 <= x < next ==> same_target(#[trigger] nodes@[x].target, targets@[x]),
                forall|k: int|
                    0 <= k < entries@.len() ==> #[trigger] entry_at(
                        *resolver,
                        entries@,
                        env,
                        targets@,
                        entry_nodes@,
                        k,
                    ),
                forall|x: int, j: int|
                    0 <= x < next && 0 <= j < nodes@[x].result.dependencies@.len() ==> has_edge(
                        *resolver,
                        edges@,
                        targets@,
                        x,
                        #[trigger] nodes@[x].result.dependencies@[j],
                        nodes@[x].target.file_path@,
                    ),
                forall|j: int|
                    0 <= j < k ==> has_edge(
                        *resolver,
                        edges@,
                        targets@,
                        next as int,
                        #[trigger] result.dependencies@[j],
                        target.file_path@,
                    ),
                forall|x: int|
                    0 <= x < next ==> (#[trigger] cached_result(
                        tracker@,
                        target_key(*transformers, nodes@[x].target),
                    )) is Some,
                cached_result(tracker@, target_key(*transformers, target)) is Some,
                forall|x: int|
                    0 <= x < next ==> #[trigger] key_unique_among(*transformers, nodes@, x, next as int)
                        ==> recorded(*transformers, tracker@, nodes@[x]) && result_origin(
                        *transformer,
                        *fs,
                        *transformers,
                        old(tracker)@,
                        nodes@[x],
                    ),
                forall|k2: u64|
                    (forall|x: int| 0 <= x < next ==> k2 != node_key(*transformers, #[trigger] nodes@[x]))
                        && k2 != key ==> #[trigger] cached_result(tracker@, k2) == cached_result(old(tracker)@, k2),
                recorded(*transformers, tracker@, AssetNode { target, result }),
                (forall|x: int| 0 <= x < next ==> key != node_key(*transformers, #[trigger] nodes@[x]))
                    ==> result_origin(
                    *transformer,
                    *fs,
                    *transformers,
                    old(tracker)@,
                    AssetNode { target, result },
                ),
                key == target_key(*transformers, target),
                forall|x: int| 0 <= x < targets@.len() ==> #[trigger] discovered(entry_nodes@, edges@, x),
                opt_bytes(from) == Some(target.file_path@),
                entry_nodes@.len() == entries@.len(),
                same_target(target, targets@[next as int]),
                entries@.len() == 0 ==> targets@.len() == 0,
            decreases result.dependencies@.len() - k,
        {
            let dep = &result.dependencies[k];
            let res = match resolver.resolve(dep, &from) {
                Ok(res) => res,
                Err(d) => return Err(d),
            };
            let ghost before = targets@;
            let ghost before_edges = edges@;
            let ghost resolved = res;
            let to = match find_or_add(&mut targets, res) {
                Ok(i) => i,
                Err(d) => return Err(d),
            };
            edges.push(AssetEdge { from: next, to, dependency: dep.clone() });
            proof {
                assert forall|x: int| 0 <= x < targets@.len() implies #[trigger] discovered(entry_nodes@, edges@, x) by {
                    if x < before.len() {
                        assert(discovered(entry_nodes@, before_edges, x));
                        if exists|e2: int| 0 <= e2 < before_edges.len() && (#[trigger] before_edges[e2]).to == x && before_edges[e2].from < x {
                            let e2 = choose|e2: int| 0 <= e2 < before_edges.len() && (#[trigger] before_edges[e2]).to == x && before_edges[e2].from < x;
                            assert(edges@[e2] == before_edges[e2]);
                        }
                    } else {
                        assert(edges@[before_edges.len() as int].to == x);
                    }
                }
                assert forall|x: int| 0 <= x < next implies same_target(#[trigger] nodes@[x].target, targets@[x]) by {
                    assert(targets@[x] == before[x]);
                }
                assert(targets@[next as int] == before[next as int]);
                assert forall|i: int| 0 <= i < before.len() implies same_target(targets@[i], before[i]) by {
                    assert(targets@[i] == before[i]);
                }
                assert forall|i: int| 0 <= i < before_edges.len() implies edges@[i] == before_edges[i] by {
                }
                assert forall|x: int, j: int|
                    0 <= x < next && 0 <= j < nodes@[x].result.dependencies@.len() implies has_edge(
                        *resolver,
                        edges@,
                        targets@,
                        x,
                        #[trigger] nodes@[x].result.dependencies@[j],
                        nodes@[x].target.file_path@,
                    ) by {
                    lemma_has_edge_kept(*resolver, before_edges, edges@, before, targets@, x,
                        nodes@[x].result.dependencies@[j], nodes@[x].target.file_path@);
                }
                assert forall|j: int| 0 <= j < k implies has_edge(
                    *resolver,
                    edges@,
                    targets@,
                    next as int,
                    #[trigger] result.dependencies@[j],
                    target.file_path@,
                ) by {
                    lemma_has_edge_kept(*resolver, before_edges, edges@, before, targets@, next as int,
                        result.dependencies@[j], target.file_path@);
                }
                let e = before_edges.len() as int;
                assert(edges@[e].from == next && edges@[e].to == to);
                assert(resolves_to(*resolver, *dep, Some(target.file_path@), targets@[to as int]));
                assert(has_edge(*resolver, edges@, targets@, next as int, result.dependencies@[k as int], target.file_path@));
                assert forall|x: int| 0 <= x < entries@.len() implies #[trigger] entry_at(
                    *resolver,
                    entries@,
                    env,
                    targets@,
                    entry_nodes@,
                    x,
                ) by {
                    assert(entry_at(*resolver, entries@, env, before, entry_nodes@, x));
                    assert(entry_nodes@[x] < before.len());
                    assert(targets@[entry_nodes@[x] as int] == before[entry_nodes@[x] as int]);
                }
            }
            k += 1;
        }
        let ghost before_nodes = nodes@;
        nodes.push(AssetNode { target, result });
        proof {
            assert(nodes@[next as int] == AssetNode { target, result });
            assert forall|x: int|
                0 <= x < next + 1 && #[trigger] key_unique_among(*transformers, nodes@, x, next + 1)
                    implies recorded(*transformers, tracker@, nodes@[x]) && result_origin(
                    *transformer,
                    *fs,
                    *transformers,
                    old(tracker)@,
                    nodes@[x],
                ) by {
                if x < next {
                    assert(nodes@[x] == before_nodes[x]);
                    assert forall|y: int| 0 <= y < next && y != x implies node_key(*transformers, #[trigger] before_nodes[y]) != node_key(*transformers, before_nodes[x]) by {
                        assert(nodes@[y] == before_nodes[y]);
                        assert(key_unique_among(*transformers, nodes@, x, next + 1));
                    }
                    assert(key_unique_among(*transformers, before_nodes, x, next as int));
                } else {
                    assert forall|y: int| 0 <= y < next implies key != node_key(*transformers, #[trigger] before_nodes[y]) by {
                        assert(nodes@[y] == before_nodes[y]);
                        assert(key_unique_among(*transformers, nodes@, x, next + 1));
                    }
                }
            }
            assert forall|k2: u64|
                (forall|x: int| 0 <= x < next + 1 ==> k2 != node_key(*transformers, #[trigger] nodes@[x]))
                    implies #[trigger] cached_result(tracker@, k2) == cached_result(old(tracker)@, k2) by {
                assert(k2 != node_key(*transformers, nodes@[next as int]));
                assert forall|x: int| 0 <= x < next implies k2 != node_key(*transformers, #[trigger] before_nodes[x]) by {
                    assert(nodes@[x] == before_nodes[x]);
                }
            }
            assert forall|x: int| 0 <= x < next + 1 implies (#[trigger] cached_result(
                tracker@,
                target_key(*transformers, nodes@[x].target),
            )) is Some by {
                if x < next {
                    assert(nodes@[x] == before_nodes[x]);
                }
            }
            assert forall|x: int, j: int|
                0 <= x < next + 1 && 0 <= j < nodes@[x].result.dependencies@.len() implies has_edge(
                    *resolver,
                    edges@,
                    targets@,
                    x,
                    #[trigger] nodes@[x].result.dependencies@[j],
                    nodes@[x].target.file_path@,
                ) by {
                if x < next {
                    assert(nodes@[x] == before_nodes[x]);
                }
            }
        }
        next += 1;
    }
    let g = AssetGraph { nodes, edges, entries: entry_nodes };
    proof {
        let ts = Seq::new(g.nodes@.len(), |x: int| g.nodes@[x].target);
        assert forall|i: int| 0 <= i < targets@.len() implies same_target(ts[i], targets@[i]) by {
        }
        assert forall|k: int, j: int|
            0 <= k < g.nodes@.len() && 0 <= j < g.nodes@[k].result.dependencies@.len() implies has_edge(
                *resolver,
                g.edges@,
                ts,
                k,
                #[trigger] g.nodes@[k].result.dependencies@[j],
                g.nodes@[k].target.file_path@,
            ) by {
            lemma_has_edge_kept(*resolver, g.edges@, g.edges@, targets@, ts, k,
                g.nodes@[k].result.dependencies@[j], g.nodes@[k].target.file_path@);
        }
        assert forall|k: int| 0 <= k < entries@.len() implies entry_resolves_to(
            *resolver,
            entries@[k]@,
            env,
            g.nodes@[(#[trigger] g.entries@[k]) as int].target,
        ) by {
            assert(entry_at(*resolver, entries@, env, targets@, g.entries@, k));
            let d = choose|d: Dependency|
                #[trigger] is_entry_dependency(d, entries@[k]@, env) && resolves_to(
                    *resolver,
                    d,
                    None,
                    targets@[g.entries@[k] as int],
                );
            assert(same_target(g.nodes@[g.entries@[k] as int].target, targets@[g.entries@[k] as int]));
            assert(is_entry_dependency(d, entries@[k]@, env));
        }
        assert(graph_closed(*resolver, g));
        assert forall|x: int| 0 <= x < g.nodes@.len() implies #[trigger] reached(g, x) by {
            lemma_reachable_from_entry(g, x);
        }
        assert forall|k: int| 0 <= k < g.nodes@.len() && keys_distinct(*transformers, g) implies recorded(
            *transformers,
            tracker@,
            #[trigger] g.nodes@[k],
        ) && result_origin(*transformer, *fs, *transformers, old(tracker)@, g.nodes@[k]) by {
            assert(key_unique_among(*transformers, g.nodes@, k, g.nodes@.len() as int));
        }
        assert(entries_resolved(*resolver, entries@, env, g));
        assert forall|a: int, b: int| 0 <= a < b < g.nodes@.len() implies !same_target(
            #[trigger] g.nodes@[a].target,
            #[trigger] g.nodes@[b].target,
        ) by {
            assert(same_target(g.nodes@[a].target, targets@[a]));
            assert(same_target(g.nodes@[b].target, targets@[b]));
            assert(!same_target(targets@[a], targets@[b]));
        }
    }
    Ok(g)
}

/// A build session: the entries, the configuration and the request
/// tracker that carries results from one build to the next.
pub struct Parcel {
    pub request_tracker: RequestTracker<AssetRequestResult>,
    pub entries: Vec<Vec<u8>>,
    pub env: u32,
    pub transformers: PipelineMap,
}

impl Parcel {
    pub fn new(entries: Vec<Vec<u8>>, env: u32, transformers: PipelineMap) -> (r: Self)
        ensures
            r.request_tracker.wf(),
            r.request_tracker@.len() == 0,
            r.entries == entries,
            r.env == env,
            r.transformers == transformers,
    {
        Parcel { request_tracker: RequestTracker::new(), entries, env, transformers }
    }

    /// Starts a build with the file events since the last one, then builds
    /// the graph, reusing every result the events left clean.
    pub fn build<T: Transformer, R: Resolver, F: FileSystem, C: Cache>(
        &mut self,
        events: &Vec<FileEvent>,
        transformer: &T,
        resolver: &R,
        fs: &F,
        cache: &mut C,
    ) -> (r: Result<AssetGraph, Vec<Diagnostic>>)
        requires
            old(self).request_tracker.wf(),
        ensures
            final(self).request_tracker.wf(),
            final(self).entries == old(self).entries,
            r matches Ok(g) ==> graph_wf(g) && g.entries@.len() == old(self).entries@.len()
                && graph_closed(*resolver, g) && entries_resolved(
                *resolver,
                old(self).entries@,
                old(self).env,
                g,
            ) && forall|k: int|
                0 <= k < g.nodes@.len() ==> (#[trigger] cached_result(
                    final(self).request_tracker@,
                    target_key(old(self).transformers, g.nodes@[k].target),
                )) is Some,
            old(self).entries@.len() == 0 ==> (r matches Ok(g) && g.nodes@.len() == 0),
            r matches Ok(g) ==> forall|x: int| 0 <= x < g.nodes@.len() ==> #[trigger] reached(g, x),
            r matches Err(d) ==> resolver_fails(*resolver, d) || is_graph_limit(d) || exists|
                t: Resolution,
            | #[trigger] request_fails(*transformer, *fs, old(self).transformers, t, d),
            exists|mid: Seq<RequestNode<AssetRequestResult>>|
                #[trigger] after_events(old(self).request_tracker@, events@, mid) && (r matches Ok(g)
                    ==> graph_tracked(
                    *transformer,
                    *fs,
                    old(self).transformers,
                    mid,
                    final(self).request_tracker@,
                    g,
                )),
    {
        self.request_tracker.next_build(events);
        let ghost mid = self.request_tracker@;
        build_graph(
            &self.entries,
            self.env,
            &self.transformers,
            &mut self.request_tracker,
            transformer,
            resolver,
            fs,
            cache,
        )
    }
}

/// Builds the asset graph of `entries` from scratch.
pub fn build<T: Transformer, R: Resolver, F: FileSystem, C: Cache>(
    entries: Vec<Vec<u8>>,
    env: u32,
    transformers: PipelineMap,
    transformer: &T,
    resolver: &R,
    fs: &F,
    cache: &mut C,
) -> (r: Result<AssetGraph, Vec<Diagnostic>>)
    ensures
        r matches Ok(g) ==> graph_wf(g) && g.entries@.len() == entries@.len() && graph_closed(
            *resolver,
            g,
        ) && entries_resolved(*resolver, entries@, env, g),
        entries@.len() == 0 ==> (r matches Ok(g) && g.nodes@.len() == 0),
        r matches Ok(g) ==> forall|x: int| 0 <= x < g.nodes@.len() ==> #[trigger] reached(g, x),
        r matches Err(d) ==> resolver_fails(*resolver, d) || is_graph_limit(d) || exists|t: Resolution|
            #[trigger] request_fails(*transformer, *fs, transformers, t, d),
        r matches Ok(g) ==> keys_distinct(transformers, g) ==> forall|k: int|
            0 <= k < g.nodes@.len() ==> request_gives(
                *transformer,
                *fs,
                transformers,
                (#[trigger] g.nodes@[k]).target,
                g.nodes@[k].result,
            ),
{
    let mut parcel = Parcel::new(entries, env, transformers);
    let events: Vec<FileEvent> = Vec::new();
    let ghost start = parcel.request_tracker@;
    let r = parcel.build(&events, transformer, resolver, fs, cache);
    proof {
        let mid = choose|mid: Seq<RequestNode<AssetRequestResult>>|
            #[trigger] after_events(start, events@, mid) && (
            r matches Ok(g) ==> graph_tracked(
                *transformer,
                *fs,
                transformers,
                mid,
                parcel.request_tracker@,
                g,
            ));
        assert(mid.len() == 0);
        assert forall|key: u64| #[trigger] cached_result(mid, key) is None by {
            assert(index_of_key(mid, key) is None);
        }
    }
    r
}

/// Incremental rebuild: in a build started with `events` (a `Parcel::build`
/// whose tracker went from `before` through `mid` to `after`), a node whose
/// request the tracker held reuses that result exactly when the last run
/// succeeded and no path of child edges leads from the request to one left
/// dirty or hit by an event; otherwise the request runs again.
pub proof fn lemma_rebuild_reruns_exactly_reachable<T: Transformer, F: FileSystem>(
    tr: T,
    fs: F,
    map: PipelineMap,
    before: Seq<RequestNode<AssetRequestResult>>,
    events: Seq<FileEvent>,
    mid: Seq<RequestNode<AssetRequestResult>>,
    after: Seq<RequestNode<AssetRequestResult>>,
    g: AssetGraph,
    k: int,
    i: int,
)
    requires
        keys_unique(before),
        after_events(before, events, mid),
        graph_tracked(tr, fs, map, mid, after, g),
        keys_distinct(map, g),
        0 <= k < g.nodes@.len(),
        0 <= i < before.len(),
        before[i].key == node_key(map, g.nodes@[k]),
    ensures
        (before[i].result is Some && !reachable(before, events, i)) ==> same_result(
            g.nodes@[k].result,
            before[i].result->Some_0,
        ),
        (before[i].result is None || reachable(before, events, i)) ==> request_gives(
            tr,
            fs,
            map,
            g.nodes@[k].target,
            g.nodes@[k].result,
        ),
{
    lemma_rerun_exactly_stale(before, events, mid, i);
    assert(result_origin(tr, fs, map, mid, g.nodes@[k]));
}

} // verus!
