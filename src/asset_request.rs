//! The asset request: runs a file through its transformer chain and hashes
//! the outcome.
use vstd::prelude::*;
use crate::bytes::{
    bytes_copy, enc_bytes, enc_opt, enc_u64, hex16, hex_digits, push_bytes, push_opt, push_u64, xxh3_64,
    xxh3_64_of,
};
use crate::path::{extension, has_component, path_has_component, path_with_extension, with_extension};
use crate::request_tracker::RequestResult;
use crate::types::{
    chain_for, chains_equal, extension_of_type, has_flag, opt_bytes, opt_bytes_copy,
    type_of_extension, Asset, AssetStats, AssetType, Dependency, Diagnostic, DiagnosticKind,
    Invalidation, PipelineEntry, PipelineMap, PluginNode, IS_BUNDLE_SPLITTABLE, IS_SOURCE,
    SIDE_EFFECTS,
};

verus! {

/// How many times one pipeline run may switch to another chain.
pub const MAX_PIPELINE_RESTARTS: u32 = 16;

/// The bytes `node_modules`.
pub open spec fn node_modules() -> Seq<u8> {
    seq![110u8, 111u8, 100u8, 101u8, 95u8, 109u8, 111u8, 100u8, 117u8, 108u8, 101u8, 115u8]
}

/// The flags a fresh asset starts with.
pub open spec fn initial_flags(path: Seq<u8>, side_effects: bool) -> u32 {
    (IS_BUNDLE_SPLITTABLE + (if has_component(path, node_modules()) {
        0u32
    } else {
        IS_SOURCE
    }) + (if side_effects {
        SIDE_EFFECTS
    } else {
        0u32
    })) as u32
}

/// The asset a request starts from, before any transformer ran.
pub open spec fn is_initial_asset(
    a: Asset,
    file_path: Seq<u8>,
    env: u32,
    pipeline: Option<Seq<u8>>,
    side_effects: bool,
) -> bool {
    &&& a.file_path@ == file_path
    &&& a.env == env
    &&& opt_bytes(a.pipeline) == pipeline
    &&& a.asset_type == type_of_extension(extension(file_path))
    &&& a.content_key == 0
    &&& a.output_hash == 0
    &&& a.flags == initial_flags(file_path, side_effects)
    &&& a.stats == AssetStats { size: 0, time: 0 }
    &&& a.unique_key is None
}

/// The bytes an asset's identity hash is taken over.
pub open spec fn asset_identity(a: Asset) -> Seq<u8> {
    enc_bytes(a.file_path@) + enc_u64(a.env as u64) + enc_opt(opt_bytes(a.pipeline)) + enc_bytes(
        extension_of_type(a.asset_type),
    ) + enc_opt(opt_bytes(a.unique_key))
}

/// The identity hash of an asset.
pub open spec fn asset_id(a: Asset) -> u64 {
    xxh3_64_of(asset_identity(a))
}

/// The asset a request starts from.
pub fn initial_asset(file_path: &[u8], env: u32, pipeline: &Option<Vec<u8>>, side_effects: bool) -> (r: Asset)
    ensures
        is_initial_asset(r, file_path@, env, opt_bytes(*pipeline), side_effects),
        has_flag(r.flags, IS_SOURCE) == !has_component(file_path@, node_modules()),
        has_flag(r.flags, SIDE_EFFECTS) == side_effects,
        has_flag(r.flags, IS_BUNDLE_SPLITTABLE),
{
    let name = vec![110u8, 111u8, 100u8, 101u8, 95u8, 109u8, 111u8, 100u8, 117u8, 108u8, 101u8, 115u8];
    assert(name@ == node_modules());
    let in_packages = path_has_component(file_path, name.as_slice());
    let source: u32 = if in_packages {
        0
    } else {
        IS_SOURCE
    };
    let effects: u32 = if side_effects {
        SIDE_EFFECTS
    } else {
        0
    };
    let flags: u32 = IS_BUNDLE_SPLITTABLE + source + effects;
    assert((flags & 1u32 != 0) == (source == 1u32) && (flags & 2u32 != 0) == (effects == 2u32) && (
    flags & 4u32 != 0)) by (bit_vector)
        requires
            flags == 4u32 + source + effects,
            source == 0u32 || source == 1u32,
            effects == 0u32 || effects == 2u32,
    ;
    Asset {
        file_path: bytes_copy(file_path),
        env,
        pipeline: opt_bytes_copy(pipeline),
        asset_type: AssetType::from_path(file_path),
        content_key: 0,
        output_hash: 0,
        flags,
        stats: AssetStats { size: 0, time: 0 },
        unique_key: None,
    }
}

/// The identity hash of `a`.
pub fn asset_id_of(a: &Asset) -> (r: u64)
    ensures
        r == asset_id(*a),
{
    let mut out: Vec<u8> = Vec::new();
    push_bytes(&mut out, a.file_path.as_slice());
    push_u64(&mut out, a.env as u64);
    push_opt(&mut out, &a.pipeline);
    let ext = a.asset_type.extension();
    push_bytes(&mut out, ext.as_slice());
    push_opt(&mut out, &a.unique_key);
    assert(out@ =~= asset_identity(*a));
    xxh3_64(out.as_slice())
}

/// What a transformer, or a whole chain, hands back.
#[derive(Clone, Debug, PartialEq, Eq)]
pub struct TransformerResult {
    pub asset: Asset,
    pub code: Vec<u8>,
    pub dependencies: Vec<Dependency>,
    pub invalidations: Vec<Invalidation>,
}

/// Runs transformer plugins; implemented by the host, in process or through
/// a worker farm. A transformer is a function of its plugin, asset and bytes.
pub trait Transformer {
    /// What running `plugin` on `asset` and `code` gives.
    closed spec fn transform_spec(&self, plugin: PluginNode, asset: Asset, code: Seq<u8>) -> Result<
        TransformerResult,
        Vec<Diagnostic>,
    > {
        arbitrary()
    }

    /// Runs `plugin` on `asset` and its bytes.
    fn transform(&self, plugin: &PluginNode, asset: Asset, code: Vec<u8>) -> (r: Result<
        TransformerResult,
        Vec<Diagnostic>,
    >)
        ensures
            r == self.transform_spec(*plugin, asset, code@),
    ;
}

/// Read access to the files of the project, implemented by the host.
pub trait FileSystem {
    /// The contents of the file at `path`, or `None` when it cannot be read.
    closed spec fn read_spec(&self, path: Seq<u8>) -> Option<Seq<u8>> {
        arbitrary()
    }

    /// The bytes of the file at `path`, or `None` when it cannot be read.
    fn read(&self, path: &[u8]) -> (r: Option<Vec<u8>>)
        ensures
            opt_bytes(r) == self.read_spec(path@),
    ;
}

/// The blob cache, implemented by the host.
pub trait Cache {
    /// The writes made so far, as `(key, bytes)` pairs, oldest first.
    closed spec fn writes(&self) -> Seq<(Seq<u8>, Seq<u8>)> {
        arbitrary()
    }

    fn set(&mut self, key: Vec<u8>, bytes: Vec<u8>)
        ensures
            final(self).writes() == old(self).writes().push((key@, bytes@)),
    ;
}

/// The chain a pipeline switches to when a transformer left `asset` with a
/// new type: the chain for its path with the new type's extension.
pub open spec fn restart_chain(transformers: PipelineMap, asset: Asset) -> Seq<PluginNode> {
    chain_for(
        transformers.entries@,
        with_extension(asset.file_path@, extension_of_type(asset.asset_type)),
        opt_bytes(asset.pipeline),
        false,
    )
}

/// What a pipeline does after one transformer ran.
pub enum PipelineStep {
    /// Go on with the current chain.
    Continue,
    /// Start over with this chain, dropping the rest of the current one.
    Restart(Vec<PluginNode>),
}

/// Decides, after a transformer turned an asset of type `previous` into
/// `transformed`, whether the pipeline goes on or restarts: it restarts
/// exactly when the type changed and the chain for the new type differs
/// from `chain`.
pub fn next_step(
    transformers: &PipelineMap,
    chain: &Vec<PluginNode>,
    previous: AssetType,
    transformed: &Asset,
) -> (r: PipelineStep)
    ensures
        match r {
            PipelineStep::Restart(next) => {
                &&& transformed.asset_type != previous
                &&& next@ == restart_chain(*transformers, *transformed)
                &&& next@ != chain@
            },
            PipelineStep::Continue => transformed.asset_type == previous || restart_chain(
                *transformers,
                *transformed,
            ) == chain@,
        },
{
    if transformed.asset_type == previous {
        return PipelineStep::Continue;
    }
    let ext = transformed.asset_type.extension();
    let next_path = path_with_extension(transformed.file_path.as_slice(), ext.as_slice());
    let next = transformers.get(next_path.as_slice(), &transformed.pipeline, false);
    if chains_equal(&next, chain) {
        PipelineStep::Continue
    } else {
        PipelineStep::Restart(next)
    }
}

/// What running a chain comes to.
pub enum RunOutcome {
    /// Every transformer succeeded: the last asset and bytes, and the
    /// dependencies and invalidations of all of them, in order.
    Done {
        asset: Asset,
        code: Seq<u8>,
        dependencies: Seq<Dependency>,
        invalidations: Seq<Invalidation>,
    },
    /// A transformer's diagnostics, unchanged.
    Failed(Vec<Diagnostic>),
    /// A restart was due with none left; the path of the asset then.
    RestartLimit(Seq<u8>),
}

/// Running `chain` from its `i`-th transformer on `asset` and `code`, with
/// `deps` and `invs` gathered so far and `restarts` restarts left. Each
/// transformer gets the previous one's asset and bytes; its dependencies and
/// invalidations are appended. When it changes the asset's type and the
/// chain for the new type differs from `chain`, the run goes on with that
/// chain from its start instead.
pub open spec fn run_from<T: Transformer>(
    t: T,
    map: PipelineMap,
    chain: Seq<PluginNode>,
    i: nat,
    asset: Asset,
    code: Seq<u8>,
    deps: Seq<Dependency>,
    invs: Seq<Invalidation>,
    restarts: nat,
) -> RunOutcome
    decreases restarts, chain.len() - i,
{
    if i >= chain.len() {
        RunOutcome::Done { asset, code, dependencies: deps, invalidations: invs }
    } else {
        match t.transform_spec(chain[i as int], asset, code) {
            Err(d) => RunOutcome::Failed(d),
            Ok(tr) => {
                let deps2 = deps + tr.dependencies@;
                let invs2 = invs + tr.invalidations@;
                if tr.asset.asset_type != asset.asset_type && restart_chain(map, tr.asset) != chain {
                    if restarts == 0 {
                        RunOutcome::RestartLimit(tr.asset.file_path@)
                    } else {
                        run_from(
                            t,
                            map,
                            restart_chain(map, tr.asset),
                            0,
                            tr.asset,
                            tr.code@,
                            deps2,
                            invs2,
                            (restarts - 1) as nat,
                        )
                    }
                } else {
                    run_from(t, map, chain, i + 1, tr.asset, tr.code@, deps2, invs2, restarts)
                }
            },
        }
    }
}

/// What `run_pipeline` comes to.
pub open spec fn run_spec<T: Transformer>(
    t: T,
    map: PipelineMap,
    chain: Seq<PluginNode>,
    asset: Asset,
    code: Seq<u8>,
) -> RunOutcome {
    run_from(
        t,
        map,
        chain,
        0,
        asset,
        code,
        Seq::empty(),
        Seq::empty(),
        MAX_PIPELINE_RESTARTS as nat,
    )
}

/// One step of a run, at any position: after the transformer at `i`
/// returns `t`, the run goes on with the chain for the new type from its
/// start when the type changed and that chain differs (restarts left), and
/// with the next transformer of the same chain otherwise; either way on
/// `t`'s asset and bytes, with its dependencies and invalidations appended.
pub proof fn lemma_run_step<T: Transformer>(
    tr: T,
    map: PipelineMap,
    chain: Seq<PluginNode>,
    i: nat,
    asset: Asset,
    code: Seq<u8>,
    deps: Seq<Dependency>,
    invs: Seq<Invalidation>,
    restarts: nat,
    t: TransformerResult,
)
    requires
        i < chain.len(),
        tr.transform_spec(chain[i as int], asset, code) == Ok::<TransformerResult, Vec<Diagnostic>>(t),
    ensures
        (t.asset.asset_type != asset.asset_type && restart_chain(map, t.asset) != chain && restarts
            > 0) ==> run_from(tr, map, chain, i, asset, code, deps, invs, restarts) == run_from(
            tr,
            map,
            restart_chain(map, t.asset),
            0,
            t.asset,
            t.code@,
            deps + t.dependencies@,
            invs + t.invalidations@,
            (restarts - 1) as nat,
        ),
        (t.asset.asset_type == asset.asset_type || restart_chain(map, t.asset) == chain) ==> run_from(
            tr,
            map,
            chain,
            i,
            asset,
            code,
            deps,
            invs,
            restarts,
        ) == run_from(
            tr,
            map,
            chain,
            i + 1,
            t.asset,
            t.code@,
            deps + t.dependencies@,
            invs + t.invalidations@,
            restarts,
        ),
{
}

/// A chain of one plugin that changes the asset's type to one whose chain
/// differs hands over to that chain: when the new chain is one plugin that
/// keeps the type, the run ends with that plugin's output, and both
/// plugins' dependencies and invalidations.
pub proof fn lemma_type_change_hands_over<T: Transformer>(
    t: T,
    map: PipelineMap,
    first: PluginNode,
    second: PluginNode,
    asset: Asset,
    code: Seq<u8>,
    a: TransformerResult,
    b: TransformerResult,
)
    requires
        t.transform_spec(first, asset, code) == Ok::<TransformerResult, Vec<Diagnostic>>(a),
        a.asset.asset_type != asset.asset_type,
        restart_chain(map, a.asset) == seq![second],
        second != first,
        t.transform_spec(second, a.asset, a.code@) == Ok::<TransformerResult, Vec<Diagnostic>>(b),
        b.asset.asset_type == a.asset.asset_type,
    ensures
        run_spec(t, map, seq![first], asset, code) == (RunOutcome::Done {
            asset: b.asset,
            code: b.code@,
            dependencies: a.dependencies@ + b.dependencies@,
            invalidations: a.invalidations@ + b.invalidations@,
        }),
{
    let e1 = Seq::<Dependency>::empty();
    let e2 = Seq::<Invalidation>::empty();
    assert(seq![second] != seq![first]) by {
        assert(seq![second][0] != seq![first][0]);
    }
    assert(e1 + a.dependencies@ =~= a.dependencies@);
    assert(e2 + a.invalidations@ =~= a.invalidations@);
    let m = (MAX_PIPELINE_RESTARTS - 1) as nat;
    assert(seq![first][0] == first);
    assert(seq![second][0] == second);
    let d1 = e1 + a.dependencies@;
    let i1 = e2 + a.invalidations@;
    assert(run_from(t, map, seq![second], 1, b.asset, b.code@, d1 + b.dependencies@,
        i1 + b.invalidations@, m) == (RunOutcome::Done {
        asset: b.asset,
        code: b.code@,
        dependencies: d1 + b.dependencies@,
        invalidations: i1 + b.invalidations@,
    }));
    assert(run_from(t, map, seq![second], 0, a.asset, a.code@, d1, i1, m) == run_from(t, map,
        seq![second], 1, b.asset, b.code@, d1 + b.dependencies@, i1 + b.invalidations@, m));
    assert(run_from(t, map, seq![first], 0, asset, code, e1, e2, MAX_PIPELINE_RESTARTS as nat)
        == run_from(t, map, seq![second], 0, a.asset, a.code@, d1, i1, m));
}

/// `r` is what outcome `o` returns.
pub open spec fn returns_outcome(r: Result<TransformerResult, Vec<Diagnostic>>, o: RunOutcome) -> bool {
    match o {
        RunOutcome::Done { asset, code, dependencies, invalidations } => r matches Ok(res)
            && res.asset == asset && res.code@ == code && res.dependencies@ == dependencies
            && res.invalidations@ == invalidations,
        RunOutcome::Failed(d) => r == Err::<TransformerResult, Vec<Diagnostic>>(d),
        RunOutcome::RestartLimit(p) => is_restart_limit(r, p),
    }
}

/// `r` is the single `PipelineRestartLimit` diagnostic for the file at `p`.
pub open spec fn is_restart_limit<A>(r: Result<A, Vec<Diagnostic>>, p: Seq<u8>) -> bool {
    r matches Err(v) && v@.len() == 1 && v@[0].kind == DiagnosticKind::PipelineRestartLimit
        && v@[0].message@.len() == 0 && opt_bytes(v@[0].file_path) == Some(p)
}

fn run_chain<T: Transformer>(
    chain: Vec<PluginNode>,
    asset: Asset,
    code: Vec<u8>,
    deps: Vec<Dependency>,
    invs: Vec<Invalidation>,
    transformers: &PipelineMap,
    transformer: &T,
    restarts_left: u32,
) -> (r: Result<TransformerResult, Vec<Diagnostic>>)
    ensures
        returns_outcome(
            r,
            run_from(
                *transformer,
                *transformers,
                chain@,
                0,
                asset,
                code@,
                deps@,
                invs@,
                restarts_left as nat,
            ),
        ),
    decreases restarts_left,
{
    let ghost goal = run_from(
        *transformer,
        *transformers,
        chain@,
        0,
        asset,
        code@,
        deps@,
        invs@,
        restarts_left as nat,
    );
    let mut current = asset;
    let mut bytes = code;
    let mut dependencies = deps;
    let mut invalidations = invs;
    let mut i: usize = 0;
    while i < chain.len()
        invariant
            0 <= i <= chain@.len(),
            goal == run_from(
                *transformer,
                *transformers,
                chain@,
                0,
                asset,
                code@,
                deps@,
                invs@,
                restarts_left as nat,
            ),
            goal == run_from(
                *transformer,
                *transformers,
                chain@,
                i as nat,
                current,
                bytes@,
                dependencies@,
                invalidations@,
                restarts_left as nat,
            ),
        decreases chain@.len() - i,
    {
        let previous = current.asset_type;
        let ghost before = current;
        let transformed = match transformer.transform(&chain[i], current, bytes) {
            Ok(t) => t,
            Err(e) => return Err(e),
        };
        let step = next_step(transformers, &chain, previous, &transformed.asset);
        let ghost tr = transformed;
        let TransformerResult {
            asset: next_asset,
            code: next_code,
            dependencies: mut ds,
            invalidations: mut is,
        } = transformed;
        dependencies.append(&mut ds);
        invalidations.append(&mut is);
        match step {
            PipelineStep::Restart(next) => {
                if restarts_left == 0 {
                    return Err(
                        vec![Diagnostic {
                            kind: DiagnosticKind::PipelineRestartLimit,
                            message: Vec::new(),
                            file_path: Some(bytes_copy(next_asset.file_path.as_slice())),
                        }],
                    );
                }
                return run_chain(
                    next,
                    next_asset,
                    next_code,
                    dependencies,
                    invalidations,
                    transformers,
                    transformer,
                    restarts_left - 1,
                );
            },
            PipelineStep::Continue => {},
        }
        current = next_asset;
        bytes = next_code;
        i += 1;
    }
    Ok(TransformerResult { asset: current, code: bytes, dependencies, invalidations })
}

/// Runs `asset` and its bytes through `pipeline` in order (see `run_from`).
/// A transformer's diagnostics stop the run and are returned unchanged. When
/// a transformer changes the asset's type and the chain for the new type
/// differs (see `next_step`), the run goes on with that chain from the
/// transformed asset and bytes, keeping what was gathered. So that every run
/// ends, at most `MAX_PIPELINE_RESTARTS` restarts are made; a further one
/// fails with a `PipelineRestartLimit` diagnostic. An empty chain hands the
/// asset and bytes back as they are.
pub fn run_pipeline<T: Transformer>(
    pipeline: Vec<PluginNode>,
    asset: Asset,
    code: Vec<u8>,
    transformers: &PipelineMap,
    transformer: &T,
) -> (r: Result<TransformerResult, Vec<Diagnostic>>)
    ensures
        returns_outcome(r, run_spec(*transformer, *transformers, pipeline@, asset, code@)),
{
    let deps: Vec<Dependency> = Vec::new();
    let invs: Vec<Invalidation> = Vec::new();
    assert(deps@ =~= Seq::<Dependency>::empty());
    assert(invs@ =~= Seq::<Invalidation>::empty());
    let r = run_chain(
        pipeline,
        asset,
        code,
        deps,
        invs,
        transformers,
        transformer,
        MAX_PIPELINE_RESTARTS,
    );
    r
}

/// The plugin identifiers of a chain, eight bytes each.
pub open spec fn enc_chain(c: Seq<PluginNode>) -> Seq<u8>
    decreases c.len(),
{
    if c.len() == 0 {
        Seq::empty()
    } else {
        enc_chain(c.drop_last()) + enc_u64(c.last().id as u64)
    }
}

pub open spec fn enc_entry(e: PipelineEntry) -> Seq<u8> {
    enc_bytes(e.extension@) + enc_opt(opt_bytes(e.pipeline)) + enc_u64(e.chain@.len() as u64)
        + enc_chain(e.chain@)
}

pub open spec fn enc_entries(es: Seq<PipelineEntry>) -> Seq<u8>
    decreases es.len(),
{
    if es.len() == 0 {
        Seq::empty()
    } else {
        enc_entries(es.drop_last()) + enc_entry(es.last())
    }
}

/// The bytes a pipeline map contributes to a request's identity.
pub open spec fn enc_map(m: PipelineMap) -> Seq<u8> {
    enc_u64(m.entries@.len() as u64) + enc_entries(m.entries@)
}

fn push_chain(out: &mut Vec<u8>, c: &Vec<PluginNode>)
    ensures
        final(out)@ == old(out)@ + enc_chain(c@),
{
    let mut i: usize = 0;
    while i < c.len()
        invariant
            0 <= i <= c@.len(),
            out@ == old(out)@ + enc_chain(c@.subrange(0, i as int)),
        decreases c@.len() - i,
    {
        push_u64(out, c[i].id as u64);
        proof {
            let next = c@.subrange(0, i + 1);
            assert(next.drop_last() =~= c@.subrange(0, i as int));
            assert(next.last() == c@[i as int]);
        }
        i += 1;
        assert(out@ =~= old(out)@ + enc_chain(c@.subrange(0, i as int)));
    }
    assert(c@.subrange(0, c@.len() as int) =~= c@);
}

fn push_map(out: &mut Vec<u8>, m: &PipelineMap)
    ensures
        final(out)@ == old(out)@ + enc_map(*m),
{
    push_u64(out, m.entries.len() as u64);
    let ghost start = out@;
    let mut i: usize = 0;
    while i < m.entries.len()
        invariant
            0 <= i <= m.entries@.len(),
            out@ == start + enc_entries(m.entries@.subrange(0, i as int)),
        decreases m.entries@.len() - i,
    {
        let e = &m.entries[i];
        let ghost before = out@;
        push_bytes(out, e.extension.as_slice());
        push_opt(out, &e.pipeline);
        push_u64(out, e.chain.len() as u64);
        push_chain(out, &e.chain);
        assert(out@ =~= before + enc_entry(*e));
        proof {
            let next = m.entries@.subrange(0, i + 1);
            assert(next.drop_last() =~= m.entries@.subrange(0, i as int));
            assert(next.last() == m.entries@[i as int]);
        }
        i += 1;
        assert(out@ =~= start + enc_entries(m.entries@.subrange(0, i as int)));
    }
    assert(m.entries@.subrange(0, m.entries@.len() as int) =~= m.entries@);
    assert(out@ =~= old(out)@ + enc_map(*m));
}

/// Work that turns one file into one asset. Its key hashes all its inputs.
pub struct AssetRequest<'a> {
    pub transformers: &'a PipelineMap,
    pub file_path: Vec<u8>,
    /// Bytes to use in place of the file's contents.
    pub code: Option<Vec<u8>>,
    pub pipeline: Option<Vec<u8>>,
    /// Interned handle of the environment.
    pub env: u32,
    pub side_effects: bool,
}

/// The asset a request produced and the dependencies it declares.
#[derive(Clone, Debug, PartialEq, Eq)]
pub struct AssetRequestResult {
    pub asset: Asset,
    pub dependencies: Vec<Dependency>,
}

/// Two dependencies hold the same bytes and values.
pub open spec fn same_dependency(a: Dependency, b: Dependency) -> bool {
    a.specifier@ == b.specifier@ && a.env == b.env && a.priority == b.priority && opt_bytes(
        a.pipeline,
    ) == opt_bytes(b.pipeline)
}

/// Two assets hold the same bytes and values.
pub open spec fn same_asset(a: Asset, b: Asset) -> bool {
    &&& a.file_path@ == b.file_path@
    &&& a.env == b.env
    &&& opt_bytes(a.pipeline) == opt_bytes(b.pipeline)
    &&& a.asset_type == b.asset_type
    &&& a.content_key == b.content_key
    &&& a.output_hash == b.output_hash
    &&& a.flags == b.flags
    &&& a.stats == b.stats
    &&& opt_bytes(a.unique_key) == opt_bytes(b.unique_key)
}

/// Two request results hold the same bytes and values.
pub open spec fn same_result(a: AssetRequestResult, b: AssetRequestResult) -> bool {
    &&& same_asset(a.asset, b.asset)
    &&& a.dependencies@.len() == b.dependencies@.len()
    &&& forall|i: int|
        0 <= i < a.dependencies@.len() ==> same_dependency(
            #[trigger] a.dependencies@[i],
            b.dependencies@[i],
        )
}

/// Holding the same bytes and values goes both ways.
pub proof fn lemma_same_result_symmetric_all()
    ensures
        forall|a: AssetRequestResult, b: AssetRequestResult|
            #[trigger] same_result(a, b) ==> same_result(b, a),
{
    assert forall|a: AssetRequestResult, b: AssetRequestResult| #[trigger] same_result(a, b) implies same_result(b, a) by {
        assert forall|i: int| 0 <= i < b.dependencies@.len() implies same_dependency(
            #[trigger] b.dependencies@[i],
            a.dependencies@[i],
        ) by {
            assert(same_dependency(a.dependencies@[i], b.dependencies@[i]));
        }
    }
}

pub fn copy_dependency(d: &Dependency) -> (r: Dependency)
    ensures
        same_dependency(r, *d),
{
    Dependency {
        specifier: bytes_copy(d.specifier.as_slice()),
        env: d.env,
        priority: d.priority,
        pipeline: opt_bytes_copy(&d.pipeline),
    }
}

pub fn copy_asset(a: &Asset) -> (r: Asset)
    ensures
        same_asset(r, *a),
{
    Asset {
        file_path: bytes_copy(a.file_path.as_slice()),
        env: a.env,
        pipeline: opt_bytes_copy(&a.pipeline),
        asset_type: a.asset_type,
        content_key: a.content_key,
        output_hash: a.output_hash,
        flags: a.flags,
        stats: a.stats,
        unique_key: opt_bytes_copy(&a.unique_key),
    }
}

/// A copy of a request result.
pub fn copy_result(r: &AssetRequestResult) -> (c: AssetRequestResult)
    ensures
        same_result(c, *r),
{
    let mut deps: Vec<Dependency> = Vec::new();
    let mut i: usize = 0;
    while i < r.dependencies.len()
        invariant
            0 <= i <= r.dependencies@.len(),
            deps@.len() == i,
            forall|j: int| 0 <= j < i ==> same_dependency(#[trigger] deps@[j], r.dependencies@[j]),
        decreases r.dependencies@.len() - i,
    {
        deps.push(copy_dependency(&r.dependencies[i]));
        i += 1;
    }
    AssetRequestResult { asset: copy_asset(&r.asset), dependencies: deps }
}

/// The bytes a request's key is the hash of.
pub open spec fn request_identity(r: AssetRequest) -> Seq<u8> {
    enc_bytes(r.file_path@) + enc_opt(opt_bytes(r.code)) + enc_opt(opt_bytes(r.pipeline)) + enc_u64(
        r.env as u64,
    ) + seq![if r.side_effects { 1u8 } else { 0u8 }] + enc_map(*r.transformers)
}

/// `a` with the fields that depend on its final bytes filled in.
pub open spec fn is_finished(r: Asset, a: Asset, code: Seq<u8>) -> bool {
    &&& r.output_hash == xxh3_64_of(code)
    &&& r.content_key == asset_id(a)
    &&& r.stats == AssetStats { size: code.len() as u32, time: a.stats.time }
    &&& r.file_path == a.file_path
    &&& r.env == a.env
    &&& r.pipeline == a.pipeline
    &&& r.asset_type == a.asset_type
    &&& r.flags == a.flags
    &&& r.unique_key == a.unique_key
}

/// Fills in an asset's output hash, identity hash and size from its final
/// bytes.
pub fn finish_asset(a: Asset, code: &[u8]) -> (r: Asset)
    ensures
        is_finished(r, a, code@),
{
    let ghost a0 = a;
    let mut a = a;
    a.output_hash = xxh3_64(code);
    a.content_key = asset_id_of(&a);
    a.stats = AssetStats { size: code.len() as u32, time: a.stats.time };
    assert(asset_identity(a0) == asset_identity(
        Asset { output_hash: xxh3_64_of(code@), ..a0 },
    ));
    a
}

/// The file's invalidation that every asset request records.
pub open spec fn is_update_of(inv: Invalidation, path: Seq<u8>) -> bool {
    inv matches Invalidation::InvalidateOnFileUpdate(p) && p@ == path
}

/// The bytes a request transforms: the given code, else the file's.
pub open spec fn input_bytes<F: FileSystem>(r: AssetRequest, fs: F) -> Option<Seq<u8>> {
    match r.code {
        Some(c) => Some(c@),
        None => fs.read_spec(r.file_path@),
    }
}

/// `r` is the single `Io` diagnostic for the file at `path`.
pub open spec fn is_io_failure<A>(r: Result<A, Vec<Diagnostic>>, path: Seq<u8>) -> bool {
    r matches Err(v) && v@.len() == 1 && v@[0].kind == DiagnosticKind::Io && v@[0].message@.len()
        == 0 && opt_bytes(v@[0].file_path) == Some(path)
}

/// What a request whose chain came to `o` returns and writes to the cache
/// (from `w0` to `w1`); the final file-update invalidation is stated apart.
pub open spec fn request_outcome(
    r: RequestResult<AssetRequestResult>,
    o: RunOutcome,
    w0: Seq<(Seq<u8>, Seq<u8>)>,
    w1: Seq<(Seq<u8>, Seq<u8>)>,
) -> bool {
    match o {
        RunOutcome::Done { asset, code, dependencies, invalidations } => {
            &&& r.result matches Ok(res)
            &&& is_finished(res.asset, asset, code)
            &&& res.dependencies@ == dependencies
            &&& r.invalidations@.drop_last() == invalidations
            &&& w1 == w0.push((hex_digits(asset_id(asset) as nat, 16), code))
        },
        RunOutcome::Failed(d) => {
            &&& r.result == Err::<AssetRequestResult, Vec<Diagnostic>>(d)
            &&& r.invalidations@.len() == 1
            &&& w1 == w0
        },
        RunOutcome::RestartLimit(p) => {
            &&& is_restart_limit(r.result, p)
            &&& r.invalidations@.len() == 1
            &&& w1 == w0
        },
    }
}

impl<'a> AssetRequest<'a> {
    /// The request's key: the hash of all its inputs.
    pub fn id(&self) -> (r: u64)
        ensures
            r == xxh3_64_of(request_identity(*self)),
    {
        let mut out: Vec<u8> = Vec::new();
        push_bytes(&mut out, self.file_path.as_slice());
        push_opt(&mut out, &self.code);
        push_opt(&mut out, &self.pipeline);
        push_u64(&mut out, self.env as u64);
        out.push(if self.side_effects {
            1u8
        } else {
            0u8
        });
        push_map(&mut out, self.transformers);
        assert(out@ =~= request_identity(*self));
        xxh3_64(out.as_slice())
    }

    /// Transforms the file: looks up its chain, starts from the initial
    /// asset, takes the given bytes or else reads the file, runs the chain
    /// (`run_spec`), fills in hashes and size (`finish_asset`), and stores the
    /// final bytes in the cache under the hexadecimal identity hash. A file
    /// that cannot be read gives an `Io` diagnostic for its path; a failed
    /// chain gives its diagnostics unchanged; neither writes to the cache.
    /// Whatever the outcome, the invalidations end with an update of the file.
    pub fn run<T: Transformer, F: FileSystem, C: Cache>(
        self,
        transformer: &T,
        fs: &F,
        cache: &mut C,
    ) -> (r: RequestResult<AssetRequestResult>)
        ensures
            r.invalidations@.len() > 0,
            is_update_of(r.invalidations@.last(), self.file_path@),
            match input_bytes(self, *fs) {
                None => {
                    &&& is_io_failure(r.result, self.file_path@)
                    &&& r.invalidations@.len() == 1
                    &&& final(cache).writes() == old(cache).writes()
                },
                Some(bytes) => exists|a0: Asset|
                    #[trigger] is_initial_asset(
                        a0,
                        self.file_path@,
                        self.env,
                        opt_bytes(self.pipeline),
                        self.side_effects,
                    ) && request_outcome(
                        r,
                        run_spec(
                            *transformer,
                            *self.transformers,
                            chain_for(
                                self.transformers.entries@,
                                self.file_path@,
                                opt_bytes(self.pipeline),
                                false,
                            ),
                            a0,
                            bytes,
                        ),
                        old(cache).writes(),
                        final(cache).writes(),
                    ),
            },
    {
        let pipeline = self.transformers.get(self.file_path.as_slice(), &self.pipeline, false);
        let asset = initial_asset(self.file_path.as_slice(), self.env, &self.pipeline, self.side_effects);
        let ghost a0 = asset;
        let update = Invalidation::InvalidateOnFileUpdate(bytes_copy(self.file_path.as_slice()));
        let code = match self.code {
            Some(c) => c,
            None => match fs.read(self.file_path.as_slice()) {
                Some(c) => c,
                None => {
                    return RequestResult {
                        result: Err(
                            vec![Diagnostic {
                                kind: DiagnosticKind::Io,
                                message: Vec::new(),
                                file_path: Some(bytes_copy(self.file_path.as_slice())),
                            }],
                        ),
                        invalidations: vec![update],
                    };
                },
            },
        };
        match run_pipeline(pipeline, asset, code, self.transformers, transformer) {
            Ok(res) => {
                let TransformerResult { asset, code, dependencies, mut invalidations } = res;
                let ghost gathered = invalidations@;
                let asset = finish_asset(asset, code.as_slice());
                cache.set(hex16(asset.content_key), code);
                invalidations.push(update);
                assert(invalidations@.drop_last() =~= gathered);
                RequestResult {
                    result: Ok(AssetRequestResult { asset, dependencies }),
                    invalidations,
                }
            },
            Err(e) => RequestResult { result: Err(e), invalidations: vec![update] },
        }
    }
}

} // verus!
