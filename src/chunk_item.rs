//! Options of an ECMAScript chunk item, and the arguments its module factory
//! receives.
use vstd::prelude::*;

verus! {

#[derive(Clone, Copy, Debug, PartialEq, Eq, Hash, Structural)]
pub struct AsyncModuleOptions {
    pub has_top_level_await: bool,
}

#[derive(Clone, Copy, Debug, PartialEq, Eq, Hash, Structural)]
pub enum EcmascriptChunkItemRequireType {
    /// No require at all
    Absent,
    /// A throwing stub (for ESM)
    Stub,
    /// The real require
    Real,
}

impl Default for EcmascriptChunkItemRequireType {
    fn default() -> (r: EcmascriptChunkItemRequireType)
        ensures
            r == EcmascriptChunkItemRequireType::Absent,
    {
        EcmascriptChunkItemRequireType::Absent
    }
}

#[derive(Clone, Copy, Debug, PartialEq, Eq, Hash, Structural)]
pub struct EcmascriptChunkItemOptions {
    /// Whether this chunk item should be in "use strict" mode.
    pub strict: bool,
    /// Whether the module factory should include a refresh argument.
    pub refresh: bool,
    /// Whether the module factory should include a `module` argument.
    pub module: bool,
    /// Whether the module factory should include an `exports` argument.
    pub exports: bool,
    /// Whether the module factory should include a `__dirname` argument.
    pub dirname: bool,
    /// Which `require` argument the module factory should include.
    pub require: EcmascriptChunkItemRequireType,
    /// Whether the module factory should include external require and
    /// import arguments.
    pub externals: bool,
    /// Set when the module is async (it has a top level await or imports
    /// async modules).
    pub async_module: Option<AsyncModuleOptions>,
    /// Whether this chunk item accesses the module-global `this` object.
    pub this: bool,
    /// Whether the module factory should include the WebAssembly loaders.
    pub wasm: bool,
}

pub open spec fn default_options() -> EcmascriptChunkItemOptions {
    EcmascriptChunkItemOptions {
        strict: false,
        refresh: false,
        module: false,
        exports: false,
        dirname: false,
        require: EcmascriptChunkItemRequireType::Absent,
        externals: false,
        async_module: None,
        this: false,
        wasm: false,
    }
}

impl Default for EcmascriptChunkItemOptions {
    fn default() -> (r: EcmascriptChunkItemOptions)
        ensures
            r == default_options(),
    {
        EcmascriptChunkItemOptions {
            strict: false,
            refresh: false,
            module: false,
            exports: false,
            dirname: false,
            require: EcmascriptChunkItemRequireType::Absent,
            externals: false,
            async_module: None,
            this: false,
            wasm: false,
        }
    }
}

#[derive(Clone, Copy, Debug, PartialEq, Eq, Hash, Structural)]
pub enum ChunkItemError {
    /// A CommonJS module cannot be async.
    CjsModuleCannotBeAsync,
}

/// The options of an ESM chunk item: strict mode, with a throwing `require`
/// stub unless the module declares its own `require`.
pub open spec fn esm_options(
    refresh: bool,
    externals: bool,
    async_module: Option<AsyncModuleOptions>,
    declares_require: bool,
) -> EcmascriptChunkItemOptions {
    EcmascriptChunkItemOptions {
        strict: true,
        refresh,
        externals,
        async_module,
        require: if declares_require {
            EcmascriptChunkItemRequireType::Absent
        } else {
            EcmascriptChunkItemRequireType::Stub
        },
        ..default_options()
    }
}

/// The options of a CommonJS chunk item: the real `require`, and the
/// `module`, `exports`, `this` and `__dirname` globals.
pub open spec fn cjs_options(refresh: bool, externals: bool) -> EcmascriptChunkItemOptions {
    EcmascriptChunkItemOptions {
        refresh,
        externals,
        require: EcmascriptChunkItemRequireType::Real,
        module: true,
        exports: true,
        this: true,
        dirname: true,
        ..default_options()
    }
}

/// The code of a chunk item and the options its module factory is built with.
#[derive(Clone, Debug)]
pub struct EcmascriptChunkItemContent {
    pub inner_code: String,
    pub options: EcmascriptChunkItemOptions,
}

/// One argument of a module factory.
#[derive(Clone, Copy, Debug, PartialEq, Eq, Hash, Structural)]
pub enum FactoryArg {
    Require,
    ModuleContext,
    Import,
    Esm,
    ExportValue,
    ExportNamespace,
    Cache,
    Modules,
    Load,
    Dynamic,
    ResolveAbsolutePath,
    RelativeUrl,
    ResolveModuleIdPath,
    WorkerBlobUrl,
    Global,
    AsyncModule,
    ExternalRequire,
    ExternalImport,
    Refresh,
    Dirname,
    Module,
    Exports,
    RealRequire,
    RequireStub,
    Wasm,
    WasmModule,
}

/// The arguments every module factory receives.
pub open spec fn base_args() -> Seq<FactoryArg> {
    seq![
        FactoryArg::Require,
        FactoryArg::ModuleContext,
        FactoryArg::Import,
        FactoryArg::Esm,
        FactoryArg::ExportValue,
        FactoryArg::ExportNamespace,
        FactoryArg::Cache,
        FactoryArg::Modules,
        FactoryArg::Load,
        FactoryArg::Dynamic,
        FactoryArg::ResolveAbsolutePath,
        FactoryArg::RelativeUrl,
        FactoryArg::ResolveModuleIdPath,
        FactoryArg::WorkerBlobUrl,
        FactoryArg::Global,
    ]
}

#[verifier::opaque]
pub open spec fn when(cond: bool, args: Seq<FactoryArg>) -> Seq<FactoryArg> {
    if cond {
        args
    } else {
        Seq::empty()
    }
}

/// The arguments of a module factory built with options `o`, in order.
pub open spec fn factory_args(o: EcmascriptChunkItemOptions) -> Seq<FactoryArg> {
    base_args() + when(o.async_module is Some, seq![FactoryArg::AsyncModule]) + when(
        o.externals,
        seq![FactoryArg::ExternalRequire, FactoryArg::ExternalImport],
    ) + when(o.refresh, seq![FactoryArg::Refresh]) + when(o.dirname, seq![FactoryArg::Dirname])
        + when(o.module || o.refresh, seq![FactoryArg::Module]) + when(
        o.exports,
        seq![FactoryArg::Exports],
    ) + when(o.require == EcmascriptChunkItemRequireType::Real, seq![FactoryArg::RealRequire])
        + when(o.require == EcmascriptChunkItemRequireType::Stub, seq![FactoryArg::RequireStub])
        + when(o.wasm, seq![FactoryArg::Wasm, FactoryArg::WasmModule])
}

impl FactoryArg {
    /// The argument as it is written in the factory's parameter list.
    pub fn text(&self) -> &'static str {
        match self {
            FactoryArg::Require => "r: __turbopack_require__",
            FactoryArg::ModuleContext => "f: __turbopack_module_context__",
            FactoryArg::Import => "i: __turbopack_import__",
            FactoryArg::Esm => "s: __turbopack_esm__",
            FactoryArg::ExportValue => "v: __turbopack_export_value__",
            FactoryArg::ExportNamespace => "n: __turbopack_export_namespace__",
            FactoryArg::Cache => "c: __turbopack_cache__",
            FactoryArg::Modules => "M: __turbopack_modules__",
            FactoryArg::Load => "l: __turbopack_load__",
            FactoryArg::Dynamic => "j: __turbopack_dynamic__",
            FactoryArg::ResolveAbsolutePath => "P: __turbopack_resolve_absolute_path__",
            FactoryArg::RelativeUrl => "U: __turbopack_relative_url__",
            FactoryArg::ResolveModuleIdPath => "R: __turbopack_resolve_module_id_path__",
            FactoryArg::WorkerBlobUrl => "b: __turbopack_worker_blob_url__",
            FactoryArg::Global => "g: global",
            FactoryArg::AsyncModule => "a: __turbopack_async_module__",
            FactoryArg::ExternalRequire => "x: __turbopack_external_require__",
            FactoryArg::ExternalImport => "y: __turbopack_external_import__",
            FactoryArg::Refresh => "k: __turbopack_refresh__",
            FactoryArg::Dirname => "__dirname",
            FactoryArg::Module => "m: module",
            FactoryArg::Exports => "e: exports",
            FactoryArg::RealRequire => "t: require",
            FactoryArg::RequireStub => "z: require",
            FactoryArg::Wasm => "w: __turbopack_wasm__",
            FactoryArg::WasmModule => "u: __turbopack_wasm_module__",
        }
    }
}

fn push_all(v: &mut Vec<FactoryArg>, args: &[FactoryArg])
    ensures
        final(v)@ == old(v)@ + args@,
{
    let mut i: usize = 0;
    let ghost v0 = v@;
    while i < args.len()
        invariant
            i <= args@.len(),
            v@ == v0 + args@.subrange(0, i as int),
        decreases args.len() - i,
    {
        v.push(args[i]);
        i = i + 1;
        assert(v@ =~= v0 + args@.subrange(0, i as int));
    }
    assert(args@.subrange(0, args@.len() as int) =~= args@);
}

impl EcmascriptChunkItemContent {
    /// Builds a chunk item's content from what its module declares: ESM or
    /// CommonJS, refresh and externals support, async options, and whether
    /// the module declares its own `require`. A CommonJS module cannot be
    /// async.
    pub fn new(
        inner_code: String,
        is_esm: bool,
        refresh: bool,
        externals: bool,
        async_module: Option<AsyncModuleOptions>,
        declares_require: bool,
    ) -> (r: Result<EcmascriptChunkItemContent, ChunkItemError>)
        ensures
            is_esm ==> (r matches Ok(c) && c.inner_code == inner_code && c.options == esm_options(
                refresh,
                externals,
                async_module,
                declares_require,
            )),
            !is_esm && async_module is Some ==> r == Err::<EcmascriptChunkItemContent, ChunkItemError>(
                ChunkItemError::CjsModuleCannotBeAsync,
            ),
            !is_esm && async_module is None ==> (r matches Ok(c) && c.inner_code == inner_code
                && c.options == cjs_options(refresh, externals)),
    {
        let options = if is_esm {
            EcmascriptChunkItemOptions {
                strict: true,
                refresh,
                externals,
                async_module,
                require: if declares_require {
                    EcmascriptChunkItemRequireType::Absent
                } else {
                    EcmascriptChunkItemRequireType::Stub
                },
                ..EcmascriptChunkItemOptions::default()
            }
        } else {
            if async_module.is_some() {
                return Err(ChunkItemError::CjsModuleCannotBeAsync);
            }
            EcmascriptChunkItemOptions {
                refresh,
                externals,
                require: EcmascriptChunkItemRequireType::Real,
                module: true,
                exports: true,
                this: true,
                dirname: true,
                ..EcmascriptChunkItemOptions::default()
            }
        };
        Ok(EcmascriptChunkItemContent { inner_code, options })
    }

    /// The arguments of this chunk item's module factory, in order.
    pub fn module_factory_args(&self) -> (r: Vec<FactoryArg>)
        ensures
            r@ == factory_args(self.options),
    {
        let o = &self.options;
        let mut args = base_factory_args();
        let is_async = match o.async_module {
            Some(_) => true,
            None => false,
        };
        let real_require = match o.require {
            EcmascriptChunkItemRequireType::Real => true,
            _ => false,
        };
        let stub = match o.require {
            EcmascriptChunkItemRequireType::Stub => true,
            _ => false,
        };
        push_one_if(&mut args, is_async, FactoryArg::AsyncModule);
        push_two_if(&mut args, o.externals, FactoryArg::ExternalRequire, FactoryArg::ExternalImport);
        push_one_if(&mut args, o.refresh, FactoryArg::Refresh);
        push_one_if(&mut args, o.dirname, FactoryArg::Dirname);
        push_one_if(&mut args, o.module || o.refresh, FactoryArg::Module);
        push_one_if(&mut args, o.exports, FactoryArg::Exports);
        push_one_if(&mut args, real_require, FactoryArg::RealRequire);
        push_one_if(&mut args, stub, FactoryArg::RequireStub);
        push_two_if(&mut args, o.wasm, FactoryArg::Wasm, FactoryArg::WasmModule);
        args
    }
}

fn push_one_if(v: &mut Vec<FactoryArg>, cond: bool, a: FactoryArg)
    ensures
        final(v)@ == old(v)@ + when(cond, seq![a]),
{
    reveal(when);
    if cond {
        v.push(a);
    }
    assert(v@ =~= old(v)@ + when(cond, seq![a]));
}

fn push_two_if(v: &mut Vec<FactoryArg>, cond: bool, a: FactoryArg, b: FactoryArg)
    ensures
        final(v)@ == old(v)@ + when(cond, seq![a, b]),
{
    reveal(when);
    if cond {
        v.push(a);
        v.push(b);
    }
    assert(v@ =~= old(v)@ + when(cond, seq![a, b]));
}

fn base_factory_args() -> (r: Vec<FactoryArg>)
    ensures
        r@ == base_args(),
{
    let mut args: Vec<FactoryArg> = Vec::new();
    push_all(
        &mut args,
        &[
            FactoryArg::Require,
            FactoryArg::ModuleContext,
            FactoryArg::Import,
            FactoryArg::Esm,
            FactoryArg::ExportValue,
            FactoryArg::ExportNamespace,
            FactoryArg::Cache,
            FactoryArg::Modules,
            FactoryArg::Load,
            FactoryArg::Dynamic,
            FactoryArg::ResolveAbsolutePath,
            FactoryArg::RelativeUrl,
            FactoryArg::ResolveModuleIdPath,
            FactoryArg::WorkerBlobUrl,
            FactoryArg::Global,
        ],
    );
    assert(args@ =~= base_args());
    args
}

} // verus!
