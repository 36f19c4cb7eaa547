use turbo_tasks_effects::{
    mdx_import_source_file, AsyncModuleOptions, ChunkItemError, EcmascriptChunkItemContent,
    EcmascriptChunkItemOptions, EcmascriptChunkItemRequireType, FactoryArg, TaskIdentity,
};

fn texts(content: &EcmascriptChunkItemContent) -> Vec<&'static str> {
    content.module_factory_args().iter().map(|a| a.text()).collect()
}

#[test]
fn esm_chunk_item_options() {
    let c = EcmascriptChunkItemContent::new("code".to_string(), true, true, false, None, false)
        .unwrap();
    assert_eq!(c.inner_code, "code");
    assert_eq!(
        c.options,
        EcmascriptChunkItemOptions {
            strict: true,
            refresh: true,
            require: EcmascriptChunkItemRequireType::Stub,
            ..Default::default()
        }
    );
    let own = EcmascriptChunkItemContent::new(String::new(), true, false, false, None, true).unwrap();
    assert_eq!(own.options.require, EcmascriptChunkItemRequireType::Absent);
}

#[test]
fn cjs_chunk_item_options() {
    let c = EcmascriptChunkItemContent::new(String::new(), false, false, true, None, false).unwrap();
    assert_eq!(
        c.options,
        EcmascriptChunkItemOptions {
            externals: true,
            require: EcmascriptChunkItemRequireType::Real,
            module: true,
            exports: true,
            this: true,
            dirname: true,
            ..Default::default()
        }
    );
}

#[test]
fn cjs_module_cannot_be_async() {
    let r = EcmascriptChunkItemContent::new(
        String::new(),
        false,
        false,
        false,
        Some(AsyncModuleOptions { has_top_level_await: true }),
        false,
    );
    assert_eq!(r.unwrap_err(), ChunkItemError::CjsModuleCannotBeAsync);
}

#[test]
fn module_factory_arguments_follow_options() {
    let cjs = EcmascriptChunkItemContent::new(String::new(), false, true, true, None, false).unwrap();
    let args = texts(&cjs);
    assert_eq!(args.len(), 15 + 2 + 1 + 1 + 1 + 1 + 1);
    assert_eq!(args[0], "r: __turbopack_require__");
    assert_eq!(args[14], "g: global");
    assert_eq!(
        &args[15..],
        &[
            "x: __turbopack_external_require__",
            "y: __turbopack_external_import__",
            "k: __turbopack_refresh__",
            "__dirname",
            "m: module",
            "e: exports",
            "t: require",
        ]
    );

    let esm = EcmascriptChunkItemContent::new(
        String::new(),
        true,
        false,
        false,
        Some(AsyncModuleOptions { has_top_level_await: false }),
        false,
    )
    .unwrap();
    let args = esm.module_factory_args();
    assert_eq!(&args[15..], &[FactoryArg::AsyncModule, FactoryArg::RequireStub]);
}

#[test]
fn wasm_arguments_come_last() {
    let mut c = EcmascriptChunkItemContent::new(String::new(), true, false, false, None, true).unwrap();
    c.options.wasm = true;
    let args = texts(&c);
    assert_eq!(args.len(), 17);
    assert_eq!(&args[15..], &["w: __turbopack_wasm__", "u: __turbopack_wasm_module__"]);
}

#[test]
fn default_require_type_is_absent() {
    assert_eq!(EcmascriptChunkItemRequireType::default(), EcmascriptChunkItemRequireType::Absent);
    assert_eq!(EcmascriptChunkItemOptions::default().async_module, None);
}

#[test]
fn mdx_import_source_request() {
    assert_eq!(mdx_import_source_file(), "@vercel/turbopack-next/mdx-import-source");
}

#[test]
fn identities_compare_by_value() {
    let a = TaskIdentity::new(1, 2);
    assert!(a.same_as(&TaskIdentity::new(1, 2)));
    assert!(!a.same_as(&TaskIdentity::new(1, 3)));
    assert_eq!(a, TaskIdentity { function_id: 1, argument_fingerprint: 2 });
}
