use javy_core::capability::{ArityError, Capability, ParamKind, ScriptReturn};
use javy_core::imports::{build_memory, setup_imports, Binding};

#[test]
fn exposed_names_are_hyphenated() {
    let expected = [
        "log-msg",
        "fetch-url",
        "graphql-query",
        "cache-set",
        "cache-get",
        "request-get-field",
        "request-set-field",
        "get-ffi-result",
        "return-result",
        "return-error",
    ];
    let all = Capability::all();
    assert_eq!(all.len(), expected.len());
    for (c, name) in all.iter().zip(expected.iter()) {
        assert_eq!(c.exposed_name(), *name);
        // The same capability always gets the same name.
        assert_eq!(c.exposed_name(), c.exposed_name());
    }
    assert_eq!(Capability::GraphqlQuery.identifier(), "graphql_query");
}

#[test]
fn arities_and_returns() {
    let arities: Vec<usize> = Capability::all().iter().map(|c| c.arity()).collect();
    assert_eq!(arities, vec![4, 6, 5, 6, 3, 4, 6, 2, 3, 4]);
    for c in Capability::all() {
        assert_eq!(c.params().len(), c.arity());
    }
    assert_eq!(Capability::GetFfiResult.params(), vec![ParamKind::Pointer, ParamKind::Int]);
    assert!(!Capability::LogMsg.has_return());
    assert!(!Capability::ReturnResult.has_return());
    assert!(!Capability::ReturnError.has_return());
    assert!(Capability::FetchUrl.has_return());
}

#[test]
fn correct_arity_passes_arguments_unchanged() {
    assert_eq!(Capability::GetFfiResult.bind_args(&[1024, 7]), Ok(vec![1024, 7]));
    assert_eq!(
        Capability::FetchUrl.bind_args(&[1, 2, 3, 4, 5, -6]),
        Ok(vec![1, 2, 3, 4, 5, -6])
    );
}

#[test]
fn three_arguments_to_two_argument_capability_fail() {
    assert_eq!(
        Capability::GetFfiResult.bind_args(&[1024, 7, 9]),
        Err(ArityError { expected: 2, got: 3 })
    );
}

#[test]
fn too_few_arguments_fail() {
    assert_eq!(
        Capability::ReturnError.bind_args(&[500, 0, 0]),
        Err(ArityError { expected: 4, got: 3 })
    );
    assert_eq!(Capability::CacheGet.bind_args(&[]), Err(ArityError { expected: 3, got: 0 }));
}

#[test]
fn script_return_values() {
    assert_eq!(Capability::CacheGet.script_return(Some(42)), ScriptReturn::Int(42));
    assert_eq!(Capability::LogMsg.script_return(None), ScriptReturn::Undefined);
    assert_eq!(Capability::ReturnResult.script_return(Some(3)), ScriptReturn::Undefined);
}

#[test]
fn memory_object_has_buffer() {
    let m = build_memory();
    assert_eq!(m.len(), 1);
    assert_eq!(m[0].name, "buffer");
    assert!(matches!(m[0].binding, Binding::LinearMemory));
}

#[test]
fn import_object_layout() {
    let props = setup_imports();
    assert_eq!(props.len(), 12);
    assert_eq!(props[2].name, "graphql-query");
    assert!(matches!(props[2].binding, Binding::Capability(Capability::GraphqlQuery)));
    assert_eq!(props[9].name, "return-error");
    assert_eq!(props[10].name, "canonical_abi_realloc");
    assert!(matches!(props[10].binding, Binding::Realloc));
    assert_eq!(props[11].name, "memory");
    match &props[11].binding {
        Binding::Object(m) => {
            assert_eq!(m.len(), 1);
            assert_eq!(m[0].name, "buffer");
        }
        _ => panic!("memory is not an object"),
    }
}
