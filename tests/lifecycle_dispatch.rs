use javy_core::codec::{decode, encode, Value};
use javy_core::dispatch::{
    correlation_outcome, return_error_args, single_shot_outcome, DispatchAction, RunError,
    ERROR_CODE,
};
use javy_core::lifecycle::{
    resolve_exports, Entry, EntryPoints, LifecycleError, MissingExport, Registry,
};

#[test]
fn second_initialization_is_refused() {
    let mut r: Registry<u32> = Registry::new();
    assert!(!r.is_ready());
    assert_eq!(r.begin_init(), Ok(()));
    assert_eq!(r.begin_init(), Err(LifecycleError::AlreadyInitialized));
    let e = EntryPoints { namespace: 1, entry: Entry::Correlation { run: 2, env: 3 } };
    assert_eq!(r.finish_init(e), Ok(()));
    assert!(r.is_ready());
    assert_eq!(r.begin_init(), Err(LifecycleError::AlreadyInitialized));
    let other = EntryPoints { namespace: 9, entry: Entry::SingleShot { main: 9 } };
    assert_eq!(r.finish_init(other), Err(LifecycleError::NotInitializing));
    assert_eq!(
        r.entry_points(),
        Some(&EntryPoints { namespace: 1, entry: Entry::Correlation { run: 2, env: 3 } })
    );
}

#[test]
fn finish_without_begin_is_refused() {
    let mut r: Registry<u32> = Registry::new();
    let e = EntryPoints { namespace: 1, entry: Entry::SingleShot { main: 2 } };
    assert_eq!(r.finish_init(e), Err(LifecycleError::NotInitializing));
    assert_eq!(r.entry_points(), None);
}

#[test]
fn export_shapes() {
    assert_eq!(
        resolve_exports(Some(1), Some(2), Some(3), None),
        Ok(EntryPoints { namespace: 1, entry: Entry::Correlation { run: 2, env: 3 } })
    );
    assert_eq!(
        resolve_exports(Some(1), None, None, Some(4)),
        Ok(EntryPoints { namespace: 1, entry: Entry::SingleShot { main: 4 } })
    );
    assert_eq!(
        resolve_exports(None, Some(2), Some(3), Some(4)),
        Err(LifecycleError::Missing(MissingExport::Namespace))
    );
    assert_eq!(
        resolve_exports(Some(1), Some(2), None, Some(4)),
        Err(LifecycleError::Missing(MissingExport::Env))
    );
    assert_eq!(
        resolve_exports::<u8>(Some(1), None, Some(3), None),
        Err(LifecycleError::Missing(MissingExport::EntryFunction))
    );
}

#[test]
fn ping_dispatch_reports_nothing_itself() {
    // Input "ping" under token 7: the script answers through return_result
    // itself; a successful call makes the dispatcher report nothing.
    let input = encode(&Value::Text(b"ping".to_vec())).unwrap();
    match decode(&input) {
        Some(Value::Text(t)) => assert_eq!(t, b"ping".to_vec()),
        _ => panic!("input did not decode"),
    }
    assert_eq!(correlation_outcome(7, Ok(())), DispatchAction::Done);
    let args = javy_core::capability::Capability::ReturnResult.bind_args(&[2048, 4, 7]).unwrap();
    assert_eq!(args, vec![2048, 4, 7]);
}

#[test]
fn exception_is_reported_with_code_and_token() {
    assert_eq!(
        correlation_outcome(7, Err(b"boom".to_vec())),
        DispatchAction::ReportError { code: 500, message: b"boom".to_vec(), ident: 7 }
    );
    assert_eq!(ERROR_CODE, 500);
    assert_eq!(return_error_args(4096, 4, 7), Some(vec![500, 4096, 4, 7]));
    assert_eq!(return_error_args(4096, i32::MAX as usize + 1, 7), None);
}

#[test]
fn distinct_tokens_stay_apart() {
    let a = correlation_outcome(7, Err(b"x".to_vec()));
    let b = correlation_outcome(8, Err(b"y".to_vec()));
    match (a, b) {
        (
            DispatchAction::ReportError { ident: ia, .. },
            DispatchAction::ReportError { ident: ib, .. },
        ) => {
            assert_eq!(ia, 7);
            assert_eq!(ib, 8);
        }
        _ => panic!("expected two reports"),
    }
}

#[test]
fn single_shot_returns_mapping_unchanged() {
    let input = encode(&Value::Mapping(vec![(b"a".to_vec(), Value::Int(1))])).unwrap();
    let decoded = decode(&input).unwrap();
    // The entry function returns its input unchanged.
    let out = single_shot_outcome(Ok(decoded)).unwrap();
    match decode(&out) {
        Some(Value::Mapping(m)) => {
            assert_eq!(m.len(), 1);
            assert_eq!(m[0].0, b"a".to_vec());
            assert!(matches!(m[0].1, Value::Int(1)));
        }
        _ => panic!("output is not a mapping"),
    }
    assert_eq!(out, input);
}

#[test]
fn single_shot_failure_carries_code() {
    match single_shot_outcome(Err(b"bad".to_vec())) {
        Err(RunError::Script { code, message }) => {
            assert_eq!(code, 500);
            assert_eq!(message, b"bad".to_vec());
        }
        _ => panic!("expected a script failure"),
    }
}
