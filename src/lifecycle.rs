//! The process-wide entry-point registry: set once, never changed after.
use vstd::prelude::*;

verus! {

/// Name of the namespace object the program defines at global scope.
pub const NAMESPACE_EXPORT: &'static str = "Suborbital";

/// Name of the correlation-mode entry function on the namespace.
pub const RUN_EXPORT: &'static str = "run_e";

/// Name of the environment object on the namespace.
pub const ENV_EXPORT: &'static str = "env";

/// Name of the single-shot entry function on the namespace.
pub const MAIN_EXPORT: &'static str = "main";

/// Key under which the import object is installed on the environment.
pub const IMPORTS_KEY: &'static str = "_exports";

/// The resolved entry function, by dispatch mode.
#[derive(Debug, PartialEq, Eq)]
pub enum Entry<T> {
    /// `run_e(input, ident)`, with the environment object that carries the
    /// imports.
    Correlation { run: T, env: T },
    /// `main(input)`, which returns the output value.
    SingleShot { main: T },
}

/// The namespace object and its resolved entry function.
#[derive(Debug, PartialEq, Eq)]
pub struct EntryPoints<T> {
    pub namespace: T,
    pub entry: Entry<T>,
}

/// The state of the registry.
#[derive(Debug, PartialEq, Eq)]
pub enum Phase<T> {
    Uninitialized,
    Initializing,
    Ready(EntryPoints<T>),
}

/// An export that initialization needs and the program did not define.
#[derive(Clone, Copy, Debug, PartialEq, Eq, Structural)]
pub enum MissingExport {
    Namespace,
    Env,
    /// Neither `run_e` nor `main`.
    EntryFunction,
}

#[derive(Clone, Copy, Debug, PartialEq, Eq, Structural)]
pub enum LifecycleError {
    /// Initialization was already started.
    AlreadyInitialized,
    /// Exports can only be recorded during initialization.
    NotInitializing,
    Missing(MissingExport),
}

/// The registry: one process-wide cell whose phase only moves forward.
#[derive(Debug, PartialEq, Eq)]
pub struct Registry<T> {
    phase: Phase<T>,
}

/// Starting initialization: allowed once, from `Uninitialized` only.
pub open spec fn begin_init_step<T>(p: Phase<T>) -> (Phase<T>, Result<(), LifecycleError>) {
    match p {
        Phase::Uninitialized => (Phase::Initializing, Ok(())),
        _ => (p, Err(LifecycleError::AlreadyInitialized)),
    }
}

/// Recording the resolved exports: allowed only while initializing.
pub open spec fn finish_init_step<T>(p: Phase<T>, e: EntryPoints<T>) -> (
    Phase<T>,
    Result<(), LifecycleError>,
) {
    match p {
        Phase::Initializing => (Phase::Ready(e), Ok(())),
        _ => (p, Err(LifecycleError::NotInitializing)),
    }
}

/// What export resolution yields from the lookups of the namespace,
/// `run_e`, `env` and `main`.
pub open spec fn resolve_spec<T>(
    namespace: Option<T>,
    run: Option<T>,
    env: Option<T>,
    main: Option<T>,
) -> Result<EntryPoints<T>, LifecycleError> {
    match namespace {
        None => Err(LifecycleError::Missing(MissingExport::Namespace)),
        Some(ns) => match run {
            Some(f) => match env {
                Some(e) => Ok(EntryPoints { namespace: ns, entry: Entry::Correlation { run: f, env: e } }),
                None => Err(LifecycleError::Missing(MissingExport::Env)),
            },
            None => match main {
                Some(m) => Ok(EntryPoints { namespace: ns, entry: Entry::SingleShot { main: m } }),
                None => Err(LifecycleError::Missing(MissingExport::EntryFunction)),
            },
        },
    }
}

/// Picks the export shape: `run_e` with `env` where the namespace has
/// `run_e`, else `main`.
pub fn resolve_exports<T>(
    namespace: Option<T>,
    run: Option<T>,
    env: Option<T>,
    main: Option<T>,
) -> (r: Result<EntryPoints<T>, LifecycleError>)
    ensures
        r == resolve_spec(namespace, run, env, main),
{
    match namespace {
        None => Err(LifecycleError::Missing(MissingExport::Namespace)),
        Some(ns) => match run {
            Some(f) => match env {
                Some(e) => Ok(EntryPoints { namespace: ns, entry: Entry::Correlation { run: f, env: e } }),
                None => Err(LifecycleError::Missing(MissingExport::Env)),
            },
            None => match main {
                Some(m) => Ok(EntryPoints { namespace: ns, entry: Entry::SingleShot { main: m } }),
                None => Err(LifecycleError::Missing(MissingExport::EntryFunction)),
            },
        },
    }
}

impl<T> Registry<T> {
    pub closed spec fn phase(&self) -> Phase<T> {
        self.phase
    }

    pub fn new() -> (r: Registry<T>)
        ensures
            r.phase() is Uninitialized,
    {
        Registry { phase: Phase::Uninitialized }
    }

    pub fn is_ready(&self) -> (r: bool)
        ensures
            r == self.phase() is Ready,
    {
        matches!(self.phase, Phase::Ready(_))
    }

    /// Starts initialization. A second call is refused and changes nothing.
    pub fn begin_init(&mut self) -> (r: Result<(), LifecycleError>)
        ensures
            (final(self).phase(), r) == begin_init_step(old(self).phase()),
    {
        match self.phase {
            Phase::Uninitialized => {
                self.phase = Phase::Initializing;
                Ok(())
            },
            _ => Err(LifecycleError::AlreadyInitialized),
        }
    }

    /// Records the resolved exports and makes the registry ready.
    pub fn finish_init(&mut self, entry: EntryPoints<T>) -> (r: Result<(), LifecycleError>)
        ensures
            (final(self).phase(), r) == finish_init_step(old(self).phase(), entry),
    {
        match self.phase {
            Phase::Initializing => {
                self.phase = Phase::Ready(entry);
                Ok(())
            },
            _ => Err(LifecycleError::NotInitializing),
        }
    }

    /// The resolved exports, once ready.
    pub fn entry_points(&self) -> (r: Option<&EntryPoints<T>>)
        ensures
            match self.phase() {
                Phase::Ready(e) => r == Some(&e),
                _ => r is None,
            },
    {
        match &self.phase {
            Phase::Ready(e) => Some(e),
            _ => None,
        }
    }
}

/// Initialization happens once: after a successful start, every further
/// start is refused and leaves the registry as it is, before and after the
/// exports are recorded; and a ready registry never takes other exports.
pub proof fn lemma_init_exactly_once<T>(p0: Phase<T>, e: EntryPoints<T>, e2: EntryPoints<T>)
    requires
        begin_init_step(p0).1 is Ok,
    ensures
        ({
            let p1 = begin_init_step(p0).0;
            let p2 = finish_init_step(p1, e).0;
            &&& begin_init_step(p1) == (p1, Err::<(), LifecycleError>(LifecycleError::AlreadyInitialized))
            &&& p2 == Phase::Ready(e)
            &&& begin_init_step(p2) == (p2, Err::<(), LifecycleError>(LifecycleError::AlreadyInitialized))
            &&& finish_init_step(p2, e2) == (p2, Err::<(), LifecycleError>(LifecycleError::NotInitializing))
        }),
{
}

} // verus!
