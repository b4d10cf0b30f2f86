//! The fixed table of host capabilities that scripts may call, their arity,
//! and the names under which they are exposed.
use convert_case::{Case, Casing};
use vstd::prelude::*;

verus! {

/// The kind of one capability parameter. Every parameter crosses the
/// boundary as a 32-bit integer; a pointer is an offset into the shared
/// linear memory.
#[derive(Clone, Copy, Debug, PartialEq, Eq, Structural)]
pub enum ParamKind {
    Int,
    Pointer,
}

/// One host capability of the fixed set.
#[derive(Clone, Copy, Debug, PartialEq, Eq, Structural)]
pub enum Capability {
    LogMsg,
    FetchUrl,
    GraphqlQuery,
    CacheSet,
    CacheGet,
    RequestGetField,
    RequestSetField,
    GetFfiResult,
    ReturnResult,
    ReturnError,
}

/// A call made with the wrong number of arguments.
#[derive(Clone, Copy, Debug, PartialEq, Eq, Structural)]
pub struct ArityError {
    pub expected: usize,
    pub got: usize,
}

/// What a capability call hands back to the script.
#[derive(Clone, Copy, Debug, PartialEq, Eq, Structural)]
pub enum ScriptReturn {
    /// The host's integer result.
    Int(i32),
    /// The engine's canonical "no value".
    Undefined,
}

/// The identifier of the host symbol of a capability.
pub open spec fn identifier_spec(c: Capability) -> Seq<char> {
    match c {
        Capability::LogMsg => "log_msg"@,
        Capability::FetchUrl => "fetch_url"@,
        Capability::GraphqlQuery => "graphql_query"@,
        Capability::CacheSet => "cache_set"@,
        Capability::CacheGet => "cache_get"@,
        Capability::RequestGetField => "request_get_field"@,
        Capability::RequestSetField => "request_set_field"@,
        Capability::GetFfiResult => "get_ffi_result"@,
        Capability::ReturnResult => "return_result"@,
        Capability::ReturnError => "return_error"@,
    }
}

/// The ordered parameter kinds of a capability.
pub open spec fn params_spec(c: Capability) -> Seq<ParamKind> {
    let i = ParamKind::Int;
    let p = ParamKind::Pointer;
    match c {
        Capability::LogMsg => seq![p, i, i, i],
        Capability::FetchUrl => seq![i, p, i, p, i, i],
        Capability::GraphqlQuery => seq![p, i, p, i, i],
        Capability::CacheSet => seq![p, i, p, i, i, i],
        Capability::CacheGet => seq![p, i, i],
        Capability::RequestGetField => seq![i, p, i, i],
        Capability::RequestSetField => seq![i, p, i, p, i, i],
        Capability::GetFfiResult => seq![p, i],
        Capability::ReturnResult => seq![p, i, i],
        Capability::ReturnError => seq![i, p, i, i],
    }
}

/// Whether the host symbol returns a 32-bit integer.
pub open spec fn has_return_spec(c: Capability) -> bool {
    !(c == Capability::LogMsg || c == Capability::ReturnResult || c == Capability::ReturnError)
}

/// Every capability of the fixed set, in table order.
pub open spec fn all_spec() -> Seq<Capability> {
    seq![
        Capability::LogMsg,
        Capability::FetchUrl,
        Capability::GraphqlQuery,
        Capability::CacheSet,
        Capability::CacheGet,
        Capability::RequestGetField,
        Capability::RequestSetField,
        Capability::GetFfiResult,
        Capability::ReturnResult,
        Capability::ReturnError,
    ]
}

/// A snake-case identifier: lowercase ASCII letters in non-empty runs
/// separated by single underscores.
pub open spec fn is_snake_identifier(s: Seq<char>) -> bool {
    &&& s.len() > 0
    &&& s[0] != '_'
    &&& s[s.len() - 1] != '_'
    &&& forall|i: int| 0 <= i < s.len() ==> (('a' <= #[trigger] s[i] && s[i] <= 'z') || s[i] == '_')
    &&& forall|i: int| 0 <= i < s.len() - 1 ==> !(#[trigger] s[i] == '_' && s[i + 1] == '_')
}

/// The identifier with each underscore replaced by a hyphen.
pub open spec fn hyphenated(s: Seq<char>) -> Seq<char> {
    Seq::new(s.len(), |i: int| if s[i] == '_' { '-' } else { s[i] })
}

/// Relies on convert_case's `Casing::to_case` with `Case::Kebab`: it splits
/// on underscores (and case or digit boundaries, of which a snake-case
/// identifier has none), lowercases the words and joins them with hyphens.
/// On other input it may panic (a case boundary inside a multi-byte
/// character is split as a byte offset), so only snake-case identifiers are
/// admitted.
#[verifier::external_body]
fn kebab_case(s: &str) -> (r: String)
    requires
        is_snake_identifier(s@),
    ensures
        r@ == hyphenated(s@),
{
    s.to_case(Case::Kebab)
}

impl Capability {
    /// The identifier of the host symbol.
    pub fn identifier(&self) -> (r: &'static str)
        ensures
            r@ == identifier_spec(*self),
    {
        match self {
            Capability::LogMsg => "log_msg",
            Capability::FetchUrl => "fetch_url",
            Capability::GraphqlQuery => "graphql_query",
            Capability::CacheSet => "cache_set",
            Capability::CacheGet => "cache_get",
            Capability::RequestGetField => "request_get_field",
            Capability::RequestSetField => "request_set_field",
            Capability::GetFfiResult => "get_ffi_result",
            Capability::ReturnResult => "return_result",
            Capability::ReturnError => "return_error",
        }
    }

    /// The ordered parameter kinds.
    pub fn params(&self) -> (r: Vec<ParamKind>)
        ensures
            r@ == params_spec(*self),
    {
        let i = ParamKind::Int;
        let p = ParamKind::Pointer;
        let r = match self {
            Capability::LogMsg => vec![p, i, i, i],
            Capability::FetchUrl => vec![i, p, i, p, i, i],
            Capability::GraphqlQuery => vec![p, i, p, i, i],
            Capability::CacheSet => vec![p, i, p, i, i, i],
            Capability::CacheGet => vec![p, i, i],
            Capability::RequestGetField => vec![i, p, i, i],
            Capability::RequestSetField => vec![i, p, i, p, i, i],
            Capability::GetFfiResult => vec![p, i],
            Capability::ReturnResult => vec![p, i, i],
            Capability::ReturnError => vec![i, p, i, i],
        };
        assert(r@ =~= params_spec(*self));
        r
    }

    /// The number of arguments the capability takes.
    pub fn arity(&self) -> (r: usize)
        ensures
            r == params_spec(*self).len(),
    {
        match self {
            Capability::LogMsg => 4,
            Capability::FetchUrl => 6,
            Capability::GraphqlQuery => 5,
            Capability::CacheSet => 6,
            Capability::CacheGet => 3,
            Capability::RequestGetField => 4,
            Capability::RequestSetField => 6,
            Capability::GetFfiResult => 2,
            Capability::ReturnResult => 3,
            Capability::ReturnError => 4,
        }
    }

    /// Whether the host symbol returns an integer.
    pub fn has_return(&self) -> (r: bool)
        ensures
            r == has_return_spec(*self),
    {
        !matches!(self, Capability::LogMsg | Capability::ReturnResult | Capability::ReturnError)
    }

    /// Every capability of the fixed set, in table order.
    pub fn all() -> (r: Vec<Capability>)
        ensures
            r@ == all_spec(),
    {
        let r = vec![
            Capability::LogMsg,
            Capability::FetchUrl,
            Capability::GraphqlQuery,
            Capability::CacheSet,
            Capability::CacheGet,
            Capability::RequestGetField,
            Capability::RequestSetField,
            Capability::GetFfiResult,
            Capability::ReturnResult,
            Capability::ReturnError,
        ];
        assert(r@ =~= all_spec());
        r
    }

    /// Checks the arguments a script passed against the declared arity and
    /// returns them, in order, as the host call's arguments. A wrong count is
    /// refused: nothing is dropped and nothing is added.
    pub fn bind_args(&self, args: &[i32]) -> (r: Result<Vec<i32>, ArityError>)
        ensures
            args@.len() == params_spec(*self).len() <==> r is Ok,
            r matches Ok(v) ==> v@ == args@,
            r matches Err(e) ==> e == (ArityError {
                expected: params_spec(*self).len() as usize,
                got: args@.len() as usize,
            }),
    {
        let expected = self.arity();
        if args.len() != expected {
            return Err(ArityError { expected, got: args.len() });
        }
        let mut v: Vec<i32> = Vec::new();
        let mut k: usize = 0;
        while k < args.len()
            invariant
                k <= args@.len(),
                v@ == args@.subrange(0, k as int),
            decreases args@.len() - k,
        {
            v.push(args[k]);
            k = k + 1;
            assert(v@ =~= args@.subrange(0, k as int));
        }
        assert(args@.subrange(0, args@.len() as int) =~= args@);
        Ok(v)
    }

    /// Turns what the host symbol returned into the script's value: the
    /// integer where the capability declares one, else "no value".
    pub fn script_return(&self, host_result: Option<i32>) -> (r: ScriptReturn)
        ensures
            r == (if has_return_spec(*self) && host_result is Some {
                ScriptReturn::Int(host_result->0)
            } else {
                ScriptReturn::Undefined
            }),
    {
        if self.has_return() {
            match host_result {
                Some(x) => ScriptReturn::Int(x),
                None => ScriptReturn::Undefined,
            }
        } else {
            ScriptReturn::Undefined
        }
    }

    /// The name under which the script sees this capability.
    pub fn exposed_name(&self) -> (r: String)
        ensures
            r@ == hyphenated(identifier_spec(*self)),
    {
        proof {
            lemma_identifier_is_snake(*self);
        }
        kebab_case(self.identifier())
    }
}

/// The exposed name of every capability is made of lowercase ASCII letters
/// and hyphens only, and is its identifier with underscores turned into
/// hyphens: the same capability always gets the same name.
pub proof fn lemma_exposed_name_policy(c: Capability)
    ensures
        hyphenated(identifier_spec(c)).len() == identifier_spec(c).len(),
        forall|i: int|
            0 <= i < hyphenated(identifier_spec(c)).len() ==> {
                let ch = #[trigger] hyphenated(identifier_spec(c))[i];
                ('a' <= ch && ch <= 'z') || ch == '-'
            },
        forall|i: int|
            0 <= i < identifier_spec(c).len() ==> (#[trigger] identifier_spec(c)[i] == '_'
                <==> hyphenated(identifier_spec(c))[i] == '-'),
{
    lemma_identifier_is_snake(c);
}

/// Every identifier of the table is in snake case.
pub proof fn lemma_identifier_is_snake(c: Capability)
    ensures
        is_snake_identifier(identifier_spec(c)),
{
    match c {
        Capability::LogMsg => { reveal_strlit("log_msg"); },
        Capability::FetchUrl => { reveal_strlit("fetch_url"); },
        Capability::GraphqlQuery => { reveal_strlit("graphql_query"); },
        Capability::CacheSet => { reveal_strlit("cache_set"); },
        Capability::CacheGet => { reveal_strlit("cache_get"); },
        Capability::RequestGetField => { reveal_strlit("request_get_field"); },
        Capability::RequestSetField => { reveal_strlit("request_set_field"); },
        Capability::GetFfiResult => { reveal_strlit("get_ffi_result"); },
        Capability::ReturnResult => { reveal_strlit("return_result"); },
        Capability::ReturnError => { reveal_strlit("return_error"); },
    }
}

} // verus!
