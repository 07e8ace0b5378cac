//! The HTTP error surface: every failure leaves as a status code plus a
//! contract-shaped [`GenericError`] body.

use vstd::prelude::*;
use crate::model::GenericError;
use crate::text::{append_str, owned};
use crate::locks::LockError;
use crate::model::EntityKind;
use crate::provider::ActionError;
use crate::view::{collection_segment, kind_collection, opt_str, ResolveError};

verus! {

/// A handler failure that renders as a status code plus a [`GenericError`] body.
#[derive(Clone, Debug)]
pub enum ApiError {
    /// The addressed resource does not exist (`404`).
    NotFound(GenericError),
    /// The request was malformed, e.g. an unknown `?status=` value (`400`).
    BadRequest(GenericError),
    /// The request conflicts with the resource's state, e.g. a lock held by
    /// another client (`409`).
    Conflict(GenericError),
    /// A recognised endpoint of a family that is not implemented (`501`),
    /// carrying the family and the request path.
    NotImplemented {
        /// The deferred family (e.g. `operations`, `bulk-data`).
        family: String,
        /// The request path that was declined.
        path: String,
    },
}

/// Whether `g` has this code and message and exactly the parameters `params`
/// (key, value), in order.
pub open spec fn error_is(g: GenericError, code: Seq<char>, message: Seq<char>, params: Seq<(Seq<char>, Seq<char>)>) -> bool {
    &&& g.error_code@ == code
    &&& g.message@ == message
    &&& g.parameters@.len() == params.len()
    &&& forall|i: int| 0 <= i < params.len() ==> #[trigger] g.parameters@[i].0@ == params[i].0 && g.parameters@[i].1@ == params[i].1
}

impl ApiError {
    /// A `501 Not Implemented` for the family `family` at `path`.
    pub fn not_implemented(family: &str, path: &str) -> (r: ApiError)
        ensures
            r matches ApiError::NotImplemented { family: f, path: p } && f@ == family@ && p@ == path@,
    {
        ApiError::NotImplemented { family: owned(family), path: owned(path) }
    }

    /// A `400 Bad Request` for an unrecognised `?status=` filter value.
    pub fn bad_status(value: &str) -> (r: ApiError)
        ensures
            r matches ApiError::BadRequest(g) && error_is(
                g,
                "invalid-parameter"@,
                "Unknown fault status filter"@,
                seq![("status"@, value@)],
            ),
    {
        let mut parameters: Vec<(String, String)> = Vec::new();
        parameters.push((owned("status"), owned(value)));
        ApiError::BadRequest(
            GenericError {
                error_code: owned("invalid-parameter"),
                message: owned("Unknown fault status filter"),
                parameters,
            },
        )
    }

    /// The response status code and body: `404` / `400` / `409` carry their error
    /// verbatim; `501` carries `not-implemented` with the message
    /// `The '{family}' family is not implemented` and the `family` and `path`
    /// parameters.
    pub fn response_parts(self) -> (r: (u16, GenericError))
        ensures
            match self {
                ApiError::NotFound(g) => r.0 == 404 && r.1 == g,
                ApiError::BadRequest(g) => r.0 == 400 && r.1 == g,
                ApiError::Conflict(g) => r.0 == 409 && r.1 == g,
                ApiError::NotImplemented { family, path } => r.0 == 501 && error_is(
                    r.1,
                    "not-implemented"@,
                    "The '"@ + family@ + "' family is not implemented"@,
                    seq![("family"@, family@), ("path"@, path@)],
                ),
            },
    {
        match self {
            ApiError::NotFound(g) => (404, g),
            ApiError::BadRequest(g) => (400, g),
            ApiError::Conflict(g) => (409, g),
            ApiError::NotImplemented { family, path } => {
                let mut message = owned("The '");
                append_str(&mut message, family.as_str());
                append_str(&mut message, "' family is not implemented");
                let mut parameters: Vec<(String, String)> = Vec::new();
                parameters.push((owned("family"), family));
                parameters.push((owned("path"), path));
                (501, GenericError { error_code: owned("not-implemented"), message, parameters })
            },
        }
    }
}

/// A resolver's not-found error answers `404` with the same body.
impl From<ResolveError> for ApiError {
    fn from(error: ResolveError) -> (r: ApiError) {
        match error {
            ResolveError::NotFound(generic) => ApiError::NotFound(generic),
        }
    }
}

impl vstd::std_specs::convert::FromSpecImpl<ResolveError> for ApiError {
    open spec fn obeys_from_spec() -> bool {
        true
    }

    open spec fn from_spec(v: ResolveError) -> ApiError {
        match v {
            ResolveError::NotFound(generic) => ApiError::NotFound(generic),
        }
    }
}

/// The target-context parameters of a write error: the entity collection and
/// id, then the lock id when there is one, in key order.
pub open spec fn target_params(kind: EntityKind, id: Seq<char>, lock_id: Option<Seq<char>>) -> Seq<(Seq<char>, Seq<char>)> {
    let base = seq![("entity"@, kind_collection(kind)), ("entity_id"@, id)];
    match lock_id {
        Some(l) => base.push(("lock_id"@, l)),
        None => base,
    }
}

fn target_parameters(kind: EntityKind, id: &str, lock_id: Option<&str>) -> (r: Vec<(String, String)>)
    ensures
        r@.len() == target_params(kind, id@, opt_str(lock_id)).len(),
        forall|i: int| 0 <= i < r@.len() ==> #[trigger] r@[i].0@ == target_params(kind, id@, opt_str(lock_id))[i].0
            && r@[i].1@ == target_params(kind, id@, opt_str(lock_id))[i].1,
{
    let mut parameters: Vec<(String, String)> = Vec::new();
    parameters.push((owned("entity"), owned(collection_segment(kind))));
    parameters.push((owned("entity_id"), owned(id)));
    match lock_id {
        Some(l) => {
            parameters.push((owned("lock_id"), owned(l)));
        },
        None => {},
    }
    parameters
}

/// Map a lock failure on entity `id` of `kind` to its response: a conflict is
/// `409 lock-conflict`, a missing lock `404 lock-not-found`, both carrying the
/// target context.
pub fn lock_error(error: LockError, kind: EntityKind, id: &str, lock_id: Option<&str>) -> (r: ApiError)
    ensures
        match error {
            LockError::Conflict => r matches ApiError::Conflict(g) && error_is(
                g,
                "lock-conflict"@,
                "The entity is locked by another client"@,
                target_params(kind, id@, opt_str(lock_id)),
            ),
            LockError::NotFound => r matches ApiError::NotFound(g) && error_is(
                g,
                "lock-not-found"@,
                "Lock not found"@,
                target_params(kind, id@, opt_str(lock_id)),
            ),
        },
{
    let parameters = target_parameters(kind, id, lock_id);
    match error {
        LockError::Conflict => ApiError::Conflict(
            GenericError {
                error_code: owned("lock-conflict"),
                message: owned("The entity is locked by another client"),
                parameters,
            },
        ),
        LockError::NotFound => ApiError::NotFound(
            GenericError { error_code: owned("lock-not-found"), message: owned("Lock not found"), parameters },
        ),
    }
}

/// Map a write/action failure on entity `id` of `kind` to its response: `404
/// not-found`, `409 conflict`, or `400 invalid-parameter` carrying the sink's
/// reason as the message, each with the target context.
pub fn action_error(error: ActionError, kind: EntityKind, id: &str) -> (r: ApiError)
    ensures
        match error {
            ActionError::NotFound => r matches ApiError::NotFound(g) && error_is(
                g,
                "not-found"@,
                "Operation or execution not found"@,
                target_params(kind, id@, None),
            ),
            ActionError::Conflict => r matches ApiError::Conflict(g) && error_is(
                g,
                "conflict"@,
                "The execution is not in a cancellable state"@,
                target_params(kind, id@, None),
            ),
            ActionError::BadRequest(message) => r matches ApiError::BadRequest(g) && error_is(
                g,
                "invalid-parameter"@,
                message@,
                target_params(kind, id@, None),
            ),
        },
{
    let parameters = target_parameters(kind, id, None);
    match error {
        ActionError::NotFound => ApiError::NotFound(
            GenericError {
                error_code: owned("not-found"),
                message: owned("Operation or execution not found"),
                parameters,
            },
        ),
        ActionError::Conflict => ApiError::Conflict(
            GenericError {
                error_code: owned("conflict"),
                message: owned("The execution is not in a cancellable state"),
                parameters,
            },
        ),
        ActionError::BadRequest(message) => ApiError::BadRequest(
            GenericError { error_code: owned("invalid-parameter"), message, parameters },
        ),
    }
}

/// A client id is between 1 and 256 characters long.
pub open spec fn valid_client_id(s: Seq<char>) -> bool {
    1 <= s.len() <= 256
}

/// The `X-Client-Id` a lock write must carry: the header value when it is
/// present and 1 to 256 characters long, else `400 invalid-parameter`.
pub fn client_id(header: Option<&str>) -> (r: Result<String, ApiError>)
    ensures
        match header {
            Some(v) if valid_client_id(v@) => r matches Ok(s) && s@ == v@,
            _ => r matches Err(ApiError::BadRequest(g)) && error_is(
                g,
                "invalid-parameter"@,
                "Missing or invalid X-Client-Id header (1-256 chars required)"@,
                Seq::empty(),
            ),
        },
{
    match client_id_opt(header) {
        Some(s) => Ok(s),
        None => Err(
            ApiError::BadRequest(
                GenericError {
                    error_code: owned("invalid-parameter"),
                    message: owned("Missing or invalid X-Client-Id header (1-256 chars required)"),
                    parameters: Vec::new(),
                },
            ),
        ),
    }
}

/// The `X-Client-Id` a lock read may carry: the header value when it is
/// present and 1 to 256 characters long.
pub fn client_id_opt(header: Option<&str>) -> (r: Option<String>)
    ensures
        match header {
            Some(v) if valid_client_id(v@) => r matches Some(s) && s@ == v@,
            _ => r is None,
        },
{
    match header {
        Some(v) => {
            let n = v.unicode_len();
            if 1 <= n && n <= 256 {
                Some(owned(v))
            } else {
                None
            }
        },
        None => None,
    }
}

} // verus!
