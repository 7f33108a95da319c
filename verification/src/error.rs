//! The error kinds that browsing reports, and the classification of store
//! failures into them.

use vstd::prelude::*;

verus! {

/// What went wrong, as far as the caller needs to tell the cases apart.
#[derive(Clone, Copy, Debug, PartialEq, Eq, Structural)]
pub enum AwsErrorKind {
    AccessDenied,
    ExpiredToken,
    NotFoundObject,
}

/// An error of one of the kinds.
#[derive(Clone, Copy, Debug, PartialEq, Eq, Structural)]
pub struct AwsError {
    kind: AwsErrorKind,
}

/// How a request to the store failed. A service failure may carry the error
/// code that the service sent.
pub enum StoreFailure {
    ConstructionFailure,
    TimeoutError,
    DispatchFailure,
    ResponseError,
    ServiceError { code: Option<String> },
}

/// The error code of an expired session token.
pub open spec fn expired_token_code() -> Seq<char> {
    "ExpiredToken"@
}

/// The kind that a failed bucket listing is reported as: an expired token
/// where the service says so, and access denied in every other case.
pub open spec fn bucket_failure_kind(f: StoreFailure) -> AwsErrorKind {
    match f {
        StoreFailure::ServiceError { code: Some(c) } => if c@ == expired_token_code() {
            AwsErrorKind::ExpiredToken
        } else {
            AwsErrorKind::AccessDenied
        },
        _ => AwsErrorKind::AccessDenied,
    }
}

impl AwsErrorKind {
    /// The kind's name as a sequence of characters.
    pub open spec fn name_spec(self) -> Seq<char> {
        match self {
            AwsErrorKind::AccessDenied => "AccessDenied"@,
            AwsErrorKind::ExpiredToken => "ExpiredToken"@,
            AwsErrorKind::NotFoundObject => "NotFoundObject"@,
        }
    }

    /// The kind's message as a sequence of characters.
    pub open spec fn description_spec(self) -> Seq<char> {
        match self {
            AwsErrorKind::AccessDenied => "Access denied."@,
            AwsErrorKind::ExpiredToken => "The provided token has expired."@,
            AwsErrorKind::NotFoundObject => "Not found object in bucket."@,
        }
    }

    /// The kind's name.
    pub fn name(&self) -> (r: &'static str)
        ensures
            r@ == self.name_spec(),
    {
        match self {
            AwsErrorKind::AccessDenied => "AccessDenied",
            AwsErrorKind::ExpiredToken => "ExpiredToken",
            AwsErrorKind::NotFoundObject => "NotFoundObject",
        }
    }

    /// The message shown for the kind.
    pub fn description(&self) -> (r: &'static str)
        ensures
            r@ == self.description_spec(),
    {
        match self {
            AwsErrorKind::AccessDenied => "Access denied.",
            AwsErrorKind::ExpiredToken => "The provided token has expired.",
            AwsErrorKind::NotFoundObject => "Not found object in bucket.",
        }
    }
}

impl AwsError {
    /// The kind of the error.
    pub closed spec fn kind_spec(self) -> AwsErrorKind {
        self.kind
    }

    /// An error of the given kind.
    pub fn new(kind: AwsErrorKind) -> (e: Self)
        ensures
            e.kind_spec() == kind,
    {
        AwsError { kind }
    }

    /// The kind of the error.
    pub fn kind(&self) -> (k: AwsErrorKind)
        ensures
            k == self.kind_spec(),
    {
        self.kind
    }

    /// The name of the error's kind.
    pub fn name(&self) -> (r: String)
        ensures
            r@ == self.kind_spec().name_spec(),
    {
        self.kind.name().to_string()
    }

    /// The message shown for the error.
    pub fn message(&self) -> (r: String)
        ensures
            r@ == self.kind_spec().description_spec(),
    {
        self.kind.description().to_string()
    }
}

/// Classifies a failed bucket listing.
pub fn classify_bucket_failure(f: &StoreFailure) -> (e: AwsError)
    ensures
        e.kind_spec() == bucket_failure_kind(*f),
{
    match f {
        StoreFailure::ServiceError { code: Some(c) } => {
            let expired = "ExpiredToken".to_string();
            if *c == expired {
                AwsError::new(AwsErrorKind::ExpiredToken)
            } else {
                AwsError::new(AwsErrorKind::AccessDenied)
            }
        },
        _ => AwsError::new(AwsErrorKind::AccessDenied),
    }
}

} // verus!
