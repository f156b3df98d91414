//! Document metadata: the version of the specification and the top-level
//! `jsonapi` object.

use crate::error::Error;
use crate::collections::OrderedMap;
use crate::fields::Key;
use crate::resource::Value;
use crate::text::str_eq;
use vstd::prelude::*;
use vstd::string::*;

verus! {

/// The media type of documents.
pub const MEDIA_TYPE: &'static str = "application/vnd.api+json";

/// The literal of version 1.0.
pub open spec fn v1_literal() -> Seq<char> {
    seq!['1', '.', '0']
}

/// The version of the specification.
#[derive(Clone, Copy, Debug, PartialEq, Eq, Hash, PartialOrd, Ord)]
pub enum Version {
    /// Version 1.0
    V1,
}

impl Default for Version {
    fn default() -> (r: Version)
        ensures
            r == Version::V1,
    {
        Version::V1
    }
}

impl Version {
    /// Parses a version literal; anything but `"1.0"` fails with
    /// `UnsupportedVersion`.
    pub fn from_str(value: &str) -> (r: Result<Version, Error>)
        ensures
            match r {
                Ok(v) => value@ == v1_literal() && v == Version::V1,
                Err(e) => value@ != v1_literal() && (e matches Error::UnsupportedVersion(s) && s@
                    == value@),
            },
    {
        proof {
            reveal_strlit("1.0");
            assert("1.0"@ =~= v1_literal());
        }
        if str_eq(value, "1.0") {
            Ok(Version::V1)
        } else {
            Err(Error::unsupported_version(value))
        }
    }

    /// The literal of this version.
    pub fn as_str(&self) -> (r: &'static str)
        ensures
            r@ == v1_literal(),
    {
        proof {
            reveal_strlit("1.0");
            assert("1.0"@ =~= v1_literal());
        }
        match self {
            Version::V1 => "1.0",
        }
    }
}

/// Information about this implementation of the specification.
#[derive(Debug, PartialEq)]
pub struct JsonApi {
    /// Non-standard meta information, in insertion order.
    pub meta: OrderedMap<Key, Value>,
    /// The latest version of the specification that is supported.
    pub version: Version,
}

impl JsonApi {
    /// A `JsonApi` object with `version` and no meta information.
    pub fn new(version: Version) -> (r: JsonApi)
        ensures
            r.version == version,
            r.meta@.len() == 0,
    {
        JsonApi { version, meta: OrderedMap::new() }
    }
}

impl Default for JsonApi {
    fn default() -> (r: JsonApi)
        ensures
            r.version == Version::V1,
            r.meta@.len() == 0,
    {
        JsonApi::new(Version::V1)
    }
}

/// A single resource sent as the primary data of a response.
#[derive(Debug)]
pub struct Member<T>(pub T);

impl<T> Member<T> {
    /// Consumes the wrapper and returns the wrapped value.
    pub fn into_inner(self) -> (r: T)
        ensures
            r == self.0,
    {
        self.0
    }
}

} // verus!
