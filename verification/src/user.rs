//! Profiles, and a user: an identity together with its profile record.

use vstd::prelude::*;

use crate::identity::Identity;

verus! {

/// Descriptive metadata published for an identity.
///
/// The graph only caches and returns profiles; it never inspects the
/// fields, so they are plain optional strings.
#[derive(Debug, Clone)]
pub struct Profile {
    pub name: Option<String>,
    pub display_name: Option<String>,
    pub about: Option<String>,
}

/// Why a user value could not be built.
#[derive(Debug)]
pub enum CreateUserError {
    /// The identity has no discoverable profile record.
    MetadataNotFound,
    /// The profile fetch itself failed; holds the transport's message.
    GetMetadataClientError(String),
}

/// An identity whose profile has been looked up, with the record's
/// freshness timestamp.
#[derive(Debug, Clone)]
pub struct User {
    public_key: Identity,
    metadata: Profile,
    last_updated: u64,
}

impl User {
    /// The identity, as the contracts see it.
    pub closed spec fn spec_public_key(self) -> Identity {
        self.public_key
    }

    /// The profile, as the contracts see it.
    pub closed spec fn spec_metadata(self) -> Profile {
        self.metadata
    }

    /// The record timestamp, as the contracts see it.
    pub closed spec fn spec_last_updated(self) -> u64 {
        self.last_updated
    }

    /// Builds a user from an identity and the result of a profile
    /// lookup for it: the profile and its timestamp when a record was
    /// found, `None` when none was.
    pub fn new(public_key: Identity, fetched: Option<(Profile, u64)>) -> (r: Result<
        User,
        CreateUserError,
    >)
        ensures
            match fetched {
                Some((m, t)) => r matches Ok(u) && u.spec_public_key() == public_key
                    && u.spec_metadata() == m && u.spec_last_updated() == t,
                None => r matches Err(e) && e is MetadataNotFound,
            },
    {
        match fetched {
            Some((metadata, timestamp)) => Ok(
                User { public_key, metadata, last_updated: timestamp },
            ),
            None => Err(CreateUserError::MetadataNotFound),
        }
    }

    /// The user's identity.
    pub fn public_key(&self) -> (r: Identity)
        ensures
            r == self.spec_public_key(),
    {
        self.public_key
    }

    /// The user's profile.
    pub fn metadata(&self) -> (r: &Profile)
        ensures
            *r == self.spec_metadata(),
    {
        &self.metadata
    }

    /// When the profile record was published.
    pub fn last_updated(&self) -> (r: u64)
        ensures
            r == self.spec_last_updated(),
    {
        self.last_updated
    }
}

} // verus!
