//! The client configuration: an API key and a base URL, loaded once at
//! process start and read-only afterwards. Loading itself (environment,
//! key files) happens outside the library; a [`Config`] is built from the
//! two plain strings.

use vstd::prelude::*;

verus! {

/// Read access to the configuration the controller needs.
pub trait ConfigApi {
    /// The API key.
    spec fn spec_key(&self) -> Seq<char>;

    /// The base URL, with its trailing slash.
    spec fn spec_url(&self) -> Seq<char>;

    /// Returns the API key.
    fn get_key(&self) -> (r: String)
        ensures
            r@ == self.spec_key(),
    ;

    /// Returns the base URL.
    fn get_url(&self) -> (r: String)
        ensures
            r@ == self.spec_url(),
    ;
}

/// The immutable configuration pair.
pub struct Config {
    api_key: String,
    api_url: String,
}

impl Config {
    /// Builds a configuration from the two loaded values.
    pub fn new(api_key: String, api_url: String) -> (r: Config)
        ensures
            r.spec_key() == api_key@,
            r.spec_url() == api_url@,
    {
        Config { api_key, api_url }
    }
}

impl ConfigApi for Config {
    closed spec fn spec_key(&self) -> Seq<char> {
        self.api_key@
    }

    closed spec fn spec_url(&self) -> Seq<char> {
        self.api_url@
    }

    fn get_key(&self) -> (r: String) {
        self.api_key.clone()
    }

    fn get_url(&self) -> (r: String) {
        self.api_url.clone()
    }
}

} // verus!
