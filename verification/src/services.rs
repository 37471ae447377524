//! The externally supplied service bundle a context reads: application
//! configuration, shared by reference count so many contexts can coexist.

use vstd::prelude::*;
use std::sync::Arc;
use crate::context::EntityServices;

verus! {

/// The outside type carrying a parsed URL; the entity layer only stores
/// and hands back such values.
#[verifier::external_type_specification]
#[verifier::external_body]
pub struct ExUrl(url::Url);

/// Application configuration: the URLs the service answers under and
/// links to.
#[derive(Debug)]
pub struct Settings {
    /// Where the service itself listens.
    pub api_url: url::Url,
    /// Where the service is reached from outside.
    pub api_public_url: url::Url,
    /// Where the web frontend listens.
    pub web_url: url::Url,
    /// Where the web frontend is reached from outside.
    pub web_public_url: url::Url,
}

impl Settings {
    /// Bundles the four URLs.
    pub fn new(
        api_url: url::Url,
        api_public_url: url::Url,
        web_url: url::Url,
        web_public_url: url::Url,
    ) -> (r: Settings)
        ensures
            r.api_url == api_url,
            r.api_public_url == api_public_url,
            r.web_url == web_url,
            r.web_public_url == web_public_url,
    {
        Settings { api_url, api_public_url, web_url, web_public_url }
    }
}

/// What it takes to build the service bundle.
#[derive(Debug)]
pub struct Config {
    /// The application configuration.
    pub settings: Settings,
}

#[derive(Debug)]
struct ServicesInner {
    settings: Settings,
}

/// The service bundle: reference-counted, so cloning a context is cheap
/// and many contexts share one bundle.
#[derive(Debug, Clone)]
pub struct Services(Arc<ServicesInner>);

impl Services {
    /// Builds the bundle from its configuration.
    pub fn new(config: Config) -> (r: Services)
        ensures
            r.spec_settings() == config.settings,
    {
        let Config { settings } = config;
        Services(Arc::new(ServicesInner { settings }))
    }

    /// The application configuration behind the bundle.
    pub closed spec fn spec_settings(&self) -> Settings {
        self.0.settings
    }

    /// The application configuration.
    pub fn settings(&self) -> (r: &Settings)
        ensures
            *r == self.spec_settings(),
    {
        &self.0.settings
    }
}

impl EntityServices for Services {

}

} // verus!
