//! Site-wide settings.

use crate::assoc::StringMap;
use vstd::prelude::*;

verus! {

/// The settings of a site: its name, its address, and whatever else its
/// owner wants templates to see.
#[derive(Debug)]
pub struct Configuration {
    pub website_name: String,
    pub uri: String,
    pub custom_keys: StringMap,
}

/// What a `Configuration` stands for.
pub struct ConfigurationView {
    pub website_name: Seq<char>,
    pub uri: Seq<char>,
    pub custom_keys: Map<Seq<char>, Seq<char>>,
}

impl View for Configuration {
    type V = ConfigurationView;

    open spec fn view(&self) -> ConfigurationView {
        ConfigurationView {
            website_name: self.website_name@,
            uri: self.uri@,
            custom_keys: self.custom_keys@,
        }
    }
}

impl Configuration {
    /// The settings with the given name, address and further keys.
    pub fn new(website_name: String, uri: String, custom_keys: StringMap) -> (c: Configuration)
        ensures
            c@ == (ConfigurationView {
                website_name: website_name@,
                uri: uri@,
                custom_keys: custom_keys@,
            }),
    {
        Configuration { website_name, uri, custom_keys }
    }
}

impl Clone for Configuration {
    fn clone(&self) -> (r: Configuration)
        ensures
            r@ == self@,
    {
        Configuration {
            website_name: self.website_name.clone(),
            uri: self.uri.clone(),
            custom_keys: self.custom_keys.clone(),
        }
    }
}

} // verus!
