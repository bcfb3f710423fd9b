//! Settings for opening a document in a shell window.

use vstd::prelude::*;

verus! {

/// Extra stylesheets to apply and the URL that relative links resolve against.
pub struct Config {
    pub stylesheets: Vec<String>,
    pub base_url: Option<String>,
}

impl Default for Config {
    fn default() -> (c: Config)
        ensures
            c.stylesheets@.len() == 0,
            c.base_url is None,
    {
        Config { stylesheets: Vec::new(), base_url: None }
    }
}

} // verus!
