//! Location of the store file: a base directory and a path relative to it.

use vstd::prelude::*;

verus! {

/// Relies on dirs::home_dir, turned into text; `None` when the home directory
/// is unknown or its path is not valid UTF-8.
#[verifier::external_body]
fn home_dir() -> (r: Option<String>) {
    dirs::home_dir().and_then(|p| p.to_str().map(|s| s.to_string()))
}

/// Where the store file lives: `relative_path` under `base_path`.
#[derive(Debug)]
pub struct Config {
    base_path: String,
    relative_path: String,
}

impl Config {
    pub closed spec fn base(&self) -> Seq<char> {
        self.base_path@
    }

    pub closed spec fn relative(&self) -> Seq<char> {
        self.relative_path@
    }

    /// A location under the user's home directory; under the working
    /// directory where no home directory is known.
    pub fn new(relative_path: String) -> (r: Config)
        ensures
            r.relative() == relative_path@,
    {
        let base_path = match home_dir() {
            Some(h) => h,
            None => String::new(),
        };
        Config { base_path, relative_path }
    }

    pub fn with_base(base_path: String, relative_path: String) -> (r: Config)
        ensures
            r.base() == base_path@,
            r.relative() == relative_path@,
    {
        Config { base_path, relative_path }
    }

    pub fn get_base_path(&self) -> (r: String)
        ensures
            r@ == self.base(),
    {
        self.base_path.clone()
    }

    pub fn set_base_path(&mut self, base_path: String)
        ensures
            final(self).base() == base_path@,
            final(self).relative() == old(self).relative(),
    {
        self.base_path = base_path;
    }

    pub fn get_relative_path(&self) -> (r: String)
        ensures
            r@ == self.relative(),
    {
        self.relative_path.clone()
    }
}

} // verus!
