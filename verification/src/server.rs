//! The MCP server's handle on its configuration.
use vstd::prelude::*;

verus! {

/// The MCP server: every request reads the settings at this path, so a project added in the
/// desktop app is visible to the next request.
#[derive(Clone, Debug)]
pub struct AdashiMcpServer {
    settings_path: String,
}

impl AdashiMcpServer {
    /// Where the server reads its settings.
    pub closed spec fn settings(&self) -> Seq<char> {
        self.settings_path@
    }

    /// A server reading the settings at the given path.
    pub fn new(settings_path: String) -> (s: Self)
        ensures
            s.settings() == settings_path@,
    {
        AdashiMcpServer { settings_path }
    }

    /// The path of the settings the server reads.
    pub fn settings_path(&self) -> (p: &str)
        ensures
            p@ == self.settings(),
    {
        self.settings_path.as_str()
    }
}

} // verus!
