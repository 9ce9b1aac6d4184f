//! The supported language servers and the commands that start and probe them.

use crate::command::CommandLine;
use crate::text::str_eq;
use vstd::prelude::*;

verus! {

/// A language for which a server can be started.
#[derive(Debug, Clone, Copy, PartialEq, Eq, Hash, Structural)]
pub enum LspLanguage {
    Rust,
    Go,
}

impl LspLanguage {
    /// The tag by which the front end names the language.
    pub open spec fn tag(self) -> Seq<char> {
        match self {
            LspLanguage::Rust => "rust"@,
            LspLanguage::Go => "go"@,
        }
    }

    /// The command that starts the language's server on its standard streams.
    pub open spec fn server(self) -> (Seq<char>, Seq<Seq<char>>) {
        match self {
            LspLanguage::Rust => ("rust-analyzer"@, Seq::empty()),
            LspLanguage::Go => ("gopls"@, seq!["serve"@]),
        }
    }

    /// The command that asks the language's server for its version.
    pub open spec fn version_probe(self) -> (Seq<char>, Seq<Seq<char>>) {
        match self {
            LspLanguage::Rust => ("rust-analyzer"@, seq!["--version"@]),
            LspLanguage::Go => ("gopls"@, seq!["version"@]),
        }
    }

    /// The tag as text.
    pub fn as_tag(self) -> (tag: &'static str)
        ensures
            tag@ == self.tag(),
    {
        match self {
            LspLanguage::Rust => "rust",
            LspLanguage::Go => "go",
        }
    }

    /// The command that starts the language's server.
    pub fn server_command(self) -> (command: CommandLine)
        ensures
            command@ == self.server(),
    {
        match self {
            LspLanguage::Rust => CommandLine::new("rust-analyzer", None),
            LspLanguage::Go => CommandLine::new("gopls", Some("serve")),
        }
    }

    /// The command that asks the language's server for its version.
    pub fn version_command(self) -> (command: CommandLine)
        ensures
            command@ == self.version_probe(),
    {
        match self {
            LspLanguage::Rust => CommandLine::new("rust-analyzer", Some("--version")),
            LspLanguage::Go => CommandLine::new("gopls", Some("version")),
        }
    }
}

/// The language that a tag names: `rust` or `go`, in exactly this spelling.
pub open spec fn language_of(tag: Seq<char>) -> Option<LspLanguage> {
    if tag == LspLanguage::Rust.tag() {
        Some(LspLanguage::Rust)
    } else if tag == LspLanguage::Go.tag() {
        Some(LspLanguage::Go)
    } else {
        None
    }
}

/// Reads a language tag.
pub fn parse_language(tag: &str) -> (language: Option<LspLanguage>)
    ensures
        language == language_of(tag@),
{
    if str_eq(tag, "rust") {
        Some(LspLanguage::Rust)
    } else if str_eq(tag, "go") {
        Some(LspLanguage::Go)
    } else {
        None
    }
}

/// A language is found again from its tag.
pub proof fn lemma_tag_names_language(language: LspLanguage)
    ensures
        language_of(language.tag()) == Some(language),
{
    reveal_strlit("rust");
    reveal_strlit("go");
    assert("rust"@.len() == 4);
    assert("go"@.len() == 2);
}

} // verus!
