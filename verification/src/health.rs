//! Whether a language server is there to be started.
//!
//! Running the server's version command is the caller's part; what to run,
//! and what its outcome means, is decided here.

use crate::command::CommandLine;
use crate::error::{BridgeError, ErrorKind};
use crate::framing::header::lower;
use crate::language::{language_of, parse_language};
use vstd::prelude::*;
use vstd::string::StringSliceAdditionalSpecFns;

verus! {

/// How the version command went.
#[derive(Debug)]
pub enum ProbeOutcome {
    /// The program could not be run at all.
    NotRun,
    /// The program ran: whether it exited with success, and what it wrote to
    /// its error stream.
    Exited { success: bool, stderr: Vec<u8> },
}

/// The word that marks a failure in a program's diagnostics.
pub open spec fn error_word() -> Seq<u8> {
    "error".spec_bytes()
}

/// The word stands at `i`, in any case.
pub open spec fn word_at(text: Seq<u8>, i: int) -> bool {
    &&& 0 <= i
    &&& i + error_word().len() <= text.len()
    &&& forall|k: int| 0 <= k < error_word().len() ==> lower(#[trigger] text[i + k]) == error_word()[k]
}

/// The word stands somewhere in `text`, in any case.
pub open spec fn mentions_error(text: Seq<u8>) -> bool {
    exists|i: int| word_at(text, i)
}

/// A server counts as available when its version command ran, exited with
/// success, and wrote nothing about an error.
pub open spec fn available(outcome: ProbeOutcome) -> bool {
    match outcome {
        ProbeOutcome::NotRun => false,
        ProbeOutcome::Exited { success, stderr } => success && !mentions_error(stderr@),
    }
}

/// The text of the failure for a tag that names no language.
pub open spec fn unknown_language(language: Seq<char>) -> (ErrorKind, Seq<char>) {
    (ErrorKind::Configuration, "Unknown language: "@ + language)
}

/// The bytes of the word.
pub proof fn lemma_error_word()
    ensures
        error_word() =~= seq![101u8, 114, 114, 111, 114],
{
    reveal_strlit("error");
    let word = "error"@;
    assert(word.len() == 5);
    assert(vstd::utf8::is_ascii_chars(word));
    vstd::utf8::is_ascii_chars_encode_utf8(word);
}

/// True when the word stands at `i`.
fn word_stands_at(text: &[u8], i: usize) -> (stands: bool)
    requires
        i + 5 <= text@.len(),
    ensures
        stands == word_at(text@, i as int),
{
    let word = "error".as_bytes();
    proof {
        lemma_error_word();
    }
    let len: usize = text.len();
    let mut k: usize = 0;
    while k < 5
        invariant
            k <= 5,
            i + 5 <= len,
            len == text@.len(),
            word@ == error_word(),
            word@.len() == 5,
            forall|j: int| 0 <= j < k ==> lower(#[trigger] text@[i + j]) == error_word()[j],
        decreases 5 - k,
    {
        let b: u8 = text[i + k];
        let small: u8 = if 65 <= b && b <= 90 {
            b + 32
        } else {
            b
        };
        if small != word[k] {
            assert(lower(text@[i + k]) != error_word()[k as int]);
            return false;
        }
        k = k + 1;
    }
    true
}

/// True when `text` mentions an error.
pub fn has_error_word(text: &[u8]) -> (found: bool)
    ensures
        found == mentions_error(text@),
{
    proof {
        lemma_error_word();
    }
    if text.len() < 5 {
        return false;
    }
    let last: usize = text.len() - 5;
    let mut i: usize = 0;
    while i <= last
        invariant
            last + 5 == text@.len(),
            last + 5 <= usize::MAX,
            i <= last + 1,
            error_word().len() == 5,
            forall|j: int| 0 <= j < i ==> !word_at(text@, j),
        decreases last + 1 - i,
    {
        if word_stands_at(text, i) {
            return true;
        }
        i = i + 1;
    }
    false
}

/// What the outcome of the version command says.
pub fn probe_verdict(outcome: &ProbeOutcome) -> (verdict: bool)
    ensures
        verdict == available(*outcome),
{
    match outcome {
        ProbeOutcome::NotRun => false,
        ProbeOutcome::Exited { success, stderr } => *success && !has_error_word(stderr.as_slice()),
    }
}

/// The version command of the server for `language`. A tag that names no
/// language is refused.
pub fn probe_command(language: &str) -> (command: Result<CommandLine, BridgeError>)
    ensures
        match language_of(language@) {
            Some(l) => command matches Ok(c) && c@ == l.version_probe(),
            None => command matches Err(e) && e@ == unknown_language(language@),
        },
{
    match parse_language(language) {
        Some(l) => Ok(l.version_command()),
        None => Err(BridgeError::new(ErrorKind::Configuration, "Unknown language: ", language)),
    }
}

/// Whether the server for `language` is available, from the outcome of its
/// version command. A tag that names no language is refused, whatever the
/// outcome.
pub fn check_lsp_available(language: &str, outcome: &ProbeOutcome) -> (answer: Result<
    bool,
    BridgeError,
>)
    ensures
        match language_of(language@) {
            Some(_) => answer == Ok::<bool, BridgeError>(available(*outcome)),
            None => answer matches Err(e) && e@ == unknown_language(language@),
        },
{
    match parse_language(language) {
        Some(_) => Ok(probe_verdict(outcome)),
        None => Err(BridgeError::new(ErrorKind::Configuration, "Unknown language: ", language)),
    }
}

} // verus!
