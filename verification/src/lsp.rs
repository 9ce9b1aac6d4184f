//! Language-server instances: planning a start, registering what was
//! started, and stopping.
//!
//! Starting the process and binding its listener is the caller's part. The
//! caller asks for a plan, starts what the plan names, and hands the outcome
//! back; the registry changes only here.

use crate::error::{BridgeError, ErrorKind};
use crate::command::CommandLine;
use crate::language::{language_of, parse_language, LspLanguage};
use crate::registry::Registry;
use vstd::prelude::*;

verus! {

/// What a caller learns of a started instance.
#[derive(Debug, Clone)]
pub struct StartLspResult {
    pub lsp_id: String,
    pub port: u16,
}

/// How a start ended well: what the caller learns, and the instance that
/// stood under the id before, if one did. That instance has left the
/// registry and is the caller's to tear down.
pub struct Started<H> {
    pub result: StartLspResult,
    pub displaced: Option<LspInstance<H>>,
}

/// What is to be started: the id that the instance will stand under, and the
/// program to run in the project's root.
#[derive(Debug)]
pub struct LspLaunch {
    pub lsp_id: String,
    pub language: LspLanguage,
    pub root_path: String,
    pub command: CommandLine,
}

/// What starting gave: the port on which the listener is ready, and the
/// caller's handle on the process and its tasks.
pub struct Bound<H> {
    pub port: u16,
    pub handle: H,
}

/// A running instance.
pub struct LspInstance<H> {
    pub language: LspLanguage,
    pub root_path: String,
    pub port: u16,
    pub handle: H,
}

/// The running instances by id.
pub struct LspState<H> {
    servers: Registry<LspInstance<H>>,
}

impl<H> View for LspState<H> {
    type V = Map<Seq<char>, LspInstance<H>>;

    closed spec fn view(&self) -> Map<Seq<char>, LspInstance<H>> {
        self.servers@
    }
}

/// The text of the failure for a tag that names no language.
pub open spec fn unsupported(language: Seq<char>) -> (ErrorKind, Seq<char>) {
    (ErrorKind::Configuration, "Unsupported language: "@ + language)
}

/// The text of the failure for a server that did not start.
pub open spec fn start_failed(cause: Seq<char>) -> (ErrorKind, Seq<char>) {
    (ErrorKind::Spawn, "Failed to start LSP: "@ + cause)
}

/// The text of the failure for an id under which no instance stands.
pub open spec fn no_server(lsp_id: Seq<char>) -> (ErrorKind, Seq<char>) {
    (ErrorKind::Lookup, "No LSP server with id: "@ + lsp_id)
}

/// True when stopping `lsp_id` succeeds: an instance stands under it.
pub open spec fn stop_succeeds<H>(servers: Map<Seq<char>, LspInstance<H>>, lsp_id: Seq<char>) -> bool {
    servers.contains_key(lsp_id)
}

/// The instances after `lsp_id` was stopped, whether or not it stood there.
pub open spec fn after_stop<H>(
    servers: Map<Seq<char>, LspInstance<H>>,
    lsp_id: Seq<char>,
) -> Map<Seq<char>, LspInstance<H>> {
    servers.remove(lsp_id)
}

/// The instance that a plan and what starting gave make up.
pub open spec fn instance_of<H>(launch: LspLaunch, bound: Bound<H>) -> LspInstance<H> {
    LspInstance {
        language: launch.language,
        root_path: launch.root_path,
        port: bound.port,
        handle: bound.handle,
    }
}

/// A hexadecimal digit, letters in lower case.
pub open spec fn is_hex(c: char) -> bool {
    ('0' <= c <= '9') || ('a' <= c <= 'f')
}

/// The form of an instance id: a random UUID as text, which is 32
/// hexadecimal digits in five groups with hyphens between them, of which
/// the first digit of the third group is the version, 4, and the first of
/// the fourth group is the variant, one of 8, 9, a and b.
pub open spec fn is_instance_id(id: Seq<char>) -> bool {
    &&& id.len() == 36
    &&& forall|i: int|
        0 <= i < 36 ==> if i == 8 || i == 13 || i == 18 || i == 23 {
            #[trigger] id[i] == '-'
        } else {
            is_hex(id[i])
        }
    &&& id[14] == '4'
    &&& (id[19] == '8' || id[19] == '9' || id[19] == 'a' || id[19] == 'b')
}

/// `Uuid::new_v4` of the uuid crate, written out as the crate's `Display`
/// does. The id is random: only the form of its text is claimed. Where the
/// system has no random bytes to give, the crate panics.
#[verifier::external_body]
fn fresh_id() -> (id: String)
    ensures
        is_instance_id(id@),
{
    uuid::Uuid::new_v4().to_string()
}

/// Plans the start of the server for `language` under the id `lsp_id`. A tag
/// that names no language is refused.
pub fn plan_launch(language: &str, root_path: &str, lsp_id: String) -> (plan: Result<
    LspLaunch,
    BridgeError,
>)
    ensures
        match language_of(language@) {
            Some(l) => plan matches Ok(launch) && launch.lsp_id == lsp_id && launch.language == l
                && launch.root_path@ == root_path@ && launch.command@ == l.server(),
            None => plan matches Err(e) && e@ == unsupported(language@),
        },
{
    match parse_language(language) {
        Some(l) => Ok(
            LspLaunch {
                lsp_id,
                language: l,
                root_path: root_path.to_owned(),
                command: l.server_command(),
            },
        ),
        None => Err(BridgeError::new(ErrorKind::Configuration, "Unsupported language: ", language)),
    }
}

/// Plans the start of the server for `language` under a fresh id.
pub fn prepare_lsp_start(language: &str, root_path: &str) -> (plan: Result<LspLaunch, BridgeError>)
    ensures
        match language_of(language@) {
            Some(l) => plan matches Ok(launch) && is_instance_id(launch.lsp_id@)
                && launch.language == l && launch.root_path@ == root_path@ && launch.command@
                == l.server(),
            None => plan matches Err(e) && e@ == unsupported(language@),
        },
{
    match parse_language(language) {
        Some(_) => plan_launch(language, root_path, fresh_id()),
        None => Err(BridgeError::new(ErrorKind::Configuration, "Unsupported language: ", language)),
    }
}

impl<H> LspState<H> {
    /// No instance runs.
    pub fn new() -> (state: LspState<H>)
        ensures
            state@ == Map::<Seq<char>, LspInstance<H>>::empty(),
    {
        LspState { servers: Registry::new() }
    }

    /// The instance that stands under `lsp_id`.
    pub fn get(&self, lsp_id: &str) -> (instance: Option<&LspInstance<H>>)
        ensures
            match instance {
                Some(i) => self@.contains_key(lsp_id@) && *i == self@[lsp_id@],
                None => !self@.contains_key(lsp_id@),
            },
    {
        self.servers.get(lsp_id)
    }

    /// The number of instances.
    pub fn len(&self) -> (count: usize)
        ensures
            self@.dom().finite(),
            count == self@.dom().len(),
    {
        self.servers.len()
    }
}

/// The instance under `lsp_id`, if there is one.
pub open spec fn instance_at<H>(servers: Map<Seq<char>, LspInstance<H>>, lsp_id: Seq<char>) -> Option<
    LspInstance<H>,
> {
    if servers.contains_key(lsp_id) {
        Some(servers[lsp_id])
    } else {
        None
    }
}

/// Ends a start. Where the server came up, the instance is registered under
/// the planned id and the caller learns the id and the port; where it did
/// not, nothing is registered and the cause is reported.
pub fn start_lsp_server<H>(
    state: &mut LspState<H>,
    launch: LspLaunch,
    spawned: Result<Bound<H>, String>,
) -> (result: Result<Started<H>, BridgeError>)
    ensures
        match spawned {
            Ok(bound) => {
                &&& final(state)@ == old(state)@.insert(launch.lsp_id@, instance_of(launch, bound))
                &&& result matches Ok(started)
                &&& started.result.lsp_id@ == launch.lsp_id@
                &&& started.result.port == bound.port
                &&& started.displaced == instance_at(old(state)@, launch.lsp_id@)
            },
            Err(cause) => {
                &&& final(state)@ == old(state)@
                &&& result matches Err(e)
                &&& e@ == start_failed(cause@)
            },
        },
{
    match spawned {
        Ok(bound) => {
            let lsp_id = launch.lsp_id.clone();
            let port = bound.port;
            let instance = LspInstance {
                language: launch.language,
                root_path: launch.root_path,
                port,
                handle: bound.handle,
            };
            let displaced = state.servers.insert(launch.lsp_id, instance);
            Ok(Started { result: StartLspResult { lsp_id, port }, displaced })
        },
        Err(cause) => Err(
            BridgeError::new(ErrorKind::Spawn, "Failed to start LSP: ", cause.as_str()),
        ),
    }
}

/// Stops the instance that stands under `lsp_id`: it leaves the registry at
/// once and is handed to the caller, who tears it down. Under an id where
/// nothing stands this fails and changes nothing.
pub fn stop_lsp_server<H>(state: &mut LspState<H>, lsp_id: &str) -> (result: Result<
    LspInstance<H>,
    BridgeError,
>)
    ensures
        final(state)@ == after_stop(old(state)@, lsp_id@),
        result is Ok <==> stop_succeeds(old(state)@, lsp_id@),
        match result {
            Ok(instance) => instance == old(state)@[lsp_id@],
            Err(e) => e@ == no_server(lsp_id@) && final(state)@ == old(state)@,
        },
{
    match state.servers.remove(lsp_id) {
        Some(instance) => Ok(instance),
        None => {
            proof {
                assert(old(state)@.remove(lsp_id@) =~= old(state)@);
            }
            Err(BridgeError::new(ErrorKind::Lookup, "No LSP server with id: ", lsp_id))
        },
    }
}

/// Stopping is idempotent. Under an id where nothing stands it fails and
/// changes nothing; after a stop, whether it succeeded or not, nothing stands
/// under the id, so that a second stop fails and changes nothing.
pub proof fn lemma_stop_is_idempotent<H>(servers: Map<Seq<char>, LspInstance<H>>, lsp_id: Seq<char>)
    ensures
        !stop_succeeds(servers, lsp_id) ==> after_stop(servers, lsp_id) == servers,
        !stop_succeeds(after_stop(servers, lsp_id), lsp_id),
        after_stop(after_stop(servers, lsp_id), lsp_id) == after_stop(servers, lsp_id),
{
    assert(!servers.contains_key(lsp_id) ==> servers.remove(lsp_id) =~= servers);
    assert(servers.remove(lsp_id).remove(lsp_id) =~= servers.remove(lsp_id));
}

/// Instances under other ids are not touched by a stop.
pub proof fn lemma_stop_keeps_others<H>(
    servers: Map<Seq<char>, LspInstance<H>>,
    lsp_id: Seq<char>,
    other: Seq<char>,
)
    requires
        other != lsp_id,
    ensures
        after_stop(servers, lsp_id).contains_key(other) == servers.contains_key(other),
        servers.contains_key(other) ==> after_stop(servers, lsp_id)[other] == servers[other],
{
}

} // verus!
