//! Finding the project that a path belongs to: the nearest directory above
//! the path that holds a manifest of a supported language.
//!
//! Looking into directories is the caller's part. The caller walks up from
//! the path, notes for each directory which of the manifests it holds, and
//! hands the notes over, nearest directory first.

use crate::language::LspLanguage;
use vstd::prelude::*;

verus! {

/// A project: the tag of its language, and its root directory.
#[derive(Debug)]
pub struct ProjectInfo {
    pub project_type: String,
    pub root_path: String,
}

/// One line of the manifest table: a file name, and the language whose
/// projects hold a file of that name in their root.
#[derive(Debug)]
pub struct ManifestRule {
    pub file_name: String,
    pub language: LspLanguage,
}

/// What was noted of one directory: `found[i]` says whether the directory
/// holds the file of the table's line `i`. A line without a note counts as
/// not found.
#[derive(Debug)]
pub struct DirProbe {
    pub dir: String,
    pub found: Vec<bool>,
}

/// Why no project was found.
#[derive(Debug, Clone, Copy, PartialEq, Eq, Structural)]
pub enum DetectError {
    /// The path itself does not exist.
    PathMissing,
    /// No directory above the path holds a manifest.
    Unknown,
}

/// The manifest table. Where a directory holds several manifests, the
/// earlier line wins.
pub open spec fn manifest_table() -> Seq<(Seq<char>, LspLanguage)> {
    seq![("Cargo.toml"@, LspLanguage::Rust), ("go.mod"@, LspLanguage::Go)]
}

/// The first line at or after `k` whose file was found.
pub open spec fn first_rule(found: Seq<bool>, k: int) -> Option<int>
    decreases manifest_table().len() - k,
{
    if k < 0 || k >= manifest_table().len() || k >= found.len() {
        None
    } else if found[k] {
        Some(k)
    } else {
        first_rule(found, k + 1)
    }
}

/// The language of a directory: that of the first line whose file it holds.
pub open spec fn dir_language(found: Seq<bool>) -> Option<LspLanguage> {
    match first_rule(found, 0) {
        Some(i) => Some(manifest_table()[i].1),
        None => None,
    }
}

/// The first directory at or after `k` that has a language.
pub open spec fn nearest(ancestors: Seq<DirProbe>, k: int) -> Option<int>
    decreases ancestors.len() - k,
{
    if k < 0 || k >= ancestors.len() {
        None
    } else if dir_language(ancestors[k].found@) is Some {
        Some(k)
    } else {
        nearest(ancestors, k + 1)
    }
}

/// The project of a path, as language tag and root: the nearest directory
/// above the path that has a language, with that language.
pub open spec fn detected(path_exists: bool, ancestors: Seq<DirProbe>) -> Result<
    (Seq<char>, Seq<char>),
    DetectError,
> {
    if !path_exists {
        Err(DetectError::PathMissing)
    } else {
        match nearest(ancestors, 0) {
            Some(i) => Ok((dir_language(ancestors[i].found@).unwrap().tag(), ancestors[i].dir@)),
            None => Err(DetectError::Unknown),
        }
    }
}

/// `first_rule` finds the first line whose file was found, if there is one.
pub proof fn lemma_first_rule(found: Seq<bool>, k: int)
    requires
        0 <= k,
    ensures
        match first_rule(found, k) {
            Some(i) => k <= i < manifest_table().len() && i < found.len() && found[i] && forall|
                j: int,
            | k <= j < i ==> !found[j],
            None => forall|j: int| k <= j < manifest_table().len() && j < found.len() ==> !found[j],
        },
    decreases manifest_table().len() - k,
{
    if k < manifest_table().len() && k < found.len() && !found[k] {
        lemma_first_rule(found, k + 1);
    }
}

/// `nearest` finds the nearest directory that has a language, if there is
/// one.
pub proof fn lemma_nearest(ancestors: Seq<DirProbe>, k: int)
    requires
        0 <= k,
    ensures
        match nearest(ancestors, k) {
            Some(i) => k <= i < ancestors.len() && dir_language(ancestors[i].found@) is Some
                && forall|j: int| k <= j < i ==> dir_language(#[trigger] ancestors[j].found@) is None,
            None => forall|j: int|
                k <= j < ancestors.len() ==> dir_language(#[trigger] ancestors[j].found@) is None,
        },
    decreases ancestors.len() - k,
{
    if k < ancestors.len() && dir_language(ancestors[k].found@) is None {
        lemma_nearest(ancestors, k + 1);
    }
}

/// The manifest table.
pub fn manifest_rules() -> (rules: Vec<ManifestRule>)
    ensures
        rules@.len() == manifest_table().len(),
        forall|i: int|
            0 <= i < rules@.len() ==> (#[trigger] rules@[i]).file_name@ == manifest_table()[i].0
                && rules@[i].language == manifest_table()[i].1,
{
    let mut rules: Vec<ManifestRule> = Vec::new();
    rules.push(ManifestRule { file_name: "Cargo.toml".to_owned(), language: LspLanguage::Rust });
    rules.push(ManifestRule { file_name: "go.mod".to_owned(), language: LspLanguage::Go });
    rules
}

/// The language of a directory of which `found` was noted.
pub fn language_of_dir(found: &Vec<bool>) -> (language: Option<LspLanguage>)
    ensures
        language == dir_language(found@),
{
    let rules = manifest_rules();
    let mut i: usize = 0;
    while i < rules.len() && i < found.len()
        invariant
            rules@.len() == manifest_table().len(),
            forall|j: int|
                0 <= j < rules@.len() ==> (#[trigger] rules@[j]).language == manifest_table()[j].1,
            first_rule(found@, 0) == first_rule(found@, i as int),
        decreases rules@.len() - i,
    {
        if found[i] {
            return Some(rules[i].language);
        }
        i = i + 1;
    }
    None
}

impl DetectError {
    /// The text of the failure.
    pub fn to_string(&self) -> (text: String)
        ensures
            text@ == match *self {
                DetectError::PathMissing => "Path does not exist"@,
                DetectError::Unknown => "unknown"@,
            },
    {
        match self {
            DetectError::PathMissing => "Path does not exist".to_owned(),
            DetectError::Unknown => "unknown".to_owned(),
        }
    }
}

/// Names the project of a path from what was noted of the directories above
/// it, nearest first.
pub fn detect_project_type(path_exists: bool, ancestors: &Vec<DirProbe>) -> (project: Result<
    ProjectInfo,
    DetectError,
>)
    ensures
        match project {
            Ok(info) => detected(path_exists, ancestors@) == Ok::<
                (Seq<char>, Seq<char>),
                DetectError,
            >((info.project_type@, info.root_path@)),
            Err(e) => detected(path_exists, ancestors@) == Err::<(Seq<char>, Seq<char>), DetectError>(
                e,
            ),
        },
{
    if !path_exists {
        return Err(DetectError::PathMissing);
    }
    let mut i: usize = 0;
    while i < ancestors.len()
        invariant
            path_exists,
            nearest(ancestors@, 0) == nearest(ancestors@, i as int),
        decreases ancestors@.len() - i,
    {
        match language_of_dir(&ancestors[i].found) {
            Some(language) => {
                return Ok(
                    ProjectInfo {
                        project_type: language.as_tag().to_owned(),
                        root_path: ancestors[i].dir.clone(),
                    },
                );
            },
            None => {},
        }
        i = i + 1;
    }
    Err(DetectError::Unknown)
}

} // verus!
