//! Save-file version bookkeeping.
use crate::text::{lex_less, str_equal, str_less};
use vstd::prelude::*;

verus! {

/// The version written into save files.
pub const SAVE_VERSION: &'static str = "1.0.0";

/// All save versions so far, oldest first.
pub fn version_history() -> (history: Vec<&'static str>)
    ensures
        history@.len() == 1,
        history@[0]@ == SAVE_VERSION@,
{
    let mut history: Vec<&'static str> = Vec::new();
    history.push(SAVE_VERSION);
    history
}

/// No version of the history comes before the one preceding it.
pub open spec fn history_ordered(history: Seq<&str>) -> bool {
    forall|i: int| 1 <= i < history.len() ==> !lex_less(#[trigger] history[i]@, history[i - 1]@)
}

/// Checks that a version history is in order.
pub fn is_version_history_ordered(history: &[&str]) -> (ordered: bool)
    ensures
        ordered == history_ordered(history@),
{
    let n = history.len();
    let mut i: usize = 1;
    while i < n
        invariant
            n == history@.len(),
            1 <= i,
            forall|j: int| 1 <= j < i && j < n ==> !lex_less(#[trigger] history@[j]@, history@[j - 1]@),
        decreases n - i,
    {
        if str_less(history[i], history[i - 1]) {
            return false;
        }
        i = i + 1;
    }
    true
}

/// Ensures the version history is ordered correctly.
pub fn validate_versioning() -> (valid: bool)
    ensures
        valid,
{
    let history = version_history();
    is_version_history_ordered(history.as_slice())
}

/// What `serde_json` reads from the text of a save file: `None` when the text
/// is not JSON, otherwise the string in its `version` field, if it has one.
pub uninterp spec fn saved_version(json: Seq<char>) -> Option<Option<Seq<char>>>;

/// Parses `json` with `serde_json::from_str` into a `serde_json::Value` and
/// reads its `version` field with `Value::get` and `Value::as_str`. The
/// result is `saved_version` of the text: `Err` with `serde_json`'s error
/// message when the text is not JSON, `Ok(None)` when there is no string
/// `version` field, `Ok(Some(v))` with that field otherwise. The wording of
/// the error message is not stated.
#[verifier::external_body]
fn parse_saved_version(json: &str) -> (parsed: Result<Option<String>, String>)
    ensures
        match parsed {
            Err(_) => saved_version(json@) is None,
            Ok(None) => saved_version(json@) == Some(None::<Seq<char>>),
            Ok(Some(v)) => saved_version(json@) == Some(Some(v@)),
        },
{
    match serde_json::from_str::<serde_json::Value>(json) {
        Ok(data) => Ok(data.get("version").and_then(|v| v.as_str()).map(|v| v.to_string())),
        Err(e) => Err(e.to_string()),
    }
}

/// Why a save file cannot be loaded.
#[derive(Debug, Clone, PartialEq, Eq)]
pub enum SaveCheck {
    /// The text is not JSON; holds the parser's message.
    NotJson(String),
    /// The save records no version.
    MissingVersion,
    /// The save records a version other than `SAVE_VERSION`.
    Outdated,
}

/// Decides on a parsed save: `parsed` is the parser's message for text that
/// is not JSON, or the version the save records, if any. Only a save that
/// records `SAVE_VERSION` passes.
pub fn check_parsed_save(parsed: Result<Option<String>, String>) -> (result: Result<(), SaveCheck>)
    ensures
        match parsed {
            Err(message) => result == Err::<(), SaveCheck>(SaveCheck::NotJson(message)),
            Ok(None) => result == Err::<(), SaveCheck>(SaveCheck::MissingVersion),
            Ok(Some(v)) => if v@ == SAVE_VERSION@ {
                result is Ok
            } else {
                result == Err::<(), SaveCheck>(SaveCheck::Outdated)
            },
        },
{
    match parsed {
        Err(message) => Err(SaveCheck::NotJson(message)),
        Ok(None) => Err(SaveCheck::MissingVersion),
        Ok(Some(v)) => {
            if is_save_up_to_date(Some(v.as_str())) {
                Ok(())
            } else {
                Err(SaveCheck::Outdated)
            }
        },
    }
}

/// Checks the text of a save file before it is loaded: it must be JSON whose
/// `version` field is `SAVE_VERSION`.
pub fn check_save_text(json: &str) -> (result: Result<(), SaveCheck>)
    ensures
        result is Ok <==> saved_version(json@) == Some(Some(SAVE_VERSION@)),
        (result matches Err(SaveCheck::NotJson(_))) <==> saved_version(json@) is None,
        (result matches Err(SaveCheck::MissingVersion)) <==> saved_version(json@) == Some(
            None::<Seq<char>>,
        ),
        (result matches Err(SaveCheck::Outdated)) <==> (saved_version(json@) matches Some(Some(v))
            && v != SAVE_VERSION@),
{
    let parsed = parse_saved_version(json);
    check_parsed_save(parsed)
}

/// Checks if a save file is up to date, given the version it records (if any).
pub fn is_save_up_to_date(version: Option<&str>) -> (up_to_date: bool)
    ensures
        up_to_date == (version matches Some(v) && v@ == SAVE_VERSION@),
{
    match version {
        Some(v) => str_equal(v, SAVE_VERSION),
        None => false,
    }
}

} // verus!
