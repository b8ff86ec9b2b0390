//! The decisions of the self-update: which version a release announces, and
//! what to do about it.

use crate::json::{error_text, json_record, parse_record};
use crate::text::{from_chars, text_eq, text_less, text_lt, to_chars};
use vstd::prelude::*;

verus! {

/// Why the latest version is not known.
#[derive(Debug, Clone, PartialEq, Eq)]
pub enum UpdateError {
    /// The request for the latest release was not answered with success.
    Status,
    /// The answer is no JSON document; the reason is given.
    Parse(String),
    /// The answer names no version.
    Format,
}

impl UpdateError {
    /// The message shown to the user.
    pub fn message(&self) -> (text: String)
        ensures
            text@ == match *self {
                UpdateError::Status => "Failed to get latest version information"@,
                UpdateError::Parse(cause) => "Failed to parse response: "@ + cause@,
                UpdateError::Format => "Invalid version format in response"@,
            },
    {
        match self {
            UpdateError::Status => "Failed to get latest version information".to_owned(),
            UpdateError::Parse(cause) => {
                let mut text = "Failed to parse response: ".to_owned();
                text.append(cause.as_str());
                text
            },
            UpdateError::Format => "Invalid version format in response".to_owned(),
        }
    }
}

/// The key under which a release gives its tag.
pub open spec fn tag_key() -> Seq<char> {
    "tag_name"@
}

/// The value of the first field with the given key, where that value is a
/// string.
pub open spec fn field_text(fields: Seq<(Seq<char>, Option<Seq<char>>)>, key: Seq<char>) -> Option<
    Seq<char>,
>
    decreases fields.len(),
{
    if fields.len() == 0 {
        None
    } else if fields[0].0 == key {
        fields[0].1
    } else {
        field_text(fields.skip(1), key)
    }
}

/// A tag without the letters `v` that it starts with.
pub open spec fn version_of_tag(tag: Seq<char>) -> Seq<char>
    decreases tag.len(),
{
    if tag.len() > 0 && tag[0] == 'v' {
        version_of_tag(tag.skip(1))
    } else {
        tag
    }
}

/// The version that the fields of a release announce.
pub open spec fn announced_version(fields: Seq<(Seq<char>, Option<Seq<char>>)>) -> Option<
    Seq<char>,
> {
    match field_text(fields, tag_key()) {
        Some(tag) => Some(version_of_tag(tag)),
        None => None,
    }
}

/// Takes the version out of the fields of a release: the text under
/// `tag_name`, without the letters `v` that it starts with.
pub fn version_from_fields(fields: &Vec<(String, Option<String>)>) -> (version: Option<String>)
    ensures
        version.deep_view() == announced_version(fields.deep_view()),
{
    let ghost all = fields.deep_view();
    let mut i: usize = 0;
    proof {
        assert(all.skip(0) =~= all);
    }
    while i < fields.len()
        invariant
            i <= fields.len(),
            all == fields.deep_view(),
            field_text(all, tag_key()) == field_text(all.skip(i as int), tag_key()),
        decreases fields.len() - i,
    {
        proof {
            assert(all.skip(i as int)[0] == all[i as int]);
            assert(all[i as int] == fields@[i as int].deep_view());
            assert(all.skip(i as int).skip(1) =~= all.skip(i + 1));
        }
        if text_eq(fields[i].0.as_str(), "tag_name") {
            return match &fields[i].1 {
                Some(tag) => Some(strip_tag(tag.as_str())),
                None => None,
            };
        }
        i += 1;
    }
    None
}

fn strip_tag(tag: &str) -> (version: String)
    ensures
        version@ == version_of_tag(tag@),
{
    let chars = to_chars(tag);
    let mut start: usize = 0;
    proof {
        assert(chars@.skip(0) =~= chars@);
    }
    while start < chars.len() && chars[start] == 'v'
        invariant
            start <= chars.len(),
            chars@ == tag@,
            version_of_tag(tag@) == version_of_tag(chars@.skip(start as int)),
        decreases chars.len() - start,
    {
        proof {
            assert(chars@.skip(start as int)[0] == chars@[start as int]);
            assert(chars@.skip(start as int).skip(1) =~= chars@.skip(start + 1));
        }
        start += 1;
    }
    proof {
        if start < chars.len() {
            assert(chars@.skip(start as int)[0] == chars@[start as int]);
        }
    }
    let mut rest: Vec<char> = Vec::new();
    let mut i: usize = start;
    while i < chars.len()
        invariant
            start <= i <= chars.len(),
            rest@ == chars@.subrange(start as int, i as int),
        decreases chars.len() - i,
    {
        rest.push(chars[i]);
        proof {
            assert(chars@.subrange(start as int, i + 1) =~= chars@.subrange(
                start as int,
                i as int,
            ).push(chars@[i as int]));
        }
        i += 1;
    }
    proof {
        assert(chars@.subrange(start as int, chars.len() as int) =~= chars@.skip(start as int));
    }
    from_chars(&rest)
}

/// Reads the latest version out of the answer to the request for the latest
/// release: whether the request was answered with success, and the text of
/// the answer.
pub fn get_latest_version(status_ok: bool, body: &str) -> (outcome: Result<String, UpdateError>)
    ensures
        match outcome {
            Ok(version) => {
                &&& status_ok
                &&& json_record(body@) matches Some(Some(fields))
                &&& announced_version(fields) == Some(version@)
            },
            Err(UpdateError::Status) => !status_ok,
            Err(UpdateError::Parse(_)) => status_ok && json_record(body@) is None,
            Err(UpdateError::Format) => {
                &&& status_ok
                &&& json_record(body@) matches Some(record)
                &&& record matches Some(fields) ==> announced_version(fields) is None
            },
        },
{
    if !status_ok {
        return Err(UpdateError::Status);
    }
    match parse_record(body) {
        Err(error) => Err(UpdateError::Parse(error_text(&error))),
        Ok(None) => Err(UpdateError::Format),
        Ok(Some(fields)) => match version_from_fields(&fields) {
            Some(version) => Ok(version),
            None => Err(UpdateError::Format),
        },
    }
}

/// Whether the user may write where the tool is installed: the user owns the
/// place or is the superuser. `owner` is the owner of the place, where that
/// could be found out.
pub fn check_install_permissions(owner: Option<u32>, user: u32) -> (allowed: bool)
    ensures
        allowed == (owner matches Some(id) && (id == user || user == 0)),
{
    match owner {
        Some(id) => id == user || user == 0,
        None => false,
    }
}

/// What to do about an update.
#[derive(Debug, Clone, Copy, PartialEq, Eq, Structural)]
pub enum UpdateDecision {
    /// The latest version is the one that runs.
    UpToDate,
    /// The latest version is older than the one that runs.
    Older,
    /// The user may not write where the tool is installed.
    NotPermitted,
    /// The latest version is to be installed.
    Install,
}

/// What is to be done about an update, before anything is done.
pub open spec fn decision(
    force: bool,
    current: Seq<char>,
    latest: Seq<char>,
    allowed: bool,
) -> UpdateDecision {
    if !force && latest == current {
        UpdateDecision::UpToDate
    } else if !force && text_lt(latest, current) {
        UpdateDecision::Older
    } else if !allowed {
        UpdateDecision::NotPermitted
    } else {
        UpdateDecision::Install
    }
}

/// Decides what to do about an update. Versions are compared as texts, and
/// `force` sets the comparison aside.
pub fn decide_update(force: bool, current: &str, latest: &str, allowed: bool) -> (choice:
    UpdateDecision)
    ensures
        choice == decision(force, current@, latest@, allowed),
{
    if !force && text_eq(latest, current) {
        UpdateDecision::UpToDate
    } else if !force && text_less(latest, current) {
        UpdateDecision::Older
    } else if !allowed {
        UpdateDecision::NotPermitted
    } else {
        UpdateDecision::Install
    }
}

} // verus!
