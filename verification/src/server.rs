//! The decisions of the resource server: which map requests are served,
//! the name of the archive sent back, and who may refresh its lists.

use vstd::prelude::*;
use vstd::string::*;
use crate::naming::{ResourceIdentifier, spec_sanitize_identifier, sanitize_identifier};
use crate::text::{str_eq, spec_replace_all, replace_all};

verus! {

/// Why a map request is turned down before any file is looked at.
#[derive(Clone, Copy, PartialEq, Eq, Structural, Debug)]
pub enum MapRequestRejection {
    NoMapName,
    NoGameMod,
    InvalidIdentifier,
}

impl MapRequestRejection {
    /// The body of the refusal sent back.
    pub fn message(&self) -> (res: &'static str)
        ensures
            res@ == match *self {
                MapRequestRejection::NoMapName => "No map name provided."@,
                MapRequestRejection::NoGameMod => "No game mod provided."@,
                MapRequestRejection::InvalidIdentifier => "Invalid resource identifier."@,
            },
    {
        match self {
            MapRequestRejection::NoMapName => "No map name provided.",
            MapRequestRejection::NoGameMod => "No game mod provided.",
            MapRequestRejection::InvalidIdentifier => "Invalid resource identifier.",
        }
    }
}

/// Checks a map request: it needs a map name and a game mod, and the
/// identifier must pass the sanitizer, whose result is served.
pub fn validate_map_request(identifier: &ResourceIdentifier) -> (res: Result<ResourceIdentifier, MapRequestRejection>)
    ensures
        identifier.map_name@.len() == 0 ==> res == Err::<ResourceIdentifier, MapRequestRejection>(MapRequestRejection::NoMapName),
        identifier.map_name@.len() > 0 && identifier.game_mod@.len() == 0
            ==> res == Err::<ResourceIdentifier, MapRequestRejection>(MapRequestRejection::NoGameMod),
        identifier.map_name@.len() > 0 && identifier.game_mod@.len() > 0 ==> match res {
            Ok(r) => spec_sanitize_identifier(identifier.map_name@, identifier.game_mod@) == Some((r.map_name@, r.game_mod@)),
            Err(e) => e == MapRequestRejection::InvalidIdentifier
                && spec_sanitize_identifier(identifier.map_name@, identifier.game_mod@) is None,
        },
{
    if identifier.map_name.as_str().unicode_len() == 0 {
        return Err(MapRequestRejection::NoMapName);
    }
    if identifier.game_mod.as_str().unicode_len() == 0 {
        return Err(MapRequestRejection::NoGameMod);
    }
    match sanitize_identifier(identifier) {
        Some(r) => Ok(r),
        None => Err(MapRequestRejection::InvalidIdentifier),
    }
}

/// The file name of the archive sent for a map: the map name with `.bsp`
/// replaced by `.zip`.
pub fn map_archive_file_name(map_name: &str) -> (res: String)
    ensures
        res@ == spec_replace_all(map_name@, ".bsp"@, ".zip"@),
{
    proof {
        reveal_strlit(".bsp");
    }
    replace_all(map_name, ".bsp", ".zip")
}

/// A list refresh is allowed only with the server's secret.
pub fn update_allowed(input_secret: &str, secret: &str) -> (res: bool)
    ensures
        res == (input_secret@ == secret@),
{
    str_eq(input_secret, secret)
}

/// The HTTP status that tells a client that nothing was found.
pub const HTTP_NOT_FOUND: u16 = 404;

/// The HTTP status of an empty answer.
pub const HTTP_NO_CONTENT: u16 = 204;

/// What a client does with the status of an answer to a download.
#[derive(Clone, Copy, PartialEq, Eq, Structural, Debug)]
pub enum DownloadStatus {
    /// Not found: the body carries the server's message.
    NotFound,
    /// Another client or server error.
    Failed,
    /// The body is the download.
    Proceed,
}

/// Sorts the status of an answer: 404 is reported with its body, other
/// statuses from 400 to 599 are errors, the rest are read.
pub fn download_status(status: u16) -> (res: DownloadStatus)
    ensures
        res == (if status == 404 {
            DownloadStatus::NotFound
        } else if 400 <= status <= 599 {
            DownloadStatus::Failed
        } else {
            DownloadStatus::Proceed
        }),
{
    if status == HTTP_NOT_FOUND {
        DownloadStatus::NotFound
    } else if 400 <= status && status <= 599 {
        DownloadStatus::Failed
    } else {
        DownloadStatus::Proceed
    }
}

/// What a client does with the answer to its request for the common
/// resources.
#[derive(Clone, Copy, PartialEq, Eq, Structural, Debug)]
pub enum CommonResourceStatus {
    /// A client or server error.
    Failed,
    /// The server has no common resources: they are an empty map.
    Empty,
    /// The body is the archive of the common resources.
    Archive,
}

/// Sorts the status of the answer to a request for the common resources:
/// errors from 400 to 599 fail, "no content" means none, the rest carries
/// the archive.
pub fn common_resource_status(status: u16) -> (res: CommonResourceStatus)
    ensures
        res == (if 400 <= status <= 599 {
            CommonResourceStatus::Failed
        } else if status == 204 {
            CommonResourceStatus::Empty
        } else {
            CommonResourceStatus::Archive
        }),
{
    if 400 <= status && status <= 599 {
        CommonResourceStatus::Failed
    } else if status == HTTP_NO_CONTENT {
        CommonResourceStatus::Empty
    } else {
        CommonResourceStatus::Archive
    }
}

} // verus!
