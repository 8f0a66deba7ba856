//! Verified core of a component-library loader: archive extraction for
//! KiCad libraries, configuration resolution and offline asset lookup.
pub mod archive;
pub mod assets;
pub mod config;
pub mod cse;
pub mod error;
pub mod extractors;
pub mod format;
pub mod kicad;
pub mod matching;
pub mod mcp;
pub mod order;
pub mod path;
pub mod requirements;
pub mod scan;
pub mod symbols;
pub mod text;

use vstd::prelude::*;
use crate::config::{
    expansions_known, format_expands_without_lookup, format_resolved, resolved_by, Config,
    FormatExpansion, ResolvedFormat,
};
use crate::error::LoaderError;

verus! {

/// Where the part archive of a download comes from.
#[derive(Debug)]
pub enum EpwSource {
    /// An `.epw` file, or an archive holding one, at this path.
    File(String),
    /// The part with this number on the component search service.
    PartId(u32),
}

/// A download to make: the formats to install into, resolved, and where
/// the part comes from. The service is contacted by the caller.
#[derive(Debug)]
pub struct DownloadRequest {
    pub formats: Vec<ResolvedFormat>,
    pub source: EpwSource,
}

/// `formats` resolves each configured format, in order.
pub open spec fn all_resolved(formats: Seq<ResolvedFormat>, config: Config) -> bool {
    &&& formats.len() == config.formats@.len()
    &&& forall|i: int|
        0 <= i < formats.len() ==> format_resolved(
            #[trigger] formats[i],
            config.formats@[i].0@,
            config.formats@[i].1,
        )
}

/// The resolved formats of a download, or the error that ended it.
pub open spec fn request_formats(r: Result<DownloadRequest, LoaderError>) -> Result<Vec<ResolvedFormat>, LoaderError> {
    match r {
        Ok(req) => Ok(req.formats),
        Err(e) => Err(e),
    }
}

/// No configured directory names an environment variable.
pub open spec fn expands_without_lookup(config: Config) -> bool {
    forall|i: int|
        0 <= i < config.formats@.len() ==> format_expands_without_lookup(
            #[trigger] config.formats@[i].1,
        )
}

/// The download of the part in the `.epw` file (or archive holding one) at
/// `path`: the configured formats are resolved first, and the first
/// directory that cannot be expanded ends it with its error.
pub fn download_once(config: &Config, path: String) -> (r: Result<DownloadRequest, LoaderError>)
    ensures
        r matches Ok(req) ==> all_resolved(req.formats@, *config) && (req.source matches EpwSource::File(
            p,
        ) && p == path),
        r matches Err(e) ==> e is Shellexpand,
        expands_without_lookup(*config) ==> r is Ok,
        exists|outs: Seq<FormatExpansion>|
            #![trigger resolved_by(config.formats@, outs, request_formats(r))]
            expansions_known(config.formats@, outs) && resolved_by(config.formats@, outs, request_formats(r)),
{
    let resolved = config.formats();
    let ghost rv = resolved;
    let r = match resolved {
        Ok(formats) => Ok(DownloadRequest { formats, source: EpwSource::File(path) }),
        Err(e) => Err(e),
    };
    assert(request_formats(r) == rv);
    r
}

/// The download of the part numbered `part_id` on the component search
/// service: the configured formats are resolved first, and the first
/// directory that cannot be expanded ends it with its error.
pub fn download_part_id(config: &Config, part_id: u32) -> (r: Result<DownloadRequest, LoaderError>)
    ensures
        r matches Ok(req) ==> all_resolved(req.formats@, *config) && (req.source matches EpwSource::PartId(
            n,
        ) && n == part_id),
        r matches Err(e) ==> e is Shellexpand,
        expands_without_lookup(*config) ==> r is Ok,
        exists|outs: Seq<FormatExpansion>|
            #![trigger resolved_by(config.formats@, outs, request_formats(r))]
            expansions_known(config.formats@, outs) && resolved_by(config.formats@, outs, request_formats(r)),
{
    let resolved = config.formats();
    let ghost rv = resolved;
    let r = match resolved {
        Ok(formats) => Ok(DownloadRequest { formats, source: EpwSource::PartId(part_id) }),
        Err(e) => Err(e),
    };
    assert(request_formats(r) == rv);
    r
}

/// A look-up of a part on the component search service: the part's
/// number, with the account it is made under. The service is contacted by
/// the caller.
#[derive(Debug)]
pub struct ProbeRequest {
    pub part_id: u32,
    pub username: String,
    pub password: String,
}

/// The look-up of the part numbered `part_id`, made under the configured
/// account; unlike a download it resolves no formats.
pub fn probe_part_id(config: &Config, part_id: u32) -> (r: ProbeRequest)
    ensures
        r.part_id == part_id,
        r.username@ == config.profile.username@,
        r.password@ == config.profile.password@,
{
    ProbeRequest {
        part_id,
        username: crate::text::owned(config.profile.username.as_str()),
        password: crate::text::owned(config.profile.password.as_str()),
    }
}

} // verus!
