//! Download statistics as the package registry reports them.

pub use crate::date::parse_date;
use vstd::prelude::*;

verus! {

/// Cumulative download counts of a package.
#[derive(Debug)]
pub struct CrateInfo {
    pub downloads: u64,
    pub recent_downloads: u64,
}

/// The registry's answer to a request for a package.
#[derive(Debug)]
pub struct CrateResponse {
    pub crate_info: CrateInfo,
}

/// The downloads of one version of a package on one day.
#[derive(Debug)]
pub struct VersionDownload {
    /// The registry's number for the version.
    pub version: u64,
    pub downloads: u64,
    /// The day, written `YYYY-MM-DD`.
    pub date: String,
}

/// The downloads of one day that the registry attributes to no version.
#[derive(Debug)]
pub struct ExtraDownload {
    /// The day, written `YYYY-MM-DD`.
    pub date: String,
    pub downloads: u64,
}

/// What the registry reports beside the downloads per version.
#[derive(Debug)]
pub struct DownloadsMeta {
    pub extra_downloads: Vec<ExtraDownload>,
}

/// The registry's answer to a request for the downloads of a package.
#[derive(Debug)]
pub struct DownloadsResponse {
    pub version_downloads: Vec<VersionDownload>,
    pub meta: DownloadsMeta,
}

/// The address of the registry's record of the package `name`.
pub open spec fn crate_url_text(name: Seq<char>) -> Seq<char> {
    "https://crates.io/api/v1/crates/"@ + name
}

/// The address from which the record of the package `crate_name`, with its
/// cumulative download counts, is fetched.
pub fn crate_url(crate_name: &str) -> (url: String)
    ensures
        url@ == crate_url_text(crate_name@),
{
    let mut url = String::from_str("https://crates.io/api/v1/crates/");
    url.append(crate_name);
    url
}

/// The address from which the daily downloads of the package `crate_name`
/// are fetched.
pub fn downloads_url(crate_name: &str) -> (url: String)
    ensures
        url@ == crate_url_text(crate_name@) + "/downloads"@,
{
    let mut url = crate_url(crate_name);
    url.append("/downloads");
    url
}

} // verus!
