//! Releases of a hosted repository and their download counters.
//!
//! The releases of a repository are listed page by page. A [`ReleasePager`]
//! keeps what has been listed so far, says which page to ask for next, and
//! knows when the listing is complete.

use crate::format::{decimal_digits, decimal_string};
use vstd::prelude::*;

verus! {

/// A release asset with its cumulative download count.
#[derive(Debug)]
pub struct Asset {
    pub name: String,
    pub download_count: u64,
}

/// A release with its assets.
#[derive(Debug)]
pub struct Release {
    pub tag_name: String,
    pub assets: Vec<Asset>,
}

/// The number of releases asked for with each page.
pub const PER_PAGE: usize = 100;

/// The address of page `page` of the releases of `owner`/`repo`.
pub open spec fn releases_url_text(owner: Seq<char>, repo: Seq<char>, page: nat) -> Seq<char> {
    "https://api.github.com/repos/"@ + owner + "/"@ + repo + "/releases?per_page=100&page="@
        + decimal_digits(page)
}

/// The address from which page `page` of the releases of `owner`/`repo`
/// is fetched, with 100 releases to the page.
pub fn releases_url(owner: &str, repo: &str, page: u64) -> (url: String)
    ensures
        url@ == releases_url_text(owner@, repo@, page as nat),
{
    let mut url = String::from_str("https://api.github.com/repos/");
    url.append(owner);
    url.append("/");
    url.append(repo);
    url.append("/releases?per_page=100&page=");
    let number = decimal_string(page);
    url.append(number.as_str());
    url
}

/// The listing of the releases of one repository, page by page.
#[derive(Debug)]
pub struct ReleasePager {
    page: u64,
    releases: Vec<Release>,
}

impl ReleasePager {
    /// Whether the pager is in a state that its own operations lead to:
    /// every page before the next one was full.
    pub closed spec fn wf(&self) -> bool {
        self.page >= 1 && (self.page - 1) * PER_PAGE <= self.releases.len()
    }

    /// The number of the page to ask for next; the first page is 1.
    pub closed spec fn next_page(&self) -> nat {
        self.page as nat
    }

    /// The releases listed so far, in the order in which they came.
    pub closed spec fn listed(&self) -> Seq<Release> {
        self.releases@
    }

    /// A listing that has not begun: the next page is the first.
    pub fn new() -> (pager: ReleasePager)
        ensures
            pager.wf(),
            pager.next_page() == 1,
            pager.listed() == Seq::<Release>::empty(),
    {
        ReleasePager { page: 1, releases: Vec::new() }
    }

    /// The number of the page to ask for next.
    pub fn page(&self) -> (page: u64)
        ensures
            page == self.next_page(),
    {
        self.page
    }

    /// Takes the releases of the page that was asked for. Returns whether
    /// another page is to be asked for: a page with fewer than 100 releases
    /// is the last one.
    pub fn accept(&mut self, batch: Vec<Release>) -> (more: bool)
        requires
            old(self).wf(),
        ensures
            final(self).wf(),
            final(self).listed() == old(self).listed() + batch@,
            more == (batch.len() >= PER_PAGE),
            final(self).next_page() == old(self).next_page() + if more {
                1nat
            } else {
                0nat
            },
    {
        let mut batch = batch;
        let more = batch.len() >= PER_PAGE;
        self.releases.append(&mut batch);
        if more {
            self.page = self.page + 1;
        }
        more
    }

    /// The releases that were listed, in the order in which they came.
    pub fn into_releases(self) -> (releases: Vec<Release>)
        ensures
            releases@ == self.listed(),
    {
        self.releases
    }
}

} // verus!
