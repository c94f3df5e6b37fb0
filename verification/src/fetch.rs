//! Planning of artifact downloads.
//!
//! An artifact is cached at a deterministic path under `softwares/`;
//! a cached artifact is never fetched again, and a missing one is
//! requested from the distribution service by name and version.  The
//! decisions are made here; the network call itself, and the check
//! whether the cache file exists, stay with the thin outer layer.

use vstd::prelude::*;

verus! {

/// The cache directory for an artifact: `softwares/<name>/<version>`.
pub open spec fn software_dir(name: Seq<char>, version: Seq<char>) -> Seq<char> {
    "softwares/"@ + name + "/"@ + version
}

/// The cache path for an artifact:
/// `softwares/<name>/<version>/<file_name>`.
pub open spec fn software_path(name: Seq<char>, version: Seq<char>, file_name: Seq<char>) -> Seq<
    char,
> {
    software_dir(name, version) + "/"@ + file_name
}

/// The distribution service's endpoint for an artifact:
/// `<base>/softwares?name=<name>&version=<version>`.
pub open spec fn request_url_of(base: Seq<char>, name: Seq<char>, version: Seq<char>) -> Seq<
    char,
> {
    base + "/softwares?name="@ + name + "&version="@ + version
}

/// What a download comes to: the cache paths, and the request to make
/// — none when the artifact is already cached.
pub struct DownloadPlan {
    /// The directory to create before writing the artifact.
    pub saved_dir_path: String,
    /// The path the artifact is cached at, and the fetch's result.
    pub saved_file_path: String,
    /// The URL to request; `None` when the cached file is used as it
    /// stands, so a second download of the same artifact makes no
    /// further network call.
    pub request_url: Option<String>,
}

} // verus!
