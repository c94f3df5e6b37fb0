//! Client-side agent of an application deployment pipeline.
//!
//! The library fetches named, versioned software artifacts into a local
//! cache, plans the extraction of their archives, and keeps a durable,
//! human-editable store of the application instances installed on this
//! host.  Everything that decides or computes is verified; the thin
//! layer that touches the network and the filesystem lives outside the
//! library and only carries out the plans and texts produced here.

use vstd::prelude::*;

pub mod config;
pub mod errors;
pub mod extract;
pub mod fetch;
pub mod text;

use crate::errors::InstallError;
use crate::extract::{FsAction, action_views, unzip_steps, zip_entries, zip_wf};
use crate::fetch::{DownloadPlan, request_url_of, software_dir, software_path};

verus! {

/// Plans the download of the artifact `software_file_name` of
/// `software_name` at `software_version` from the service at
/// `base_url`.
///
/// The cache path is deterministic in name, version and file name
/// alone.  `cached` says whether a file already exists at that path:
/// a cached artifact is returned as it stands, with no request made —
/// so fetching the same artifact twice performs one network call.
pub fn download(
    software_name: &str,
    software_version: &str,
    software_file_name: &str,
    base_url: &str,
    cached: bool,
) -> (r: DownloadPlan)
    ensures
        r.saved_dir_path@ == software_dir(software_name@, software_version@),
        r.saved_file_path@ == software_path(software_name@, software_version@, software_file_name@),
        cached ==> r.request_url is None,
        !cached ==> r.request_url is Some && r.request_url.unwrap()@ == request_url_of(
            base_url@,
            software_name@,
            software_version@,
        ),
{
    let mut saved_dir_path = String::new();
    saved_dir_path.append("softwares/");
    saved_dir_path.append(software_name);
    saved_dir_path.append("/");
    saved_dir_path.append(software_version);
    proof {
        assert(saved_dir_path@ =~= software_dir(software_name@, software_version@));
    }
    let mut saved_file_path = String::new();
    saved_file_path.append(saved_dir_path.as_str());
    saved_file_path.append("/");
    saved_file_path.append(software_file_name);
    proof {
        assert(saved_file_path@ =~= software_path(
            software_name@,
            software_version@,
            software_file_name@,
        ));
    }
    let request_url = if cached {
        None
    } else {
        let mut url = String::new();
        url.append(base_url);
        url.append("/softwares?name=");
        url.append(software_name);
        url.append("&version=");
        url.append(software_version);
        proof {
            assert(url@ =~= request_url_of(base_url@, software_name@, software_version@));
        }
        Some(url)
    };
    DownloadPlan { saved_dir_path, saved_file_path, request_url }
}

/// Judges the service's answer to a download request: any 2xx status
/// means the streamed body now stands at `saved_file_path`; any other
/// status is a `Transport` failure carrying the status code, and no
/// usable path.
pub fn fetch_outcome(status: u16, saved_file_path: String) -> (r: Result<String, InstallError>)
    ensures
        200 <= status < 300 ==> r == Ok::<String, InstallError>(saved_file_path),
        !(200 <= status < 300) ==> r == Err::<String, InstallError>(InstallError::Transport(
            status,
        )),
{
    if 200 <= status && status < 300 {
        Ok(saved_file_path)
    } else {
        Err(InstallError::Transport(status))
    }
}

/// Plans the extraction of the archive at `source_file_path`, whose
/// bytes are `archive`, into `target_dir_path`: the filesystem steps
/// that put every entry, sanitized, under the target directory — with
/// the archive copied in first and that copy removed again where the
/// source does not already sit there.
///
/// The plan comes out exactly when the archive decodes in full
/// (`zip_wf`); bytes that do not decode surface their failure instead.
pub fn unzip_to(source_file_path: &str, target_dir_path: &str, archive: Vec<u8>) -> (r: Result<
    Vec<FsAction>,
    InstallError,
>)
    ensures
        r is Ok <==> zip_wf(archive@),
        r is Ok ==> action_views(r.unwrap()@) == unzip_steps(
            source_file_path@,
            target_dir_path@,
            zip_entries(archive@),
        ),
{
    crate::extract::plan_unzip(source_file_path, target_dir_path, archive)
}

} // verus!
