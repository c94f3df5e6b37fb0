use installer::errors::InstallError;
use installer::{download, fetch_outcome};

#[test]
fn download_plan_paths_and_url() {
    let plan = download("app", "0.1.0", "app-0.1.0.zip", "http://localhost:1234", false);

    assert_eq!("softwares/app/0.1.0", plan.saved_dir_path);
    assert_eq!("softwares/app/0.1.0/app-0.1.0.zip", plan.saved_file_path);
    assert_eq!(
        Some("http://localhost:1234/softwares?name=app&version=0.1.0".to_string()),
        plan.request_url
    );
}

/// A second fetch of the same artifact finds the cache file and makes
/// no further request; the path it answers with is the same.
#[test]
fn cached_download_makes_no_request() {
    let first = download("app", "0.1.0", "app-0.1.0.zip", "http://localhost:1234", false);
    let second = download("app", "0.1.0", "app-0.1.0.zip", "http://localhost:1234", true);

    assert!(first.request_url.is_some());
    assert_eq!(None, second.request_url);
    assert_eq!(first.saved_file_path, second.saved_file_path);
}

#[test]
fn fetch_outcome_by_status() {
    assert_eq!(
        Ok("softwares/app/0.1.0/app-0.1.0.zip".to_string()),
        fetch_outcome(200, "softwares/app/0.1.0/app-0.1.0.zip".to_string())
    );
    assert!(fetch_outcome(204, "p".to_string()).is_ok());
    assert_eq!(
        Err(InstallError::Transport(404)),
        fetch_outcome(404, "p".to_string())
    );
    assert_eq!(
        Err(InstallError::Transport(500)),
        fetch_outcome(500, "p".to_string())
    );
}
