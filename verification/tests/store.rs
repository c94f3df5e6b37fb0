use installer::config::{
    add_installer, get, get_installer_by_port, register_installer, remove_installer, Config,
    InstallerInfo,
};
use installer::errors::InstallError;

fn sample_info() -> InstallerInfo {
    InstallerInfo {
        url: "1".to_string(),
        installer_token: "2".to_string(),
        app_name: "3".to_string(),
        app_version: "4".to_string(),
        app_file_name: "5".to_string(),
        app_run_port: 6_u32,
        jdk_name: "7".to_string(),
        jdk_version: "8".to_string(),
        jdk_file_name: "9".to_string(),
    }
}

fn sample_config() -> Config {
    let mut config_info = Config {
        server_token: "1".to_string(),
        installers: Vec::new(),
    };
    add_installer(&mut config_info, sample_info());
    config_info
}

#[test]
fn get_config_first_time() {
    let config_info = get(None, Some("00:11:22:33:44:55")).unwrap();

    assert_eq!("00:11:22:33:44:55", config_info.server_token);
    assert!(config_info.installers.is_empty());
}

#[test]
fn add_installer_once() {
    let mut config_info = Config {
        server_token: "1".to_string(),
        installers: Vec::new(),
    };

    add_installer(&mut config_info, sample_info());

    assert_eq!(1, config_info.installers.len());
}

#[test]
fn add_installer_twice() {
    let mut config_info = Config {
        server_token: "1".to_string(),
        installers: Vec::new(),
    };

    add_installer(&mut config_info, sample_info());

    let installer_info_2 = InstallerInfo {
        url: "11".to_string(),
        installer_token: "22".to_string(),
        app_name: "33".to_string(),
        app_version: "44".to_string(),
        app_file_name: "55".to_string(),
        app_run_port: 66_u32,
        jdk_name: "77".to_string(),
        jdk_version: "88".to_string(),
        jdk_file_name: "99".to_string(),
    };
    add_installer(&mut config_info, installer_info_2);

    assert_eq!(2, config_info.installers.len());
}

#[test]
fn remove_empty_installer_success() {
    let mut config_info = Config {
        server_token: "1".to_string(),
        installers: Vec::new(),
    };

    remove_installer(&mut config_info, "not-existed");

    assert_eq!(0, config_info.installers.len());
}

#[test]
fn remove_one_installer_success() {
    let mut config_info = sample_config();

    remove_installer(&mut config_info, "2");

    assert_eq!(0, config_info.installers.len());
}

#[test]
fn remove_absent_token_keeps_length() {
    let mut config_info = sample_config();

    remove_installer(&mut config_info, "not-existed");

    assert_eq!(1, config_info.installers.len());
    assert_eq!("2", config_info.installers[0].installer_token);
}

#[test]
fn find_installer_by_port() {
    let config_info = sample_config();

    let found = get_installer_by_port(&config_info, 6);
    assert_eq!("2", found.unwrap().installer_token);
    assert!(get_installer_by_port(&config_info, 7).is_none());
}

#[test]
fn register_rejects_bound_port() {
    let mut config_info = sample_config();

    let mut conflicting = sample_info();
    conflicting.url = "other".to_string();
    conflicting.installer_token = "other-token".to_string();
    conflicting.app_run_port = 6_u32;

    let r = register_installer(&mut config_info, conflicting);

    assert_eq!(Err(InstallError::Conflict), r);
    assert_eq!(1, config_info.installers.len());
    assert_eq!("2", config_info.installers[0].installer_token);
}

#[test]
fn register_rejects_empty_field() {
    let mut config_info = sample_config();

    let mut incomplete = sample_info();
    incomplete.app_name = String::new();
    incomplete.app_run_port = 7_u32;

    let r = register_installer(&mut config_info, incomplete);

    assert_eq!(Err(InstallError::Malformed), r);
    assert_eq!(1, config_info.installers.len());
}

#[test]
fn register_free_port_appends() {
    let mut config_info = sample_config();

    let mut second = sample_info();
    second.installer_token = "22".to_string();
    second.app_run_port = 7_u32;

    let r = register_installer(&mut config_info, second);

    assert_eq!(Ok(()), r);
    assert_eq!(2, config_info.installers.len());
    assert_eq!("22", config_info.installers[1].installer_token);
}

#[test]
fn store_unavailable_without_identity() {
    let r = get(None, None);

    assert!(matches!(r, Err(InstallError::Unavailable)));
}
