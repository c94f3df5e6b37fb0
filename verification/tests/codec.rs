use installer::config::{read, save, Config, InstallerConfig};
use installer::errors::InstallError;

fn one_installer() -> InstallerConfig {
    InstallerConfig {
        url: "1".to_string(),
        installer_token: "2".to_string(),
        app_name: "3".to_string(),
        app_version: "4".to_string(),
        app_file_name: "5".to_string(),
        app_run_port: 6_u32,
        jdk_name: "7".to_string(),
        jdk_version: "8".to_string(),
        jdk_file_name: "9".to_string(),
    }
}

#[test]
fn save_none_installer_success() {
    let config = Config {
        server_token: "server_1".to_string(),
        installers: Vec::new(),
    };

    let text = save(&config);

    assert!(text.contains(r#"server_token = "server_1""#));
    assert!(!text.contains("[[installers]]"));
}

#[test]
fn save_one_installer_success() {
    let config = Config {
        server_token: "server_1".to_string(),
        installers: vec![one_installer()],
    };

    let text = save(&config);

    assert!(text.contains(r#"server_token = "server_1""#));
    assert!(text.contains("[[installers]]"));
}

/// Persisting overwrites the whole file, so after saving twice only the
/// last store saved can be read back.
#[test]
fn save_config_twice() {
    let config_1 = Config {
        server_token: "server_1".to_string(),
        installers: vec![one_installer()],
    };

    let config_2 = Config {
        server_token: "server_2".to_string(),
        installers: vec![InstallerConfig {
            url: "a".to_string(),
            installer_token: "b".to_string(),
            app_name: "c".to_string(),
            app_version: "d".to_string(),
            app_file_name: "e".to_string(),
            app_run_port: 66_u32,
            jdk_name: "f".to_string(),
            jdk_version: "g".to_string(),
            jdk_file_name: "h".to_string(),
        }],
    };

    let _first_write = save(&config_1);
    let last_write = save(&config_2);

    let config = read(&last_write).unwrap();

    assert_eq!("server_2", config.server_token);
    let installers = config.installers;
    assert_eq!(1, installers.len());
    let first_installer = &installers[0];
    assert_eq!("a", first_installer.url);
    assert_eq!(66, first_installer.app_run_port);
}

#[test]
fn config_round_trip_one_installer() {
    let config = Config {
        server_token: "server_1".to_string(),
        installers: vec![one_installer()],
    };

    let reloaded = read(&save(&config)).unwrap();

    assert_eq!("server_1", reloaded.server_token);
    assert_eq!(1, reloaded.installers.len());
    let r = &reloaded.installers[0];
    assert_eq!("1", r.url);
    assert_eq!("2", r.installer_token);
    assert_eq!("3", r.app_name);
    assert_eq!("4", r.app_version);
    assert_eq!("5", r.app_file_name);
    assert_eq!(6, r.app_run_port);
    assert_eq!("7", r.jdk_name);
    assert_eq!("8", r.jdk_version);
    assert_eq!("9", r.jdk_file_name);
}

#[test]
fn round_trip_keeps_large_port() {
    let mut installer = one_installer();
    installer.app_run_port = u32::MAX;
    let config = Config {
        server_token: "s".to_string(),
        installers: vec![installer],
    };

    let reloaded = read(&save(&config)).unwrap();

    assert_eq!(u32::MAX, reloaded.installers[0].app_run_port);
}

#[test]
fn round_trip_keeps_awkward_text() {
    let mut installer = one_installer();
    installer.url = "http://a.example/x?y=1&z=#frag ".to_string();
    let config = Config {
        server_token: "aa:bb 11".to_string(),
        installers: vec![installer],
    };

    let reloaded = read(&save(&config)).unwrap();

    assert_eq!("aa:bb 11", reloaded.server_token);
    assert_eq!("http://a.example/x?y=1&z=#frag ", reloaded.installers[0].url);
}

/// A field may hold quotes and backslashes: they are escaped on the
/// way out and restored on the way back.
#[test]
fn round_trip_keeps_quotes_and_backslashes() {
    let mut installer = one_installer();
    installer.url = r#"say "hi" to C:\apps\x"#.to_string();
    installer.app_name = "\\".to_string();
    let config = Config {
        server_token: r#"a"b"#.to_string(),
        installers: vec![installer],
    };

    let reloaded = read(&save(&config)).unwrap();

    assert_eq!(r#"a"b"#, reloaded.server_token);
    assert_eq!(r#"say "hi" to C:\apps\x"#, reloaded.installers[0].url);
    assert_eq!("\\", reloaded.installers[0].app_name);
}

#[test]
fn get_with_file_text_parses_it() {
    let config = Config {
        server_token: "server_1".to_string(),
        installers: Vec::new(),
    };
    let text = save(&config);

    let loaded = installer::config::get(Some(&text), None).unwrap();

    assert_eq!("server_1", loaded.server_token);
    assert!(loaded.installers.is_empty());
}

#[test]
fn read_garbage_is_malformed() {
    let r = read("not a config document at all");

    assert!(matches!(r, Err(InstallError::Malformed)));
}

#[test]
fn read_rejects_oversized_port() {
    let text = "server_token = \"s\"\n\n[[installers]]\nurl = \"1\"\ninstaller_token = \"2\"\napp_name = \"3\"\napp_version = \"4\"\napp_file_name = \"5\"\napp_run_port = 4294967296\njdk_name = \"7\"\njdk_version = \"8\"\njdk_file_name = \"9\"\n";

    let r = read(text);

    assert!(matches!(r, Err(InstallError::Malformed)));
}

/// The emitted document is plain TOML: an independent TOML reader sees
/// the same identity, tables and values.
#[test]
fn emitted_text_is_toml() {
    let config = Config {
        server_token: "server_1".to_string(),
        installers: vec![one_installer()],
    };

    let text = save(&config);
    let table: toml::Table = text.parse().unwrap();

    assert_eq!(Some("server_1"), table["server_token"].as_str());
    let installers = table["installers"].as_array().unwrap();
    assert_eq!(1, installers.len());
    assert_eq!(Some("1"), installers[0]["url"].as_str());
    assert_eq!(Some(6), installers[0]["app_run_port"].as_integer());
}
