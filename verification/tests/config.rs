use ensync::cli::config::{
    check_block_size, strip_passphrase, Config, PassphraseConfig, ServerConfig,
};

// The settings stand here as they are found under `[general]` once the
// configuration file "/foo/bar/config.toml" was read.

#[test]
fn parse_minimal() {
    let config = Config::from_settings(
        "/foo/bar",
        "/the/client/path",
        "path:/the/server/path",
        "r00t",
        "prompt",
        65536,
    )
    .unwrap();
    assert_eq!("/the/client/path", config.client_root);
    assert_eq!(ServerConfig::Path("/the/server/path".to_owned()), config.server);
    assert_eq!("r00t", &config.server_root);
    assert_eq!(PassphraseConfig::Prompt, config.passphrase);
    assert_eq!(65536, config.block_size);
    assert_eq!("/foo/bar/.ensync", config.private_root);
}

#[test]
fn relative_filenames_in_config_relativised_against_config_parent() {
    let config = Config::from_settings(
        "/foo/bar",
        "../sync/client",
        "path:../sync/server",
        "r00t",
        "file:password",
        65536,
    )
    .unwrap();
    assert_eq!("/foo/bar/../sync/client", config.client_root);
    assert_eq!(ServerConfig::Path("/foo/bar/../sync/server".to_owned()), config.server);
    assert_eq!(PassphraseConfig::File("/foo/bar/password".to_owned()), config.passphrase);
}

#[test]
fn settings_that_are_wrong_make_no_configuration() {
    let ok = |server: &str, passphrase: &str, bs: i64| {
        Config::from_settings("/foo", "client", server, "root", passphrase, bs).is_ok()
    };
    assert!(ok("shell:ssh host ensync", "string:hunter2", 256));
    assert!(!ok("host:dir", "string:hunter2", 256));
    assert!(!ok("shell:ssh host ensync", "hunter2", 256));
    assert!(!ok("shell:ssh host ensync", "string:hunter2", 255));
    assert!(!ok("shell:ssh host ensync", "string:hunter2", (1 << 30) + 1));
    assert_eq!(
        "Invalid passphrase config type 'pass'",
        Config::from_settings("/foo", "c", "path:x", "r", "pass:word", 10).unwrap_err()
    );
}

#[test]
fn parse_server_shell() {
    let sconf: ServerConfig = "shell:ssh turist@host.example.org ensync ~/sync".parse().unwrap();

    assert_eq!(
        ServerConfig::Shell("ssh turist@host.example.org ensync ~/sync".to_owned(), None),
        sconf
    );
}

#[test]
fn passphrase_from_string() {
    let pconf: PassphraseConfig = "string:hunter2".parse().unwrap();
    assert_eq!(PassphraseConfig::String("hunter2".to_owned()), pconf);
    let given = match pconf {
        PassphraseConfig::String(s) => s.into_bytes(),
        _ => unreachable!(),
    };
    assert_eq!(b"hunter2", &strip_passphrase(given).unwrap()[..]);
}

#[test]
fn relativise_prompt_password() {
    assert_eq!(PassphraseConfig::Prompt, PassphraseConfig::Prompt.relativise("/foo"));
}

#[test]
fn relativise_string_password() {
    assert_eq!(
        PassphraseConfig::String("hunter2".to_owned()),
        PassphraseConfig::String("hunter2".to_owned()).relativise("/foo")
    );
}

#[test]
fn relativise_file_password() {
    assert_eq!(
        PassphraseConfig::File("/foo/password".to_owned()),
        PassphraseConfig::File("password".to_owned()).relativise("/foo")
    );
}

#[test]
fn relativise_shell_password() {
    assert_eq!(
        PassphraseConfig::Shell("cat password".to_owned(), Some("/foo".to_owned())),
        PassphraseConfig::Shell("cat password".to_owned(), None).relativise("/foo")
    );
}

#[test]
fn relativise_path_server() {
    assert_eq!(
        ServerConfig::Path("/foo/../bar".to_owned()),
        ServerConfig::Path("../bar".to_owned()).relativise("/foo")
    );
}

#[test]
fn relativise_shell_server() {
    assert_eq!(
        ServerConfig::Shell("ensync foo".to_owned(), Some("/foo".to_owned())),
        ServerConfig::Shell("ensync foo".to_owned(), None).relativise("/foo")
    );
}

#[test]
fn server_settings() {
    assert_eq!(
        Ok(ServerConfig::Path("/the/server/path".to_owned())),
        ServerConfig::parse("path:/the/server/path")
    );
    assert_eq!(Ok(ServerConfig::Path("".to_owned())), ServerConfig::parse("path:"));
    assert_eq!(Ok(ServerConfig::Path("a:b".to_owned())), ServerConfig::parse("path:a:b"));
    assert_eq!(
        Ok(ServerConfig::Path("/\u{fc}ber".to_owned())),
        ServerConfig::parse("path:/\u{fc}ber")
    );
    assert!(ServerConfig::parse("/the/server/path").is_err());
    assert!(ServerConfig::parse("scp:host").is_err());
    assert!(ServerConfig::parse("Path:x").is_err());
    assert!(ServerConfig::parse("").is_err());
    assert!(ServerConfig::parse(":path").is_err());
}

#[test]
fn server_setting_errors_name_the_setting() {
    assert_eq!(
        "Invalid server config; syntax is `type:value` (write `path:foo` if you want to sync \
         to the local path `foo`)",
        ServerConfig::parse("foo").unwrap_err()
    );
    assert_eq!(
        "Invalid server config type 'host' (if `host:dir` is intended to be an scp-style \
         path, write something like `shell:ssh host ensync server 'dir'` instead)",
        ServerConfig::parse("host:dir").unwrap_err()
    );
}

#[test]
fn passphrase_settings() {
    assert_eq!(Ok(PassphraseConfig::Prompt), PassphraseConfig::parse("prompt"));
    assert_eq!(
        Ok(PassphraseConfig::File("password".to_owned())),
        PassphraseConfig::parse("file:password")
    );
    assert_eq!(
        Ok(PassphraseConfig::Shell("printf 'hunter%d\r\n' 2".to_owned(), None)),
        PassphraseConfig::parse("shell:printf 'hunter%d\r\n' 2")
    );
    assert_eq!(
        Ok(PassphraseConfig::String("prompt".to_owned())),
        PassphraseConfig::parse("string:prompt")
    );
    assert_eq!(
        "Invalid passphrase config; syntax is `type` or `type:value`, and 'prompt ' is not a \
         valid bare type",
        PassphraseConfig::parse("prompt ").unwrap_err()
    );
    assert_eq!(
        "Invalid passphrase config type 'path'",
        PassphraseConfig::parse("path:x").unwrap_err()
    );
}

#[test]
fn passphrases_lose_their_trailing_line_ends() {
    assert_eq!(Ok(b"hunter2".to_vec()), strip_passphrase(b"hunter2\r\n\n".to_vec()));
    assert_eq!(Ok(b"hunter2".to_vec()), strip_passphrase(b"hunter2\n\r".to_vec()));
    assert_eq!(Ok(b"hunter2".to_vec()), strip_passphrase(b"hunter2".to_vec()));
    assert_eq!(Ok(b"\nhunter\n2".to_vec()), strip_passphrase(b"\nhunter\n2\n".to_vec()));
    assert_eq!(Ok(b"hunter2 ".to_vec()), strip_passphrase(b"hunter2 \n".to_vec()));
    assert_eq!(Err("Password is empty".to_owned()), strip_passphrase(b"".to_vec()));
    assert_eq!(Err("Password is empty".to_owned()), strip_passphrase(b"\r\n\r\n".to_vec()));
}

#[test]
fn block_size_bounds() {
    assert_eq!(Ok(65536), check_block_size(65536));
    assert_eq!(Ok(256), check_block_size(256));
    assert_eq!(Ok(1 << 30), check_block_size(1 << 30));
    assert!(check_block_size(255).is_err());
    assert!(check_block_size((1 << 30) + 1).is_err());
    assert!(check_block_size(-1).is_err());
    assert!(check_block_size(i64::MAX).is_err());
}
