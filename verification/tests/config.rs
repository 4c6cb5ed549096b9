use embedded_language_server::config::{not_signed_message, output_folder};
use embedded_language_server::error::Error;
use embedded_language_server::protocol::{ClientCapabilities, ServerCapabilities};
use embedded_language_server::server::Server;
use embedded_language_server::state::ServerState;
use embedded_language_server::{resolve_path, Config};
use std::path::PathBuf;

const SECRET: &str = "a";

// The SHA-256 digest of "abc".
const ABC: &str = "ba7816bf8f01cfea414140de5dae2223b00361a396177a9cb410ff61f20015ad";

fn config(query: &str, sign: &str) -> Config {
    let mut config = Config::default();
    config.get_symbols_query = query.to_owned();
    config.sign = sign.to_owned();
    config
}

fn start(config: Config) -> Result<ServerCapabilities, Error> {
    let state = ServerState::new(config, PathBuf::from("/cache"));
    let mut server = Server { state };
    server.try_initialize(ClientCapabilities::default(), SECRET).unwrap()
}

/// Signs a file whose value of `sign` is written as `value`.
fn signed(config: &Config, raw: &str, value: &str) -> String {
    let start = raw.find(&format!("sign = {value}")).unwrap() + "sign = ".len();
    config.sign(raw, start, start + value.len(), SECRET)
}

#[test]
fn signature_is_digest_of_secret_and_query() {
    assert_eq!(config("bc", "").sign_key("a"), ABC);
    assert_eq!(config("c", "").sign_key("ab"), ABC);
    assert_eq!(
        config("", "").sign_key(""),
        "e3b0c44298fc1c149afbf4c8996fb92427ae41e4649b934ca495991b7852b855"
    );
}

#[test]
fn signature_covers_query_alone() {
    let mut other = config("bc", "x");
    other.ado_connection_string = "server=other".to_owned();
    other.case_sensitive = Some(false);
    assert_eq!(other.sign_key("a"), ABC);
    assert_ne!(config("bd", "").sign_key("a"), ABC);
    assert_ne!(config("bc", "").sign_key("b"), ABC);
}

#[test]
fn config_is_unsigned() {
    let mut config = config("bc", ABC);
    config.get_symbols_query += "--brake sign";
    assert!(!config.is_signed(SECRET));
    assert_eq!(start(config), Err(Error::NotSigned));

    let message = not_signed_message("embedded_language_server", "help");
    assert!(message.contains("you should sign config"));
    assert!(message.contains("--help"));
    assert!(Error::NotSigned.message().contains("you should sign config"));
    assert_eq!(
        message,
        "you should sign config (See: 'embedded_language_server --help')\nhelp"
    );
}

#[test]
fn config_is_reasigned() {
    let mut config = config("bc", ABC);
    config.get_symbols_query += "--brake sign";
    let query = config.get_symbols_query.clone();
    let raw = format!("get_symbols_query = '{query}'\nsign = '{}'\n", config.sign);
    let key = config.sign_key(SECRET);
    let text = signed(&config, &raw, &format!("'{ABC}'"));
    assert_eq!(text, format!("get_symbols_query = '{query}'\nsign = '{key}'\n"));

    let read: toml::Table = toml::from_str(&text).unwrap();
    config.get_symbols_query = read["get_symbols_query"].as_str().unwrap().to_owned();
    config.sign = read["sign"].as_str().unwrap().to_owned();
    assert!(config.is_signed(SECRET));
    assert!(start(config).is_ok());
}

#[test]
fn signing_a_signed_file_changes_nothing() {
    let config = config("bc", ABC);
    let value = format!("'{ABC}'");
    let raw = format!("# {ABC}\nsign = {value}\n");
    assert_eq!(signed(&config, &raw, &value), raw);
}

#[test]
fn signing_twice_is_signing_once() {
    let mut config = config("bc", "old");
    let once = signed(&config, "sign = \"old\"\n# old\n", "\"old\"");
    assert_eq!(once, format!("sign = \"{ABC}\"\n# old\n"));
    config.sign = ABC.to_owned();
    assert_eq!(signed(&config, &once, &format!("\"{ABC}\"")), once);
}

#[test]
fn signing_replaces_the_value_alone() {
    let config = config("bc", "e");
    let raw = "get_symbols_query = 'bc'\nsign = 'e' # ä e\n";
    assert_eq!(
        signed(&config, raw, "'e'"),
        format!("get_symbols_query = 'bc'\nsign = '{ABC}' # ä e\n")
    );
}

#[test]
fn config_that_was_never_signed_is_signed() {
    let config = config("bc", "");
    for (value, expected) in [
        ("\"\"", format!("\"{ABC}\"")),
        ("''", format!("'{ABC}'")),
        ("\"\"\"\"\"\"", format!("\"\"\"{ABC}\"\"\"")),
        ("''''''", format!("'''{ABC}'''")),
    ] {
        let raw = format!("x = 1\nsign = {value}\ny = 2\n");
        let text = signed(&config, &raw, value);
        assert_eq!(text, format!("x = 1\nsign = {expected}\ny = 2\n"));
        let read: toml::Table = toml::from_str(&text).unwrap();
        assert_eq!(read["sign"].as_str(), Some(ABC));
    }
}

#[test]
fn signature_with_line_breaks_or_escapes_is_replaced() {
    let config = config("bc", "a\nb");
    for (value, expected) in [
        ("\"a\\nb\"", format!("\"{ABC}\"")),
        ("\"\"\"\na\nb\"\"\"", format!("\"\"\"{ABC}\"\"\"")),
    ] {
        let raw = format!("sign = {value}\n");
        assert_eq!(signed(&config, &raw, value), format!("sign = {expected}\n"));
    }
}

#[test]
fn path_is_made_absolute() {
    let resolve = |raw: &str, exists: bool, relative: Option<&str>| {
        resolve_path(PathBuf::from(raw), exists, relative.map(PathBuf::from))
    };
    assert_eq!(resolve("a", true, Some("/b/a")), Ok(PathBuf::from("/b/a")));
    assert_eq!(resolve("a", false, Some("/b/a")), Ok(PathBuf::from("/b/a")));
    assert_eq!(resolve("/c/a", true, Some("/c/a")), Ok(PathBuf::from("/c/a")));
    assert_eq!(resolve("a", true, None), Ok(PathBuf::from("a")));
    assert_eq!(resolve("a", false, None), Err(Error::PathNotFound));
    assert_eq!(Error::PathNotFound.message(), "not found");
}

#[test]
fn definitions_are_written_beside_the_config() {
    assert_eq!(
        output_folder("embedded_language_server", "standalone"),
        "embedded_language_server_output/standalone/"
    );
}

#[test]
fn copies_of_a_config_are_equal() {
    let mut first = config("q", "s");
    first.trust_cert = Some(true);
    first.symbols_highlight = Some(true);
    let copy = first.clone();
    assert_eq!(copy.get_symbols_query, "q");
    assert_eq!(copy.sign, "s");
    assert_eq!(copy.trust_cert, Some(true));
    assert_eq!(copy.symbols_highlight, Some(true));
    assert_eq!(copy.case_sensitive, None);
}
