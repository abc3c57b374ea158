use base64::prelude::BASE64_STANDARD;
use base64::Engine;
use rproxy::config::{
    check_credentials, config_format, AccessControl, Auth, Config, ConfigFormat, FormatError,
    IpAddress, UserTable,
};

fn config_permit(users: Option<(&str, &str)>, api_keys: Option<&str>) -> Config {
    Config {
        listen: "".to_string(),
        routes: vec![],
        access: Some(AccessControl {
            whitelist: None,
            auth: Some(Auth {
                users: users.map(|u| {
                    let mut t = UserTable::new();
                    t.insert(u.0.to_string(), u.1.to_string());
                    t
                }),
                api_keys: api_keys.map(|key| vec![key.to_string()]),
            }),
        }),
    }
}

fn localhost() -> IpAddress {
    IpAddress::v4(127, 0, 0, 1)
}

#[test]
fn test_auth_missing_colon() {
    let header = "adminpassword";
    let encoded = BASE64_STANDARD.encode(header);
    let config = config_permit(Some(("admin", "password")), None);

    assert!(!config.permit_user(format!("Basic {encoded}").as_bytes()));
}

#[test]
fn test_no_access() {
    let config = Config {
        listen: "".to_string(),
        routes: vec![],
        access: None,
    };

    assert!(config.permit_user(b"Basic 123"));
    assert!(config.permit_addr(localhost()));
    assert!(config.permit_api_key(b"api_key"));
}

#[test]
fn test_no_auth_no_whitelist() {
    let config = Config {
        listen: "".to_string(),
        routes: vec![],
        access: Some(AccessControl {
            whitelist: None,
            auth: None,
        }),
    };

    assert!(config.permit_user(b"Basic 123"));
    assert!(config.permit_addr(localhost()));
    assert!(config.permit_api_key(b"api_key"));
}

#[test]
fn test_auth_valid_credentials() {
    let header = "admin:password";
    let encoded = BASE64_STANDARD.encode(header);
    let config = config_permit(Some(("admin", "password")), None);

    assert!(config.permit_user(format!("Basic {encoded}").as_bytes()));
}

#[test]
fn test_auth_empty_password() {
    let header = "admin:";
    let encoded = BASE64_STANDARD.encode(header);
    let config = config_permit(Some(("admin", "")), None);

    assert!(config.permit_user(format!("Basic {encoded}").as_bytes()));
}

#[test]
fn test_auth_whitespace_resilience() {
    let header = "admin:";
    let encoded = BASE64_STANDARD.encode(header);
    let config = config_permit(Some(("admin", "")), None);

    assert!(config.permit_user(format!("Basic    {encoded}").as_bytes()));
}

#[test]
fn test_auth_incorrect_password() {
    let header = "admin:password1";
    let encoded = BASE64_STANDARD.encode(header);
    let config = config_permit(Some(("admin", "password")), None);

    assert!(!config.permit_user(format!("Basic {encoded}").as_bytes()));
}

#[test]
fn test_auth_password_with_colon() {
    let header = "admin:pass:word";
    let encoded = BASE64_STANDARD.encode(header);
    let config = config_permit(Some(("admin", "pass:word")), None);

    assert!(config.permit_user(format!("Basic {encoded}").as_bytes()));
}

#[test]
fn test_auth_case_insensitivity() {
    let header = "admin:password";
    let encoded = BASE64_STANDARD.encode(header);
    let config = config_permit(Some(("admin", "password")), None);

    assert!(config.permit_user(format!("bASIc {encoded}").as_bytes()));
}

#[test]
fn test_auth_non_utf8_password() {
    let header = b"admin:\xff\xfe\xfd";
    let encoded = BASE64_STANDARD.encode(header);
    let config = config_permit(Some(("admin", "password")), None);

    assert!(!config.permit_user(format!("Basic {encoded}").as_bytes()));
}

#[test]
fn test_auth_malformed_basic() {
    let config = config_permit(Some(("admin", "password")), None);

    assert!(!config.permit_user(b"Basic 2t34"))
}

#[test]
fn test_auth_empty_value() {
    let config = config_permit(Some(("admin", "password")), None);

    assert!(!config.permit_user(b""))
}

#[test]
fn test_auth_invalid_characters() {
    let config = config_permit(Some(("admin", "password")), None);

    assert!(!config.permit_user("Basic admłinółśą".as_bytes()))
}

#[test]
fn test_auth_missing_basic() {
    let config = config_permit(Some(("admin", "password")), None);

    assert!(!config.permit_user(b"x"))
}

#[test]
fn test_no_api_key() {
    let config = config_permit(None, None);

    assert!(!config.permit_api_key(b"1234"));
}

#[test]
fn test_api_key_empty() {
    let config = Config {
        listen: "".to_string(),
        routes: vec![],
        access: Some(AccessControl {
            whitelist: None,
            auth: Some(Auth {
                users: None,
                api_keys: Some(Vec::new()),
            }),
        }),
    };

    assert!(!config.permit_api_key(b"1234"));
}

#[test]
fn test_api_key_invalid() {
    let config = config_permit(None, Some("123"));

    assert!(!config.permit_api_key(b"1234"));
}

#[test]
fn test_api_key_not_utf8() {
    let config = config_permit(None, Some("1234"));
    assert!(!config.permit_api_key(b"\xff\xfe\xfd"));
}

#[test]
fn test_api_key_valid() {
    let config = config_permit(None, Some("1234"));

    assert!(config.permit_api_key(b"1234"));
}

#[test]
fn test_whitelist_empty() {
    let config = Config {
        listen: "".to_string(),
        routes: vec![],
        access: Some(AccessControl {
            whitelist: Some(Vec::new()),
            auth: None,
        }),
    };

    assert!(!config.permit_addr(localhost()));
}

#[test]
fn test_whitelist_invalid_addr() {
    let config = Config {
        listen: "".to_string(),
        routes: vec![],
        access: Some(AccessControl {
            whitelist: Some(vec![IpAddress::v4(127, 0, 0, 2)]),
            auth: None,
        }),
    };

    assert!(!config.permit_addr(localhost()));
}

#[test]
fn test_whitelist_valid_addr() {
    let config = Config {
        listen: "".to_string(),
        routes: vec![],
        access: Some(AccessControl {
            whitelist: Some(vec![localhost()]),
            auth: None,
        }),
    };

    assert!(config.permit_addr(localhost()));
}

#[test]
fn whitelist_tells_ipv4_from_ipv6() {
    let config = Config {
        listen: "".to_string(),
        routes: vec![],
        access: Some(AccessControl {
            whitelist: Some(vec![IpAddress::V6(0xffff_7f00_0001)]),
            auth: None,
        }),
    };
    assert!(!config.permit_addr(localhost()));
    assert!(config.permit_addr(IpAddress::V6(0xffff_7f00_0001)));
}

#[test]
fn ipv4_address_bits() {
    assert_eq!(IpAddress::v4(127, 0, 0, 1), IpAddress::V4(0x7f00_0001));
    assert_eq!(IpAddress::v4(255, 255, 255, 255), IpAddress::V4(u32::MAX));
}

#[test]
fn users_table_later_password_wins() {
    let mut users = UserTable::new();
    users.insert("admin".to_string(), "old".to_string());
    users.insert("admin".to_string(), "new".to_string());
    assert_eq!(users.password_of(b"admin").map(|p| p.as_str()), Some("new"));
    assert_eq!(users.password_of(b"Admin"), None);
    assert_eq!(users.password_of(b"\xff"), None);
}

#[test]
fn credentials_are_checked_on_decoded_bytes() {
    let mut users = UserTable::new();
    users.insert("zoë".to_string(), "pa:ss".to_string());
    assert!(check_credentials(&users, "zoë:pa:ss".as_bytes()));
    assert!(!check_credentials(&users, "zoë:pa".as_bytes()));
    assert!(!check_credentials(&users, "zoë".as_bytes()));
    assert!(!check_credentials(&users, b""));
    assert!(!check_credentials(&users, "zoe:pa:ss".as_bytes()));
}

#[test]
fn basic_scheme_needs_more_than_the_word() {
    let config = config_permit(Some(("admin", "password")), None);
    assert!(!config.permit_user(b"Basic"));
    // the scheme need not be followed by a space
    let encoded = BASE64_STANDARD.encode("admin:password");
    assert!(config.permit_user(format!("Basic{encoded}").as_bytes()));
    assert!(!config.permit_user(format!("Bearer {encoded}").as_bytes()));
}

#[test]
fn users_ignored_without_user_table() {
    let config = config_permit(None, Some("k"));
    assert!(config.permit_user(b"anything at all"));
    assert!(config.is_proxy_private());
}

#[test]
fn proxy_is_private_only_with_auth() {
    let open = Config { listen: "".to_string(), routes: vec![], access: None };
    assert!(!open.is_proxy_private());
    let whitelisted = Config {
        listen: "".to_string(),
        routes: vec![],
        access: Some(AccessControl { whitelist: Some(vec![]), auth: None }),
    };
    assert!(!whitelisted.is_proxy_private());
    assert!(config_permit(None, None).is_proxy_private());
}

#[test]
fn config_format_from_extension() {
    assert_eq!(config_format(Some(b"toml")), Ok(ConfigFormat::Toml));
    assert_eq!(config_format(Some(b"TOML")), Ok(ConfigFormat::Toml));
    assert_eq!(config_format(Some(b"yaml")), Ok(ConfigFormat::Yaml));
    assert_eq!(config_format(Some(b"YmL")), Ok(ConfigFormat::Yaml));
    assert_eq!(config_format(Some(b"json")), Err(FormatError::UnsupportedExtension));
    assert_eq!(config_format(Some(b"\xfftoml")), Err(FormatError::UnsupportedExtension));
    assert_eq!(config_format(None), Err(FormatError::MissingExtension));
}

#[test]
fn api_keys_match_whole_utf8_keys() {
    let keys = vec!["ключ".to_string(), "k2".to_string()];
    assert!(rproxy::config::api_key_listed(&keys, "ключ".as_bytes()));
    assert!(rproxy::config::api_key_listed(&keys, b"k2"));
    assert!(!rproxy::config::api_key_listed(&keys, b"k"));
    assert!(!rproxy::config::api_key_listed(&keys, b"K2"));
    assert!(!rproxy::config::api_key_listed(&[].to_vec(), b""));
}
