use jenkins::auth::basic_auth_header;
use jenkins::cookie::CookieStore;
use jenkins::i18n::{normalize_locale, I18n};
use jenkins::params::{boolean_text, normalize_default_value, normalize_input_value,
    password_value, resolve_param_type, ParamType};
use jenkins::refresh::{
    extract_token_value, parse_extraction_spec, resolve_template, validate_refresh_request,
    ExtractKind, RefreshError,
};

#[test]
fn template_splices_cookie_values() {
    let store = CookieStore::new(Some("jwt_token=abc; sid=42"), None);
    let resolved = resolve_template(&store, "Bearer ${cookie.jwt_token}:${cookie.sid}").unwrap();
    assert_eq!(resolved, "Bearer abc:42");
    // Without references the text passes through unchanged.
    let resolved = resolve_template(&store, "plain").unwrap();
    assert_eq!(resolved, "plain");
}

#[test]
fn template_reports_missing_cookie_and_bad_shape() {
    let store = CookieStore::new(Some("a=1"), None);
    match resolve_template(&store, "x=${cookie.absent}") {
        Err(RefreshError::MissingCookie(name)) => assert_eq!(name, "absent"),
        other => panic!("unexpected: {:?}", other),
    }
    assert_eq!(
        resolve_template(&store, "x=${cookie.unclosed"),
        Err(RefreshError::InvalidTemplate)
    );
}

#[test]
fn refresh_request_shape_is_checked() {
    assert_eq!(validate_refresh_request("POST", 1, 1), Err(RefreshError::BothBodies));
    assert_eq!(validate_refresh_request("GET", 1, 0), Err(RefreshError::BodyOnGet));
    assert_eq!(validate_refresh_request("get", 0, 2), Err(RefreshError::BodyOnGet));
    assert!(validate_refresh_request("GET", 0, 0).is_ok());
    assert!(validate_refresh_request("POST", 1, 0).is_ok());
    assert!(validate_refresh_request("", 0, 1).is_ok());
}

#[test]
fn extraction_specs_parse_exactly() {
    assert_eq!(
        parse_extraction_spec("body.json:data.token"),
        Ok(ExtractKind::BodyJson("data.token".to_string()))
    );
    assert_eq!(
        parse_extraction_spec("header:X-Auth-Token"),
        Ok(ExtractKind::Header("X-Auth-Token".to_string()))
    );
    assert_eq!(
        parse_extraction_spec("body.regex:token=(\\w+)"),
        Ok(ExtractKind::BodyRegex("token=(\\w+)".to_string()))
    );
    assert_eq!(parse_extraction_spec("no-colon"), Err(RefreshError::InvalidSpec));
    assert_eq!(parse_extraction_spec("weird:x"), Err(RefreshError::UnsupportedSpec));
}

#[test]
fn token_extraction_by_json_path() {
    let headers: Vec<(String, String)> = vec![];
    let body = "{\"data\":{\"token\":\"xyz\"}}";
    let token = extract_token_value(&headers, body, "body.json:data.token").unwrap();
    assert_eq!(token, "xyz");
    assert_eq!(
        extract_token_value(&headers, body, "body.json:data.absent"),
        Err(RefreshError::MissingToken)
    );
    assert_eq!(
        extract_token_value(&headers, "not json", "body.json:data.token"),
        Err(RefreshError::MissingToken)
    );
}

#[test]
fn token_extraction_by_header() {
    let headers = vec![
        ("content-type".to_string(), "application/json".to_string()),
        ("x-auth-token".to_string(), "secret-token-value".to_string()),
    ];
    let token = extract_token_value(&headers, "", "header:x-auth-token").unwrap();
    assert_eq!(token, "secret-token-value");
    assert_eq!(
        extract_token_value(&headers, "", "header:x-missing"),
        Err(RefreshError::MissingHeader)
    );
}

#[test]
fn token_extraction_by_regex_capture() {
    let headers: Vec<(String, String)> = vec![];
    let body = "ok; token=abc123; rest";
    let token = extract_token_value(&headers, body, "body.regex:token=(\\w+)").unwrap();
    assert_eq!(token, "abc123");
    assert_eq!(
        extract_token_value(&headers, "nothing here", "body.regex:token=(\\w+)"),
        Err(RefreshError::NoRegexMatch)
    );
    assert_eq!(
        extract_token_value(&headers, body, "body.regex:token=\\w+"),
        Err(RefreshError::NoRegexMatch)
    );
}

#[test]
fn basic_auth_header_encodes_the_pair() {
    assert_eq!(basic_auth_header("user:token"), "Basic dXNlcjp0b2tlbg==");
    assert_eq!(basic_auth_header(""), "Basic ");
}

#[test]
fn locale_normalization() {
    assert_eq!(normalize_locale("zh_CN"), "zh-CN");
    assert_eq!(normalize_locale("C"), "en-US");
    assert_eq!(normalize_locale("POSIX"), "en-US");
    assert_eq!(normalize_locale("en-GB"), "en-GB");

    let mut i18n = I18n::new("C", vec!["en-US".to_string(), "zh-CN".to_string()]);
    assert_eq!(i18n.locale(), "en-US");
    i18n.set_locale("zh_CN");
    assert_eq!(i18n.locale(), "zh-CN");
    assert_eq!(i18n.available_locales().len(), 2);
}

#[test]
fn param_type_resolution() {
    assert_eq!(
        resolve_param_type(Some("hudson.model.StringParameterDefinition")),
        Some(ParamType::String)
    );
    assert_eq!(
        resolve_param_type(Some("ChoiceParameterDefinition")),
        Some(ParamType::Choice)
    );
    assert_eq!(
        resolve_param_type(Some("hudson.model.PasswordParameterDefinition")),
        Some(ParamType::Password)
    );
    assert_eq!(resolve_param_type(Some("hudson.model.FileParameterDefinition")), None);
    assert_eq!(resolve_param_type(None), None);
}

#[test]
fn password_defaults_are_masked() {
    let normalized = normalize_default_value(
        Some(&ParamType::Password),
        Some("real-secret".to_string()),
    );
    assert_eq!(normalized, Some("<DEFAULT>".to_string()));
    let kept = normalize_default_value(Some(&ParamType::String), Some("main".to_string()));
    assert_eq!(kept, Some("main".to_string()));
}

#[test]
fn entered_values_normalize_per_schema() {
    assert_eq!(normalize_input_value("  main  ", Some(true)), "main");
    assert_eq!(normalize_input_value("  main  ", Some(false)), "  main  ");
    assert_eq!(normalize_input_value("  main  ", None), "  main  ");
    assert_eq!(password_value("".to_string(), "kept"), "kept");
    assert_eq!(password_value("typed".to_string(), "kept"), "typed");
    assert_eq!(boolean_text(true), "true");
    assert_eq!(boolean_text(false), "false");
}
