use avion_messager::auth::{
    auth_url, is_invalid_grant, is_invalid_grant_error, needs_refresh, parse_redirect,
    percent_decode, urlencode,
};
use avion_messager::time::Moment;
use chrono::{DateTime, Duration, Local, Offset, TimeZone};

fn moment(dt: DateTime<Local>) -> Moment {
    Moment::from_parts(dt.timestamp(), dt.timestamp_subsec_nanos(), dt.offset().fix().local_minus_utc())
        .unwrap()
}

#[test]
fn url_autorisation_contient_les_parametres_obligatoires() {
    let url = auth_url("ID.apps.googleusercontent.com", "http://127.0.0.1:4242", "CHALL");
    assert!(url.starts_with("https://accounts.google.com/o/oauth2/v2/auth?"));
    assert!(url.contains("response_type=code"));
    assert!(url.contains("client_id=ID.apps.googleusercontent.com"));
    assert!(url.contains("redirect_uri=http%3A%2F%2F127.0.0.1%3A4242"));
    assert!(url.contains("scope=https%3A%2F%2Fwww.googleapis.com%2Fauth%2Fcalendar.readonly"));
    assert!(url.contains("code_challenge=CHALL"));
    assert!(url.contains("code_challenge_method=S256"));
    assert!(url.contains("access_type=offline"));
    assert!(url.contains("prompt=consent"));
}

#[test]
fn parse_redirect_extrait_et_decode_le_code() {
    let line = "GET /?code=4%2F0AbCdEf&scope=x HTTP/1.1";
    assert_eq!(parse_redirect(line).unwrap(), "4/0AbCdEf");
}

#[test]
fn parse_redirect_erreur_ou_absence_echoue_proprement() {
    assert!(parse_redirect("GET /?error=access_denied HTTP/1.1").is_err());
    assert!(parse_redirect("GET /favicon.ico HTTP/1.1").is_err());
}

#[test]
fn needs_refresh_a_60s_ou_moins() {
    let now = Local.with_ymd_and_hms(2026, 7, 5, 10, 0, 0).unwrap();
    assert!(needs_refresh(None, moment(now)));
    assert!(needs_refresh(Some(moment(now + Duration::seconds(60))), moment(now)));
    assert!(!needs_refresh(Some(moment(now + Duration::seconds(61))), moment(now)));
}

#[test]
fn invalid_grant_par_champ_json_pas_substring() {
    assert!(is_invalid_grant(r#"{"error":"invalid_grant","error_description":"x"}"#));
    assert!(!is_invalid_grant(r#"{"error":"server_error"}"#));
    assert!(!is_invalid_grant(r#"{"error":"other","error_description":"invalid_grant"}"#));
    assert!(!is_invalid_grant("pas du json invalid_grant"));
}

#[test]
fn needs_refresh_for_past_expiry_and_sub_second_margin() {
    let now = Local.with_ymd_and_hms(2026, 7, 5, 10, 0, 0).unwrap();
    assert!(needs_refresh(Some(moment(now - Duration::seconds(5))), moment(now)));
    assert!(!needs_refresh(Some(moment(now + Duration::milliseconds(60_001))), moment(now)));
}

#[test]
fn invalid_grant_error_field_exact_match() {
    assert!(is_invalid_grant_error(Some("invalid_grant")));
    assert!(!is_invalid_grant_error(Some("invalid_grant ")));
    assert!(!is_invalid_grant_error(None));
    assert!(!is_invalid_grant(r#"["invalid_grant"]"#));
    assert!(!is_invalid_grant(r#"{"error":42}"#));
}

#[test]
fn urlencode_exact_output() {
    assert_eq!(urlencode("a b/é~"), "a%20b%2F%C3%A9~");
    assert_eq!(urlencode(""), "");
    assert_eq!(urlencode("AZaz09-_.~"), "AZaz09-_.~");
}

#[test]
fn percent_decode_cases() {
    assert_eq!(percent_decode("4%2F0AbCdEf"), "4/0AbCdEf");
    assert_eq!(percent_decode("%e2%82%ac"), "€");
    assert_eq!(percent_decode("100%"), "100%");
    assert_eq!(percent_decode("%4"), "%4");
    assert_eq!(percent_decode("%zz"), "%zz");
    assert_eq!(percent_decode("a%41"), "aA");
    assert_eq!(percent_decode("%FF"), "\u{FFFD}");
}

#[test]
fn percent_decode_undoes_urlencode_on_examples() {
    for s in ["", "hello world", "4/0AbCdEf", "é€😀 & = ? %", "a%b"] {
        assert_eq!(percent_decode(&urlencode(s)), s);
    }
}

#[test]
fn redirect_yields_encoded_code() {
    for code in ["4/0AbCdEf", "a b&c=d?e", "é"] {
        let line = format!("GET /?code={} HTTP/1.1", urlencode(code));
        assert_eq!(parse_redirect(&line).unwrap(), code);
    }
}

#[test]
fn parse_redirect_messages() {
    assert_eq!(parse_redirect("POST / HTTP/1.1").unwrap_err(), "requête illisible");
    assert_eq!(
        parse_redirect("GET /?error=access_denied HTTP/1.1").unwrap_err(),
        "erreur OAuth : access_denied"
    );
    assert_eq!(parse_redirect("GET /favicon.ico HTTP/1.1").unwrap_err(), "pas de code dans la redirection");
    assert_eq!(
        parse_redirect("GET /?code=a&error=x HTTP/1.1").unwrap_err(),
        "erreur OAuth : x"
    );
    assert_eq!(parse_redirect("GET /?code=a&code=b HTTP/1.1").unwrap(), "b");
    assert_eq!(parse_redirect("GET /?code= HTTP/1.1").unwrap(), "");
    assert_eq!(parse_redirect("GET /?code=a=b").unwrap(), "a=b");
}
