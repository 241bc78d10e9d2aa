//! The cookie string.

use udemyget::cookie::{
    api_headers, base64_decode, cache_headers, cookie_header, decode_jwt_email, find_text, jwt_payload,
};

#[test]
fn bare_tokens_become_cookies() {
    assert_eq!(cookie_header("abc"), "access_token=abc");
    assert_eq!(cookie_header("a=b; c=d"), "a=b; c=d");
    assert_eq!(cookie_header(""), "access_token=");
}

fn pair(name: &str, value: &str) -> (String, String) {
    (name.to_string(), value.to_string())
}

#[test]
fn cache_cookies_become_headers() {
    let cookie = "a=b; ud_cache_brand=PLen_US;ud_cache_marketplace_country=\"PL\" ; \
                  ud_cache_none; ud_cache_logged_in=1; xud_cache_x=1; ud_cache_q=a=b";
    assert_eq!(
        cache_headers(cookie),
        vec![
            pair("x-udemy-cache-brand", "PLen_US"),
            pair("x-udemy-cache-marketplace-country", "PL"),
            pair("x-udemy-cache-logged-in", "1"),
            pair("x-udemy-cache-q", "a=b"),
        ]
    );
    assert_eq!(cache_headers(""), vec![]);
}

#[test]
fn api_is_asked_as_a_browser_does() {
    let headers = api_headers("ud_cache_user=7");
    let names: Vec<&str> = headers.iter().map(|h| h.0.as_str()).collect();
    assert_eq!(
        names,
        vec![
            "cookie",
            "user-agent",
            "accept",
            "accept-language",
            "origin",
            "referer",
            "x-requested-with",
            "x-udemy-cache-user",
        ]
    );
    assert_eq!(headers[0].1, "ud_cache_user=7");
    assert_eq!(headers[7].1, "7");
    assert_eq!(api_headers("token")[0].1, "access_token=token");
}

#[test]
fn base64_is_decoded() {
    assert_eq!(base64_decode(""), Some(vec![]));
    assert_eq!(base64_decode("Zg=="), Some(b"f".to_vec()));
    assert_eq!(base64_decode("Zg"), Some(b"f".to_vec()));
    assert_eq!(base64_decode("Zm8="), Some(b"fo".to_vec()));
    assert_eq!(base64_decode("Zm9v"), Some(b"foo".to_vec()));
    assert_eq!(base64_decode("Zm9vYmFy"), Some(b"foobar".to_vec()));
    assert_eq!(base64_decode("+/+/"), Some(vec![0xfb, 0xff, 0xbf]));
}

#[test]
fn texts_that_are_no_base64_are_refused() {
    assert_eq!(base64_decode("Zm9v!"), None);
    assert_eq!(base64_decode("Z"), None);
    assert_eq!(base64_decode("Zm9vY"), None);
    assert_eq!(base64_decode("Zmé="), None);
    assert_eq!(base64_decode("-_"), None);
}

/// `bytes` in the base64 of tokens.
fn token_text(bytes: &[u8]) -> String {
    let table = b"ABCDEFGHIJKLMNOPQRSTUVWXYZabcdefghijklmnopqrstuvwxyz0123456789-_";
    let mut out = String::new();
    for chunk in bytes.chunks(3) {
        let mut n = 0u32;
        for i in 0..3 {
            n = n << 8 | *chunk.get(i).unwrap_or(&0) as u32;
        }
        for i in 0..chunk.len() + 1 {
            out.push(table[(n >> (18 - 6 * i) & 63) as usize] as char);
        }
    }
    out
}

#[test]
fn payloads_come_back_out_of_tokens() {
    for n in 0..40usize {
        let bytes: Vec<u8> = (0..n).map(|i| (i * 37 + 251) as u8).collect();
        let cookie = format!("a=b; ud_user_jwt=head.{}.sig; c=d", token_text(&bytes));
        assert_eq!(jwt_payload(&cookie), Some(bytes));
    }
}

#[test]
fn payloads_may_be_absent() {
    assert_eq!(jwt_payload("a=b"), None);
    assert_eq!(jwt_payload("ud_user_jwt=onlyone"), None);
    assert_eq!(jwt_payload("ud_user_jwt=a.?.c"), None);
    assert_eq!(jwt_payload("ud_user_jwt=a..c"), Some(vec![]));
}

#[test]
fn accounts_are_named() {
    let payload = token_text(b"{\"email\":\"me@example.org\",\"id\":7}");
    let cookie = format!("x=1;  ud_user_jwt=h.{payload}.s ;y=2");
    assert_eq!(decode_jwt_email(&cookie).as_deref(), Some("me@example.org"));
}

#[test]
fn accounts_may_have_no_name() {
    for payload in ["{\"mail\":\"me\"}", "{\"email\":7}", "[]", "{", ""] {
        let cookie = format!("ud_user_jwt=h.{}.s", token_text(payload.as_bytes()));
        assert_eq!(decode_jwt_email(&cookie), None, "{payload}");
    }
    assert_eq!(decode_jwt_email("nothing"), None);
}

#[test]
fn members_are_looked_up_by_name() {
    let members = vec![
        ("id".to_string(), None),
        ("email".to_string(), Some("a@b.c".to_string())),
        ("email".to_string(), Some("later".to_string())),
    ];
    assert_eq!(find_text(&members, "email").as_deref(), Some("a@b.c"));
    assert_eq!(find_text(&members, "id"), None);
    assert_eq!(find_text(&members, "mail"), None);
    assert_eq!(find_text(&vec![], "email"), None);
}
