//! The cookie string: request headers and the account that it names.

use crate::text::{
    after_prefix, begins_with, chars_of, contains_char, find_char, first_pos,
    law_characters_are_cut_off, law_prefixes_are_cut_off, lemma_first_pos, lemma_first_pos_is,
    opt_text, replace_char, replaced, split_on, split_text, strip_char, strip_prefix_text, stripped_of,
    text_of, texts, trim_text, trimmed,
};
use vstd::prelude::*;
use vstd::string::*;

verus! {

// -------------------------------------------------------------------- headers

/// The `Cookie` header for a cookie string. A string without any `=` is taken for the
/// access token alone.
pub open spec fn cookie_header_text(cookie: Seq<char>) -> Seq<char> {
    if cookie.contains('=') {
        cookie
    } else {
        "access_token="@ + cookie
    }
}

/// Gives the `Cookie` header for a cookie string.
pub fn cookie_header(cookie: &str) -> (header: String)
    ensures
        header@ == cookie_header_text(cookie@),
{
    if contains_char(cookie, '=') {
        cookie.to_owned()
    } else {
        let mut header = "access_token=".to_owned();
        header.append(cookie);
        header
    }
}

/// The header that one part of a cookie string asks for: `ud_cache_<key>=<value>`
/// gives `x-udemy-cache-<key>`, with dashes for underscores in the key, and the value
/// without the quotes around it.
pub open spec fn cache_header(part: Seq<char>) -> Option<(Seq<char>, Seq<char>)> {
    match after_prefix(trimmed(part), "ud_cache_"@) {
        Some(rest) => {
            let eq = first_pos(rest, '=');
            if eq < rest.len() {
                Some(
                    (
                        "x-udemy-cache-"@ + replaced(rest.take(eq), '_', '-'),
                        stripped_of(rest.skip(eq + 1), '"'),
                    ),
                )
            } else {
                None
            }
        },
        None => None,
    }
}

/// The headers that the parts of a cookie string ask for, in order.
pub open spec fn headers_of(parts: Seq<Seq<char>>) -> Seq<(Seq<char>, Seq<char>)>
    decreases parts.len(),
{
    if parts.len() == 0 {
        seq![]
    } else {
        let before = headers_of(parts.drop_last());
        match cache_header(parts.last()) {
            Some(h) => before.push(h),
            None => before,
        }
    }
}

/// The names and values of headers.
pub open spec fn header_views(headers: Seq<(String, String)>) -> Seq<(Seq<char>, Seq<char>)> {
    headers.map_values(|h: (String, String)| (h.0@, h.1@))
}

fn header_in(part: &str) -> (header: Option<(String, String)>)
    ensures
        match header {
            Some(h) => cache_header(part@) == Some((h.0@, h.1@)),
            None => cache_header(part@) is None,
        },
{
    let part = trim_text(part);
    let rest = match strip_prefix_text(part.as_str(), "ud_cache_") {
        Some(rest) => rest,
        None => return None,
    };
    let chars = chars_of(rest.as_str());
    let eq: usize = find_char(&chars, '=');
    if eq >= chars.len() {
        return None;
    }
    let key = text_of(&chars, 0, eq);
    let value = text_of(&chars, eq + 1, chars.len());
    assert(key@ =~= rest@.take(eq as int));
    assert(value@ =~= rest@.skip(eq + 1));
    let mut name = "x-udemy-cache-".to_owned();
    name.append(replace_char(key.as_str(), '_', '-').as_str());
    Some((name, strip_char(value.as_str(), '"')))
}

/// Gives the `x-udemy-cache-*` headers that the `ud_cache_*` cookies ask for. Where a
/// name occurs more than once, the last value counts.
pub fn cache_headers(cookie: &str) -> (headers: Vec<(String, String)>)
    ensures
        header_views(headers@) == headers_of(split_on(cookie@, ';')),
{
    let parts = split_text(cookie, ';');
    let ghost all = texts(parts@);
    let mut headers: Vec<(String, String)> = Vec::new();
    let mut i: usize = 0;
    assert(header_views(headers@) =~= headers_of(all.take(0)));
    while i < parts.len()
        invariant
            i <= parts.len(),
            all == texts(parts@),
            header_views(headers@) == headers_of(all.take(i as int)),
        decreases parts.len() - i,
    {
        let ghost before = headers@;
        assert(all.take(i + 1).drop_last() =~= all.take(i as int));
        assert(all.take(i + 1).last() == parts@[i as int]@);
        if let Some(h) = header_in(parts[i].as_str()) {
            let ghost shown = (h.0@, h.1@);
            headers.push(h);
            assert(header_views(headers@) =~= header_views(before).push(shown));
        }
        i += 1;
    }
    assert(all.take(i as int) =~= all);
    headers
}

/// Adds a header.
pub(crate) fn push_header(headers: &mut Vec<(String, String)>, name: &str, value: &str)
    ensures
        header_views(final(headers)@) == header_views(old(headers)@).push((name@, value@)),
{
    let ghost before = header_views(headers@);
    headers.push((name.to_owned(), value.to_owned()));
    assert(header_views(headers@) =~= before.push((name@, value@)));
}

/// The headers of a browser that every request to the API has.
pub open spec fn browser_headers() -> Seq<(Seq<char>, Seq<char>)> {
    seq![
        (
            "user-agent"@,
            "Mozilla/5.0 (X11; Linux x86_64; rv:150.0) Gecko/20100101 Firefox/150.0"@,
        ),
        ("accept"@, "application/json, text/plain, */*"@),
        ("accept-language"@, "en-US"@),
        ("origin"@, "https://www.udemy.com"@),
        ("referer"@, "https://www.udemy.com/"@),
        ("x-requested-with"@, "XMLHttpRequest"@),
    ]
}

/// The headers that the API is asked with.
pub open spec fn request_headers(cookie: Seq<char>) -> Seq<(Seq<char>, Seq<char>)> {
    seq![("cookie"@, cookie_header_text(cookie))] + browser_headers() + headers_of(
        split_on(cookie, ';'),
    )
}

/// The headers to ask the API with: the cookies, those of a browser, and those that the
/// `ud_cache_*` cookies ask for.
pub fn api_headers(cookie: &str) -> (headers: Vec<(String, String)>)
    ensures
        header_views(headers@) == seq![("cookie"@, cookie_header_text(cookie@))]
            + browser_headers() + headers_of(split_on(cookie@, ';')),
        header_views(headers@) == request_headers(cookie@),
{
    let mut headers: Vec<(String, String)> = Vec::new();
    push_header(&mut headers, "cookie", cookie_header(cookie).as_str());
    push_header(
        &mut headers,
        "user-agent",
        "Mozilla/5.0 (X11; Linux x86_64; rv:150.0) Gecko/20100101 Firefox/150.0",
    );
    push_header(&mut headers, "accept", "application/json, text/plain, */*");
    push_header(&mut headers, "accept-language", "en-US");
    push_header(&mut headers, "origin", "https://www.udemy.com");
    push_header(&mut headers, "referer", "https://www.udemy.com/");
    push_header(&mut headers, "x-requested-with", "XMLHttpRequest");
    assert(header_views(headers@) =~= seq![("cookie"@, cookie_header_text(cookie@))]
        + browser_headers());
    let ghost fixed = header_views(headers@);
    let mut more = cache_headers(cookie);
    let ghost cached = header_views(more@);
    headers.append(&mut more);
    assert(header_views(headers@) =~= fixed + cached);
    headers
}

// --------------------------------------------------------------------- base64

/// The number that a character stands for in standard base64.
pub open spec fn sextet(c: char) -> Option<nat> {
    let n = c as u32;
    if 65 <= n <= 90 {
        Some((n - 65) as nat)
    } else if 97 <= n <= 122 {
        Some((n - 71) as nat)
    } else if 48 <= n <= 57 {
        Some((n + 4) as nat)
    } else if n == 43 {
        Some(62)
    } else if n == 47 {
        Some(63)
    } else {
        None
    }
}

/// The numbers that the characters of `s` other than `=` stand for; nothing if one of
/// them stands for none.
pub open spec fn sextets(s: Seq<char>) -> Option<Seq<nat>>
    decreases s.len(),
{
    if s.len() == 0 {
        Some(seq![])
    } else if s.last() == '=' {
        sextets(s.drop_last())
    } else {
        match (sextets(s.drop_last()), sextet(s.last())) {
            (Some(before), Some(v)) => Some(before.push(v)),
            _ => None,
        }
    }
}

/// The bytes that numbers of six bits hold: each four of them hold three bytes, and
/// two or three at the end hold one or two. A single one at the end holds none.
pub open spec fn packed(v: Seq<nat>) -> Option<Seq<u8>>
    decreases v.len(),
{
    if v.len() == 0 {
        Some(seq![])
    } else if v.len() == 1 {
        None
    } else {
        let b0 = (v[0] * 4 + v[1] / 16) as u8;
        if v.len() == 2 {
            Some(seq![b0])
        } else {
            let b1 = (v[1] % 16 * 16 + v[2] / 4) as u8;
            if v.len() == 3 {
                Some(seq![b0, b1])
            } else {
                let b2 = (v[2] % 4 * 64 + v[3]) as u8;
                match packed(v.skip(4)) {
                    Some(rest) => Some(seq![b0, b1, b2] + rest),
                    None => None,
                }
            }
        }
    }
}

/// The bytes that `s` writes in standard base64. Padding does not matter; text with
/// another character, or with a single character left over, writes none.
pub open spec fn base64_bytes(s: Seq<char>) -> Option<Seq<u8>> {
    match sextets(s) {
        Some(v) => packed(v),
        None => None,
    }
}

/// What optional bytes hold.
pub open spec fn opt_bytes(bytes: Option<Vec<u8>>) -> Option<Seq<u8>> {
    match bytes {
        Some(b) => Some(b@),
        None => None,
    }
}

fn sextet_of(c: char) -> (v: Option<u8>)
    ensures
        match v {
            Some(v) => v < 64 && sextet(c) == Some(v as nat),
            None => sextet(c) is None,
        },
{
    let n: u32 = c as u32;
    if 65 <= n && n <= 90 {
        Some((n - 65) as u8)
    } else if 97 <= n && n <= 122 {
        Some((n - 71) as u8)
    } else if 48 <= n && n <= 57 {
        Some((n + 4) as u8)
    } else if n == 43 {
        Some(62)
    } else if n == 47 {
        Some(63)
    } else {
        None
    }
}

spec fn as_nats(v: Seq<u8>) -> Seq<nat> {
    v.map_values(|b: u8| b as nat)
}

proof fn lemma_sextets_none(s: Seq<char>, i: int)
    requires
        0 <= i <= s.len(),
        sextets(s.take(i)) is None,
    ensures
        sextets(s) is None,
    decreases s.len() - i,
{
    if i < s.len() {
        assert(s.take(i + 1).drop_last() =~= s.take(i));
        lemma_sextets_none(s, i + 1);
    } else {
        assert(s.take(i) =~= s);
    }
}

fn values_of(s: &str) -> (values: Option<Vec<u8>>)
    ensures
        match values {
            Some(v) => {
                &&& sextets(s@) == Some(as_nats(v@))
                &&& forall|k: int| 0 <= k < v.len() ==> #[trigger] v@[k] < 64
            },
            None => sextets(s@) is None,
        },
{
    let chars = chars_of(s);
    let mut values: Vec<u8> = Vec::new();
    let mut i: usize = 0;
    assert(as_nats(values@) =~= seq![]);
    while i < chars.len()
        invariant
            i <= chars.len(),
            chars@ == s@,
            sextets(s@.take(i as int)) == Some(as_nats(values@)),
            forall|k: int| 0 <= k < values.len() ==> #[trigger] values@[k] < 64,
        decreases chars.len() - i,
    {
        let ghost before = values@;
        assert(s@.take(i + 1).drop_last() =~= s@.take(i as int));
        if chars[i] != '=' {
            match sextet_of(chars[i]) {
                Some(v) => {
                    values.push(v);
                    assert(as_nats(values@) =~= as_nats(before).push(v as nat));
                },
                None => {
                    proof {
                        lemma_sextets_none(s@, i + 1);
                    }
                    return None;
                },
            }
        }
        i += 1;
    }
    assert(s@.take(i as int) =~= s@);
    Some(values)
}

/// Decodes standard base64, with or without padding.
pub fn base64_decode(s: &str) -> (bytes: Option<Vec<u8>>)
    ensures
        opt_bytes(bytes) == base64_bytes(s@),
{
    let values = match values_of(s) {
        Some(values) => values,
        None => return None,
    };
    let ghost all = as_nats(values@);
    let mut out: Vec<u8> = Vec::new();
    let mut i: usize = 0;
    assert(all.skip(0) =~= all);
    while values.len() - i >= 4
        invariant
            i <= values.len(),
            all == as_nats(values@),
            forall|k: int| 0 <= k < values.len() ==> #[trigger] values@[k] < 64,
            packed(all) == match packed(all.skip(i as int)) {
                Some(rest) => Some(out@ + rest),
                None => None,
            },
        decreases values.len() - i,
    {
        let ghost rest = all.skip(i as int);
        let ghost before = out@;
        let a: u8 = values[i];
        let b: u8 = values[i + 1];
        let c: u8 = values[i + 2];
        let d: u8 = values[i + 3];
        out.push(a * 4 + b / 16);
        out.push(b % 16 * 16 + c / 4);
        out.push(c % 4 * 64 + d);
        proof {
            assert(rest[0] == a && rest[1] == b && rest[2] == c && rest[3] == d);
            assert(rest.skip(4) =~= all.skip(i + 4));
            let three = seq![
                (a * 4 + b / 16) as u8,
                (b % 16 * 16 + c / 4) as u8,
                (c % 4 * 64 + d) as u8,
            ];
            assert(out@ =~= before + three);
            if let Some(tail) = packed(all.skip(i + 4)) {
                assert(before + (three + tail) =~= out@ + tail);
            }
        }
        i += 4;
    }
    let left: usize = values.len() - i;
    let ghost rest = all.skip(i as int);
    let ghost before = out@;
    if left == 1 {
        return None;
    }
    if left >= 2 {
        let a: u8 = values[i];
        let b: u8 = values[i + 1];
        out.push(a * 4 + b / 16);
        assert(rest[0] == a && rest[1] == b);
        if left == 3 {
            let c: u8 = values[i + 2];
            out.push(b % 16 * 16 + c / 4);
            assert(rest[2] == c);
        }
    }
    assert(out@ =~= before + packed(rest)->0);
    Some(out)
}

/// The character that stands for `v` in standard base64.
pub open spec fn sextet_char(v: nat) -> char
    recommends
        v < 64,
{
    if v < 26 {
        (v + 65) as char
    } else if v < 52 {
        (v + 71) as char
    } else if v < 62 {
        (v - 4) as char
    } else if v == 62 {
        '+'
    } else {
        '/'
    }
}

/// The numbers of six bits that hold `bytes`.
pub open spec fn unpacked(bytes: Seq<u8>) -> Seq<nat>
    decreases bytes.len(),
{
    if bytes.len() == 0 {
        seq![]
    } else {
        let v0 = bytes[0] as nat / 4;
        if bytes.len() == 1 {
            seq![v0, bytes[0] as nat % 4 * 16]
        } else {
            let v1 = bytes[0] as nat % 4 * 16 + bytes[1] as nat / 16;
            if bytes.len() == 2 {
                seq![v0, v1, bytes[1] as nat % 16 * 4]
            } else {
                let v2 = bytes[1] as nat % 16 * 4 + bytes[2] as nat / 64;
                seq![v0, v1, v2, bytes[2] as nat % 64] + unpacked(bytes.skip(3))
            }
        }
    }
}

/// `bytes` in standard base64, without padding.
pub open spec fn base64_text(bytes: Seq<u8>) -> Seq<char> {
    unpacked(bytes).map_values(|v: nat| sextet_char(v))
}

proof fn lemma_packed_unpacked(bytes: Seq<u8>)
    ensures
        packed(unpacked(bytes)) == Some(bytes),
        forall|k: int| 0 <= k < unpacked(bytes).len() ==> #[trigger] unpacked(bytes)[k] < 64,
    decreases bytes.len(),
{
    let v = unpacked(bytes);
    if bytes.len() == 0 {
        assert(packed(v)->0 =~= bytes);
    } else if bytes.len() < 3 {
        assert(packed(v)->0 =~= bytes);
    } else {
        lemma_packed_unpacked(bytes.skip(3));
        assert(v.skip(4) =~= unpacked(bytes.skip(3)));
        assert(bytes =~= bytes.take(3) + bytes.skip(3));
        assert(packed(v)->0 =~= bytes);
        assert forall|k: int| 0 <= k < v.len() implies #[trigger] v[k] < 64 by {
            if k >= 4 {
                assert(v[k] == v.skip(4)[k - 4]);
            }
        }
    }
}

proof fn lemma_sextets_of_chars(v: Seq<nat>)
    requires
        forall|k: int| 0 <= k < v.len() ==> #[trigger] v[k] < 64,
    ensures
        sextets(v.map_values(|n: nat| sextet_char(n))) == Some(v),
    decreases v.len(),
{
    let s = v.map_values(|n: nat| sextet_char(n));
    if v.len() > 0 {
        let v0 = v.drop_last();
        assert forall|k: int| 0 <= k < v0.len() implies #[trigger] v0[k] < 64 by {
            assert(v0[k] == v[k]);
        }
        lemma_sextets_of_chars(v0);
        assert(s.drop_last() =~= v0.map_values(|n: nat| sextet_char(n)));
        let n = v.last();
        assert(n < 64);
        assert(s.last() == sextet_char(n));
        assert(sextet(sextet_char(n)) == Some(n));
        assert(v0.push(n) =~= v);
    } else {
        assert(v =~= seq![]);
    }
}

proof fn lemma_padding_is_skipped(s: Seq<char>, pad: Seq<char>)
    requires
        forall|k: int| 0 <= k < pad.len() ==> #[trigger] pad[k] == '=',
    ensures
        sextets(s + pad) == sextets(s),
    decreases pad.len(),
{
    if pad.len() > 0 {
        assert((s + pad).drop_last() =~= s + pad.drop_last());
        lemma_padding_is_skipped(s, pad.drop_last());
    } else {
        assert(s + pad =~= s);
    }
}

/// Decoding gives back what was encoded, however much padding follows.
pub proof fn law_base64_gives_back_what_was_encoded(bytes: Seq<u8>, pad: Seq<char>)
    requires
        forall|k: int| 0 <= k < pad.len() ==> #[trigger] pad[k] == '=',
    ensures
        base64_bytes(base64_text(bytes) + pad) == Some(bytes),
{
    lemma_packed_unpacked(bytes);
    lemma_sextets_of_chars(unpacked(bytes));
    lemma_padding_is_skipped(base64_text(bytes), pad);
}

// -------------------------------------------------------------------- account

/// The token in the `ud_user_jwt` cookie: the first one among the parts.
pub open spec fn token_in(parts: Seq<Seq<char>>) -> Option<Seq<char>>
    decreases parts.len(),
{
    if parts.len() == 0 {
        None
    } else {
        match after_prefix(trimmed(parts[0]), "ud_user_jwt="@) {
            Some(token) => Some(token),
            None => token_in(parts.skip(1)),
        }
    }
}

/// The payload of a token: its second piece, in base64 with `-` for `+` and `_` for `/`.
pub open spec fn token_payload(token: Seq<char>) -> Option<Seq<u8>> {
    let pieces = split_on(token, '.');
    if pieces.len() > 1 {
        base64_bytes(replaced(replaced(pieces[1], '-', '+'), '_', '/'))
    } else {
        None
    }
}

/// The payload of the token in a cookie string.
pub open spec fn payload_in(cookie: Seq<char>) -> Option<Seq<u8>> {
    match token_in(split_on(cookie, ';')) {
        Some(token) => token_payload(token),
        None => None,
    }
}

/// `bytes` in the base64 of tokens: `-` stands for `+` and `_` for `/`.
pub open spec fn url_safe_text(bytes: Seq<u8>) -> Seq<char> {
    replaced(replaced(base64_text(bytes), '+', '-'), '/', '_')
}

/// The payload that a token was made with is what is read out of it, whatever its
/// header and its signature are.
pub proof fn law_token_gives_back_its_payload(
    header: Seq<char>,
    payload: Seq<u8>,
    signature: Seq<char>,
)
    requires
        !header.contains('.'),
    ensures
        token_payload(header + seq!['.'] + url_safe_text(payload) + seq!['.'] + signature) == Some(
            payload,
        ),
{
    let body = url_safe_text(payload);
    let token = header + seq!['.'] + body + seq!['.'] + signature;
    lemma_packed_unpacked(payload);
    let plain = base64_text(payload);
    assert forall|k: int| 0 <= k < plain.len() implies #[trigger] plain[k] != '-' && plain[k] != '_'
        && plain[k] != '.' by {
        assert(plain[k] == sextet_char(unpacked(payload)[k]));
    }
    assert forall|k: int| 0 <= k < header.len() implies #[trigger] token[k] != '.' by {
        assert(token[k] == header[k]);
    }
    lemma_first_pos_is(token, '.', header.len() as int);
    let rest = token.skip(header.len() as int + 1);
    assert(rest =~= body + seq!['.'] + signature);
    assert forall|k: int| 0 <= k < body.len() implies #[trigger] rest[k] != '.' by {
        assert(plain[k] != '.');
    }
    lemma_first_pos_is(rest, '.', body.len() as int);
    assert(rest.take(body.len() as int) =~= body);
    assert(split_on(rest, '.')[0] == body);
    assert(split_on(token, '.')[1] == body);
    assert(replaced(replaced(body, '-', '+'), '_', '/') =~= plain);
    law_base64_gives_back_what_was_encoded(payload, seq![]);
    assert(plain + seq![] =~= plain);
}

fn find_token(parts: &Vec<String>) -> (token: Option<String>)
    ensures
        opt_text(token) == token_in(texts(parts@)),
{
    let ghost all = texts(parts@);
    let mut i: usize = 0;
    assert(all.skip(0) =~= all);
    while i < parts.len()
        invariant
            i <= parts.len(),
            all == texts(parts@),
            token_in(all) == token_in(all.skip(i as int)),
        decreases parts.len() - i,
    {
        assert(all.skip(i as int)[0] == parts@[i as int]@);
        assert(all.skip(i as int).skip(1) =~= all.skip(i + 1));
        let part = trim_text(parts[i].as_str());
        if let Some(token) = strip_prefix_text(part.as_str(), "ud_user_jwt=") {
            return Some(token);
        }
        i += 1;
    }
    None
}

/// Decodes the payload of the token in a cookie string. The signature is not checked.
pub fn jwt_payload(cookie: &str) -> (payload: Option<Vec<u8>>)
    ensures
        opt_bytes(payload) == payload_in(cookie@),
{
    let parts = split_text(cookie, ';');
    let token = match find_token(&parts) {
        Some(token) => token,
        None => return None,
    };
    let pieces = split_text(token.as_str(), '.');
    assert(texts(pieces@).len() == pieces.len());
    if pieces.len() <= 1 {
        return None;
    }
    assert(texts(pieces@)[1] == pieces@[1]@);
    let plus = replace_char(pieces[1].as_str(), '-', '+');
    let standard = replace_char(plus.as_str(), '_', '/');
    base64_decode(standard.as_str())
}

/// What the members of a JSON object hold: their names, and their texts where they are
/// strings.
pub open spec fn member_views(members: Seq<(String, Option<String>)>) -> Seq<
    (Seq<char>, Option<Seq<char>>),
> {
    members.map_values(|m: (String, Option<String>)| (m.0@, opt_text(m.1)))
}

/// What the members of a JSON object hold, if there is one.
pub open spec fn opt_members(members: Option<Vec<(String, Option<String>)>>) -> Option<
    Seq<(Seq<char>, Option<Seq<char>>)>,
> {
    match members {
        Some(m) => Some(member_views(m@)),
        None => None,
    }
}

/// The members of the object that `serde_json` reads out of `json`; nothing where `json`
/// is no JSON object.
pub uninterp spec fn json_members(json: Seq<u8>) -> Option<Seq<(Seq<char>, Option<Seq<char>>)>>;

/// Calls `serde_json::from_slice`, and gives the members of the value where it is an
/// object, each with its name and, where it is a string, its text. Trusted: the result is
/// a function of the bytes alone, and it is what [`json_members`] names.
#[verifier::external_body]
fn read_members(json: &[u8]) -> (members: Option<Vec<(String, Option<String>)>>)
    ensures
        opt_members(members) == json_members(json@),
{
    match serde_json::from_slice(json) {
        Ok(serde_json::Value::Object(members)) => Some(
            members.into_iter().map(|(name, v)| (name, v.as_str().map(str::to_owned))).collect(),
        ),
        _ => None,
    }
}

/// The text of the first member with the name `key`; nothing where there is none, or it
/// is no string.
pub open spec fn text_under(members: Seq<(Seq<char>, Option<Seq<char>>)>, key: Seq<char>) -> Option<
    Seq<char>,
>
    decreases members.len(),
{
    if members.len() == 0 {
        None
    } else if members[0].0 == key {
        members[0].1
    } else {
        text_under(members.skip(1), key)
    }
}

/// Gives the text of the first member with the name `key`.
pub fn find_text(members: &Vec<(String, Option<String>)>, key: &str) -> (text: Option<String>)
    ensures
        opt_text(text) == text_under(member_views(members@), key@),
{
    let ghost all = member_views(members@);
    let wanted = key.to_owned();
    let mut i: usize = 0;
    assert(all.skip(0) =~= all);
    while i < members.len()
        invariant
            i <= members.len(),
            wanted@ == key@,
            all == member_views(members@),
            text_under(all, key@) == text_under(all.skip(i as int), key@),
        decreases members.len() - i,
    {
        assert(all.skip(i as int)[0] == (members@[i as int].0@, opt_text(members@[i as int].1)));
        assert(all.skip(i as int).skip(1) =~= all.skip(i + 1));
        if members[i].0 == wanted {
            return match &members[i].1 {
                Some(text) => Some(text.clone()),
                None => None,
            };
        }
        i += 1;
    }
    None
}

/// The e-mail address among the members of a token's payload.
pub open spec fn email_of(members: Option<Seq<(Seq<char>, Option<Seq<char>>)>>) -> Option<Seq<char>> {
    match members {
        Some(m) => text_under(m, "email"@),
        None => None,
    }
}

/// The e-mail address that a cookie string names.
pub open spec fn email_in(cookie: Seq<char>) -> Option<Seq<char>> {
    match payload_in(cookie) {
        Some(payload) => email_of(json_members(payload)),
        None => None,
    }
}

/// Gives the e-mail address in the payload of the `ud_user_jwt` cookie. There is none
/// if the cookie is absent or malformed.
pub fn decode_jwt_email(cookie: &str) -> (email: Option<String>)
    ensures
        opt_text(email) == email_in(cookie@),
{
    match jwt_payload(cookie) {
        Some(payload) => match read_members(payload.as_slice()) {
            Some(members) => find_text(&members, "email"),
            None => None,
        },
        None => None,
    }
}

// ------------------------------------------------------------------------ laws

/// A cookie string is sent as it is; an access token alone is sent under its name.
pub proof fn law_cookies_are_sent(cookie: Seq<char>)
    ensures
        cookie.contains('=') ==> cookie_header_text(cookie) == cookie,
        !cookie.contains('=') ==> cookie_header_text(cookie) == "access_token="@ + cookie,
{
}

/// A cookie `ud_cache_<key>=<value>` gives a header with dashes for the underscores in the
/// key, and with the value without the quotes around it.
pub proof fn law_cache_cookies_give_headers(
    part: Seq<char>,
    key: Seq<char>,
    lead: nat,
    value: Seq<char>,
    tail: nat,
)
    requires
        trimmed(part) == "ud_cache_"@ + (key + seq!['='] + (Seq::new(lead, |i: int| '"') + value
            + Seq::new(tail, |i: int| '"'))),
        !key.contains('='),
        value.len() > 0 ==> value[0] != '"' && value.last() != '"',
    ensures
        cache_header(part) == Some(("x-udemy-cache-"@ + replaced(key, '_', '-'), value)),
{
    let quoted = Seq::new(lead, |i: int| '"') + value + Seq::new(tail, |i: int| '"');
    let rest = key + seq!['='] + quoted;
    law_prefixes_are_cut_off("ud_cache_"@, rest, trimmed(part));
    let n = key.len() as int;
    assert forall|k: int| 0 <= k < n implies #[trigger] rest[k] != '=' by {
        assert(rest[k] == key[k]);
    }
    lemma_first_pos_is(rest, '=', n);
    assert(rest.take(n) =~= key);
    assert(rest.skip(n + 1) =~= quoted);
    law_characters_are_cut_off(lead, value, tail, '"');
}

/// Other cookies give no header: those with another name, and those without a value.
pub proof fn law_other_cookies_give_no_headers(part: Seq<char>, rest: Seq<char>)
    ensures
        !begins_with(trimmed(part), "ud_cache_"@) ==> cache_header(part) is None,
        trimmed(part) == "ud_cache_"@ + rest && !rest.contains('=') ==> cache_header(part) is None,
{
    law_prefixes_are_cut_off("ud_cache_"@, rest, trimmed(part));
    lemma_first_pos(rest, '=');
}

/// Every cookie gives its own header, in the order of the cookies.
pub proof fn law_headers_follow_the_cookies(a: Seq<Seq<char>>, b: Seq<Seq<char>>, part: Seq<char>)
    ensures
        headers_of(a + b) == headers_of(a) + headers_of(b),
        cache_header(part) matches Some(h) ==> headers_of(seq![part]) == seq![h],
        cache_header(part) is None ==> headers_of(seq![part]).len() == 0,
    decreases b.len(),
{
    assert(seq![part].drop_last() =~= seq![]);
    assert(headers_of(seq![part].drop_last()) =~= seq![]);
    if b.len() == 0 {
        assert(a + b =~= a);
        assert(headers_of(a) + headers_of(b) =~= headers_of(a));
    } else {
        assert((a + b).drop_last() =~= a + b.drop_last());
        law_headers_follow_the_cookies(a, b.drop_last(), part);
        assert(headers_of(a + b) =~= headers_of(a) + headers_of(b));
    }
}

/// Every request names the cookies first, then a browser, and then what the cache cookies
/// ask for.
pub proof fn law_requests_look_like_those_of_a_browser(cookie: Seq<char>)
    ensures
        ({
            let headers = request_headers(cookie);
            &&& headers[0] == ("cookie"@, cookie_header_text(cookie))
            &&& headers[1].0 == "user-agent"@
            &&& headers[2] == ("accept"@, "application/json, text/plain, */*"@)
            &&& headers[3] == ("accept-language"@, "en-US"@)
            &&& headers[4] == ("origin"@, "https://www.udemy.com"@)
            &&& headers[5] == ("referer"@, "https://www.udemy.com/"@)
            &&& headers[6] == ("x-requested-with"@, "XMLHttpRequest"@)
            &&& headers.skip(7) == headers_of(split_on(cookie, ';'))
        }),
{
    assert(request_headers(cookie).skip(7) =~= headers_of(split_on(cookie, ';')));
}

proof fn lemma_no_sextet(c: char)
    requires
        !('A' <= c && c <= 'Z') && !('a' <= c && c <= 'z') && !('0' <= c && c <= '9'),
        c != '+' && c != '/',
    ensures
        sextet(c) is None,
{
}

/// Text with a character that is none of base64 writes nothing.
pub proof fn law_other_characters_write_no_bytes(s: Seq<char>, i: int)
    requires
        0 <= i < s.len(),
        !('A' <= s[i] && s[i] <= 'Z') && !('a' <= s[i] && s[i] <= 'z') && !('0' <= s[i] && s[i]
            <= '9'),
        s[i] != '+' && s[i] != '/' && s[i] != '=',
    ensures
        base64_bytes(s) is None,
{
    assert(s.take(i + 1).last() == s[i]);
    lemma_no_sextet(s[i]);
    assert(sextets(s.take(i + 1)) is None);
    lemma_sextets_none(s, i + 1);
}

/// A single character that is left over behind groups of four writes nothing.
pub proof fn law_a_single_character_writes_no_bytes(v: Seq<nat>, n: nat)
    requires
        v.len() % 4 == 0,
    ensures
        packed(v.push(n)) is None,
    decreases v.len(),
{
    if v.len() > 0 {
        assert(v.push(n).skip(4) =~= v.skip(4).push(n));
        law_a_single_character_writes_no_bytes(v.skip(4), n);
    }
}

/// The first `ud_user_jwt` cookie holds the token.
pub proof fn law_the_first_token_counts(
    before: Seq<Seq<char>>,
    part: Seq<char>,
    token: Seq<char>,
    after: Seq<Seq<char>>,
)
    requires
        forall|k: int|
            0 <= k < before.len() ==> !begins_with(
                trimmed(#[trigger] before[k]),
                "ud_user_jwt="@,
            ),
        trimmed(part) == "ud_user_jwt="@ + token,
    ensures
        token_in(before + seq![part] + after) == Some(token),
        token_in(before) is None,
    decreases before.len(),
{
    let all = before + seq![part] + after;
    law_prefixes_are_cut_off("ud_user_jwt="@, token, trimmed(part));
    if before.len() == 0 {
        assert(all[0] == part);
    } else {
        let fewer = before.skip(1);
        assert(all[0] == before[0]);
        assert(!begins_with(trimmed(before[0]), "ud_user_jwt="@));
        assert forall|k: int| 0 <= k < fewer.len() implies !begins_with(
            trimmed(#[trigger] fewer[k]),
            "ud_user_jwt="@,
        ) by {
            assert(fewer[k] == before[k + 1]);
        }
        law_the_first_token_counts(fewer, part, token, after);
        assert(all.skip(1) =~= fewer + seq![part] + after);
    }
}

/// The payload that is read out of a cookie string is the one that its token was made with.
pub proof fn law_cookies_give_back_the_payload(
    cookie: Seq<char>,
    before: Seq<Seq<char>>,
    part: Seq<char>,
    after: Seq<Seq<char>>,
    header: Seq<char>,
    payload: Seq<u8>,
    signature: Seq<char>,
)
    requires
        split_on(cookie, ';') == before + seq![part] + after,
        forall|k: int|
            0 <= k < before.len() ==> !begins_with(
                trimmed(#[trigger] before[k]),
                "ud_user_jwt="@,
            ),
        trimmed(part) == "ud_user_jwt="@ + (header + seq!['.'] + url_safe_text(payload) + seq!['.']
            + signature),
        !header.contains('.'),
    ensures
        payload_in(cookie) == Some(payload),
        email_in(cookie) == email_of(json_members(payload)),
{
    let token = header + seq!['.'] + url_safe_text(payload) + seq!['.'] + signature;
    law_the_first_token_counts(before, part, token, after);
    law_token_gives_back_its_payload(header, payload, signature);
}

/// Without a token, and with one that has no payload, there is no address.
pub proof fn law_without_a_payload_there_is_no_address(cookie: Seq<char>, token: Seq<char>)
    ensures
        token_in(split_on(cookie, ';')) is None ==> email_in(cookie) is None,
        !token.contains('.') ==> token_payload(token) is None,
{
    lemma_first_pos(token, '.');
}

/// The address is the text under the name `email`, in the first member of that name.
pub proof fn law_the_address_is_under_its_name(
    before: Seq<(Seq<char>, Option<Seq<char>>)>,
    text: Option<Seq<char>>,
    after: Seq<(Seq<char>, Option<Seq<char>>)>,
)
    requires
        forall|k: int| 0 <= k < before.len() ==> (#[trigger] before[k]).0 != "email"@,
    ensures
        email_of(Some(before + seq![("email"@, text)] + after)) == text,
        email_of(Some(before)) is None,
        email_of(None) is None,
{
    law_members_are_found_by_name(before, "email"@, text, after);
}

/// The first member of a name is the one that is found.
pub proof fn law_members_are_found_by_name(
    before: Seq<(Seq<char>, Option<Seq<char>>)>,
    key: Seq<char>,
    text: Option<Seq<char>>,
    after: Seq<(Seq<char>, Option<Seq<char>>)>,
)
    requires
        forall|k: int| 0 <= k < before.len() ==> (#[trigger] before[k]).0 != key,
    ensures
        text_under(before + seq![(key, text)] + after, key) == text,
        text_under(before, key) is None,
    decreases before.len(),
{
    let all = before + seq![(key, text)] + after;
    if before.len() == 0 {
        assert(all[0] == (key, text));
    } else {
        let fewer = before.skip(1);
        assert(all[0] == before[0]);
        assert forall|k: int| 0 <= k < fewer.len() implies (#[trigger] fewer[k]).0 != key by {
            assert(fewer[k] == before[k + 1]);
        }
        law_members_are_found_by_name(fewer, key, text, after);
        assert(all.skip(1) =~= fewer + seq![(key, text)] + after);
    }
}

/// Four characters of base64 write three bytes: the number that they make up in base 64 is
/// the one that the bytes make up in base 256. Three characters at the end write the first
/// two of them, and two characters the first one.
pub proof fn law_four_characters_write_three_bytes(
    a: nat,
    b: nat,
    c: nat,
    d: nat,
    rest: Seq<nat>,
    more: Seq<u8>,
)
    requires
        a < 64 && b < 64 && c < 64 && d < 64,
        packed(rest) == Some(more),
    ensures
        ({
            let n = ((a * 64 + b) * 64 + c) * 64 + d;
            let b0 = (n / 65536) as u8;
            let b1 = (n / 256 % 256) as u8;
            let b2 = (n % 256) as u8;
            &&& packed(seq![a, b, c, d] + rest) == Some(seq![b0, b1, b2] + more)
            &&& packed(seq![a, b, c]) == Some(seq![b0, b1])
            &&& packed(seq![a, b]) == Some(seq![b0])
        }),
        packed(Seq::<nat>::empty()) == Some(Seq::<u8>::empty()),
{
    lemma_regrouped(a, b, c, d);
    let n = ((a * 64 + b) * 64 + c) * 64 + d;
    let b0 = (n / 65536) as u8;
    let b1 = (n / 256 % 256) as u8;
    let b2 = (n % 256) as u8;
    lemma_packed_group(a, b, c, d, rest, more, b0, b1, b2);
}

proof fn lemma_regrouped(a: nat, b: nat, c: nat, d: nat)
    requires
        a < 64 && b < 64 && c < 64 && d < 64,
    ensures
        (((a * 64 + b) * 64 + c) * 64 + d) / 65536 == a * 4 + b / 16,
        (((a * 64 + b) * 64 + c) * 64 + d) / 256 % 256 == b % 16 * 16 + c / 4,
        (((a * 64 + b) * 64 + c) * 64 + d) % 256 == c % 4 * 64 + d,
{
    let n = ((a * 64 + b) * 64 + c) * 64 + d;
    let b0 = a * 4 + b / 16;
    let b1 = b % 16 * 16 + c / 4;
    let b2 = c % 4 * 64 + d;
    assert(b == b / 16 * 16 + b % 16);
    assert(c == c / 4 * 4 + c % 4);
    assert(n == b0 * 65536 + b1 * 256 + b2);
    assert(b1 < 256 && b2 < 256);
    assert(n / 256 == b0 * 256 + b1);
}

proof fn lemma_packed_group(
    a: nat,
    b: nat,
    c: nat,
    d: nat,
    rest: Seq<nat>,
    more: Seq<u8>,
    b0: u8,
    b1: u8,
    b2: u8,
)
    requires
        packed(rest) == Some(more),
        b0 == (a * 4 + b / 16) as u8,
        b1 == (b % 16 * 16 + c / 4) as u8,
        b2 == (c % 4 * 64 + d) as u8,
    ensures
        packed(seq![a, b, c, d] + rest) == Some(seq![b0, b1, b2] + more),
        packed(seq![a, b, c]) == Some(seq![b0, b1]),
        packed(seq![a, b]) == Some(seq![b0]),
{
    let v = seq![a, b, c, d] + rest;
    assert(v.skip(4) =~= rest);
    assert(v[0] == a && v[1] == b && v[2] == c && v[3] == d);
}

/// Padding does not count, wherever it stands.
pub proof fn law_padding_does_not_count(a: Seq<char>, b: Seq<char>)
    ensures
        base64_bytes(a + seq!['='] + b) == base64_bytes(a + b),
{
    lemma_sextets_without_padding(a, b);
}

proof fn lemma_sextets_without_padding(a: Seq<char>, b: Seq<char>)
    ensures
        sextets(a + seq!['='] + b) == sextets(a + b),
    decreases b.len(),
{
    let s = a + seq!['='] + b;
    let t = a + b;
    if b.len() == 0 {
        assert(t =~= a);
        assert(s.drop_last() =~= a);
        assert(s.last() == '=');
    } else {
        assert(s.drop_last() =~= a + seq!['='] + b.drop_last());
        assert(t.drop_last() =~= a + b.drop_last());
        assert(s.last() == b.last() && t.last() == b.last());
        lemma_sextets_without_padding(a, b.drop_last());
    }
}

} // verus!
