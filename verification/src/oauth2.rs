//! OAuth2: requests to the token service, and what its answers mean.

use vstd::prelude::*;
use vstd::utf8::encode_utf8;

use crate::config::OAuth2Config;
use crate::imap_client::query::lemma_decimal_reads_back;
use crate::imap_client::util::hex_digit;
use crate::imap_client::util::hex_digit_of;
use crate::imap_client::util::strip_controls;
use crate::imap_client::util::without_controls;
use crate::text::begins_with;
use crate::text::byte_len;
use crate::text::byte_len_of;
use crate::text::chars_of;
use crate::text::contains_text;
use crate::text::control_char;
use crate::text::copy_of;
use crate::text::decimal;
use crate::text::decimal_string;
use crate::text::find_first;
use crate::text::find_first_at;
use crate::text::is_control;
use crate::text::lemma_next_char;
use crate::text::lemma_split_behind;
use crate::text::next_char;
use crate::text::next_char_at;
use crate::text::occurs_at;
use crate::text::opt_str;
use crate::text::opt_text;
use crate::text::parse_number;
use crate::text::parsed_number;
use crate::text::runs_of;
use crate::text::same_text;
use crate::text::split;
use crate::text::string_of_range;
use crate::text::text_begins_with;
use crate::text::text_contains;
use crate::text::words;
use crate::text::CharClass;

verus! {

// ---------------------------------------------------------------------------
// Form encoding
// ---------------------------------------------------------------------------

/// A byte that stands for itself in a form: a letter, a digit, or one of four
/// signs.
pub open spec fn unreserved(b: u8) -> bool {
    65 <= b <= 90 || 97 <= b <= 122 || 48 <= b <= 57 || b == 45 || b == 95 || b == 46 || b == 126
}

/// A byte in a form.
pub open spec fn form_byte(b: u8) -> Seq<char> {
    if unreserved(b) {
        seq![b as char]
    } else {
        seq!['%', hex_digit((b / 16) as int), hex_digit((b % 16) as int)]
    }
}

/// Bytes in a form.
pub open spec fn form_bytes(bytes: Seq<u8>) -> Seq<char> {
    bytes.flat_map(|b: u8| form_byte(b))
}

/// A text in a form.
pub open spec fn form_text(s: Seq<char>) -> Seq<char> {
    form_bytes(encode_utf8(s))
}

/// Encodes a text for a form.
pub fn urlencoded(s: &str) -> (out: String)
    ensures
        out@ == form_text(s@),
{
    let bytes = s.as_bytes();
    let ghost all = encode_utf8(s@);
    let ghost f = |b: u8| form_byte(b);
    let mut out = String::new();
    let mut i: usize = 0;
    proof {
        assert(all.take(0).flat_map(f) =~= Seq::<char>::empty());
    }
    while i < bytes.len()
        invariant
            i <= bytes@.len(),
            bytes@ == all,
            f == |b: u8| form_byte(b),
            out@ == all.take(i as int).flat_map(f),
        decreases bytes@.len() - i,
    {
        let b: u8 = bytes[i];
        let ghost before = out@;
        proof {
            all.lemma_flat_map_take_append(f, i as int);
        }
        if (65 <= b && b <= 90) || (97 <= b && b <= 122) || (48 <= b && b <= 57) || b == 45 || b
            == 95 || b == 46 || b == 126 {
            out.push(b as char);
        } else {
            out.push('%');
            out.push(hex_digit_of((b / 16) as u32));
            out.push(hex_digit_of((b % 16) as u32));
        }
        proof {
            assert(out@ =~= before + form_byte(b));
        }
        i += 1;
    }
    proof {
        assert(all.take(all.len() as int) =~= all);
    }
    out
}

/// The field for the client's secret, where it has one. A public client must
/// not send one.
pub open spec fn secret_field(secret: Option<Seq<char>>) -> Seq<char> {
    match secret {
        Some(s) => "&client_secret="@ + form_text(s),
        None => Seq::empty(),
    }
}

/// Computes [`secret_field`].
pub fn client_secret_param(secret: Option<&str>) -> (out: String)
    ensures
        out@ == secret_field(opt_str(secret)),
{
    match secret {
        Some(s) => {
            let mut out = copy_of("&client_secret=");
            let e = urlencoded(s);
            out.append(e.as_str());
            out
        },
        None => String::new(),
    }
}

/// The form that asks for a new access token.
pub open spec fn refresh_form(
    client_id: Seq<char>,
    refresh_token: Seq<char>,
    secret: Option<Seq<char>>,
) -> Seq<char> {
    "grant_type=refresh_token&client_id="@ + form_text(client_id) + "&refresh_token="@ + form_text(
        refresh_token,
    ) + secret_field(secret)
}

/// Writes the form that asks for a new access token; an error where no client is
/// configured.
pub fn refresh_request(config: &OAuth2Config, refresh_token: &str) -> (r: Result<String, String>)
    ensures
        match opt_text(config.client_id) {
            Some(id) => r is Ok && r->Ok_0@ == refresh_form(
                id,
                refresh_token@,
                opt_text(config.client_secret),
            ),
            None => r is Err && r->Err_0@ == "OAuth2 client_id not configured"@,
        },
{
    let client_id = match &config.client_id {
        Some(id) => id,
        None => {
            return Err(copy_of("OAuth2 client_id not configured"));
        },
    };
    let secret: Option<&str> = match &config.client_secret {
        Some(s) => Some(s.as_str()),
        None => None,
    };
    let mut out = copy_of("grant_type=refresh_token&client_id=");
    let e = urlencoded(client_id.as_str());
    out.append(e.as_str());
    out.append("&refresh_token=");
    let e = urlencoded(refresh_token);
    out.append(e.as_str());
    let e = client_secret_param(secret);
    out.append(e.as_str());
    Ok(out)
}

// ---------------------------------------------------------------------------
// Addresses
// ---------------------------------------------------------------------------

/// The parts of an HTTPS address.
#[derive(Debug)]
pub struct UrlParts {
    pub host: String,
    pub port: u16,
    pub path: String,
}

/// Why an address cannot be used.
#[derive(Debug, Clone, Copy, PartialEq, Eq, Structural)]
pub enum UrlError {
    /// It is not HTTPS.
    NotHttps,
    /// Its port is no number.
    BadPort,
    /// Its host holds white space or control characters.
    BadHost,
    /// Its path holds white space or control characters.
    BadPath,
}

/// A character that could end a line or a word of a request.
pub open spec fn breaks_request(c: char) -> bool {
    is_control(c) || c == ' ' || c == '\t'
}

/// Nothing in a text could end a line or a word of a request.
pub open spec fn one_word(s: Seq<char>) -> bool {
    forall|i: int| 0 <= i < s.len() ==> !breaks_request(#[trigger] s[i])
}

/// What stands behind the scheme of an address.
pub open spec fn after_scheme(url: Seq<char>) -> Seq<char> {
    url.skip("https://"@.len() as int)
}

/// The host and port of an address: what stands before the first slash.
pub open spec fn authority(rest: Seq<char>) -> Seq<char> {
    rest.take(next_char(rest, '/', 0))
}

/// The path of an address: from the first slash on, or a slash.
pub open spec fn url_path(rest: Seq<char>) -> Seq<char> {
    let slash = next_char(rest, '/', 0);
    if slash < rest.len() {
        rest.skip(slash)
    } else {
        "/"@
    }
}

/// The host: what stands before the first colon.
pub open spec fn url_host(auth: Seq<char>) -> Seq<char> {
    auth.take(next_char(auth, ':', 0))
}

/// The port: what stands behind the first colon, or that of HTTPS.
pub open spec fn url_port(auth: Seq<char>) -> Option<nat> {
    let colon = next_char(auth, ':', 0);
    if colon < auth.len() {
        parsed_number(auth.skip(colon + 1), 10, 65535)
    } else {
        Some(443nat)
    }
}

/// The parts of an address, or why it cannot be used.
pub open spec fn split_url(url: Seq<char>) -> Result<(Seq<char>, nat, Seq<char>), UrlError> {
    let rest = after_scheme(url);
    let auth = authority(rest);
    if !begins_with(url, "https://"@) {
        Err(UrlError::NotHttps)
    } else {
        match url_port(auth) {
            None => Err(UrlError::BadPort),
            Some(port) => if !one_word(url_host(auth)) {
                Err(UrlError::BadHost)
            } else if !one_word(url_path(rest)) {
                Err(UrlError::BadPath)
            } else {
                Ok((url_host(auth), port, url_path(rest)))
            },
        }
    }
}

fn is_one_word(cs: &[char], from: usize, to: usize) -> (yes: bool)
    requires
        from <= to <= cs@.len(),
    ensures
        yes == one_word(cs@.subrange(from as int, to as int)),
{
    let ghost part = cs@.subrange(from as int, to as int);
    let mut i: usize = from;
    while i < to
        invariant
            from <= i <= to <= cs@.len(),
            part == cs@.subrange(from as int, to as int),
            forall|j: int| 0 <= j < i - from ==> !breaks_request(#[trigger] part[j]),
        decreases to - i,
    {
        assert(part[i - from] == cs@[i as int]);
        if control_char(cs[i]) || cs[i] == ' ' || cs[i] == '\t' {
            return false;
        }
        i += 1;
    }
    true
}

impl UrlParts {
    /// Splits an HTTPS address. Host and path are written into a request, so
    /// that neither may hold what could end its line.
    pub fn parse(url: &str) -> (r: Result<UrlParts, UrlError>)
        ensures
            match split_url(url@) {
                Ok((host, port, path)) => r is Ok && r->Ok_0.host@ == host && r->Ok_0.port == port
                    && r->Ok_0.path@ == path,
                Err(e) => r == Err::<UrlParts, UrlError>(e),
            },
    {
        if !text_begins_with(url, "https://") {
            return Err(UrlError::NotHttps);
        }
        let cs = chars_of(url);
        let n: usize = cs.len();
        let scheme = chars_of("https://");
        let a: usize = scheme.len();
        proof {
            assert(url@.subrange(0, a as int).len() == a);
        }
        let ghost rest = after_scheme(url@);
        let rs = string_of_range(&cs, a, n);
        let rc = chars_of(rs.as_str());
        let m: usize = rc.len();
        proof {
            assert(rc@ =~= rest);
        }
        let slash = next_char_at(&rc, '/', 0);
        let auth_text = string_of_range(&rc, 0, slash);
        let ac = chars_of(auth_text.as_str());
        let k: usize = ac.len();
        proof {
            assert(ac@ =~= authority(rest));
        }
        let colon = next_char_at(&ac, ':', 0);
        let port: u64 = if colon < k {
            proof {
                assert(ac@.subrange(colon + 1, k as int) =~= ac@.skip(colon + 1));
            }
            match parse_number(&ac, colon + 1, k, 10, 65535) {
                Some(p) => p,
                None => {
                    return Err(UrlError::BadPort);
                },
            }
        } else {
            443
        };
        let host = string_of_range(&ac, 0, colon);
        proof {
            assert(host@ =~= url_host(ac@));
            assert(ac@.subrange(0, colon as int) =~= url_host(ac@));
        }
        if !is_one_word(&ac, 0, colon) {
            return Err(UrlError::BadHost);
        }
        let path = if slash < m {
            string_of_range(&rc, slash, m)
        } else {
            copy_of("/")
        };
        let pc = chars_of(path.as_str());
        proof {
            if slash < m {
                assert(path@ =~= rest.skip(slash as int));
            }
            assert(path@ == url_path(rest));
            assert(pc@.subrange(0, pc@.len() as int) =~= pc@);
        }
        if !is_one_word(&pc, 0, pc.len()) {
            return Err(UrlError::BadPath);
        }
        Ok(UrlParts { host, port: port as u16, path })
    }
}

/// The request that posts a form.
pub open spec fn post_text(host: Seq<char>, path: Seq<char>, form: Seq<char>) -> Seq<char> {
    "POST "@ + path + " HTTP/1.1\r\nHost: "@ + host
        + "\r\nContent-Type: application/x-www-form-urlencoded\r\nContent-Length: "@ + decimal(
        byte_len(form),
    ) + "\r\nConnection: close\r\n\r\n"@ + form
}

/// Writes the request that posts a form.
pub fn post_request(parts: &UrlParts, form: &str) -> (out: String)
    ensures
        out@ == post_text(parts.host@, parts.path@, form@),
{
    let mut out = copy_of("POST ");
    out.append(parts.path.as_str());
    out.append(" HTTP/1.1\r\nHost: ");
    out.append(parts.host.as_str());
    out.append("\r\nContent-Type: application/x-www-form-urlencoded\r\nContent-Length: ");
    let n = decimal_string(byte_len_of(form) as u64);
    out.append(n.as_str());
    out.append("\r\nConnection: close\r\n\r\n");
    out.append(form);
    out
}

/// An accepted address adds no line to the request: its host and its path are
/// single words.
pub proof fn accepted_urls_inject_nothing(url: Seq<char>)
    ensures
        split_url(url) matches Ok((host, port, path)) ==> one_word(host) && one_word(path) && port
            <= 65535,
{
    if let Ok((host, port, path)) = split_url(url) {
        assert(one_word(host));
        assert(one_word(path));
    }
}

/// An address of a token service is taken apart where it was put together: its
/// host, its port and its path are those that it was written with, the port is that
/// of HTTPS where none is written, and the path is a slash where there is none.
pub proof fn addresses_are_split_into_their_parts(
    host: Seq<char>,
    port: Seq<char>,
    path: Seq<char>,
)
    requires
        one_word(host),
        !host.contains('/'),
        !host.contains(':'),
        !port.contains('/'),
        parsed_number(port, 10, 65535) is Some,
        one_word(path),
        path.len() > 0,
        path[0] == '/',
    ensures
        split_url("https://"@ + host + ":"@ + port + path) == Ok::<
            (Seq<char>, nat, Seq<char>),
            UrlError,
        >((host, parsed_number(port, 10, 65535)->0, path)),
        split_url("https://"@ + host + path) == Ok::<(Seq<char>, nat, Seq<char>), UrlError>(
            (host, 443, path),
        ),
        split_url("https://"@ + host) == Ok::<(Seq<char>, nat, Seq<char>), UrlError>(
            (host, 443, seq!['/']),
        ),
{
    reveal_strlit(":");
    reveal_strlit("/");
    assert("/"@ =~= seq!['/']);
    let scheme = "https://"@;
    let with_port = host + ":"@ + port;
    lemma_behind_scheme(with_port + path);
    assert(scheme + host + ":"@ + port + path =~= scheme + (with_port + path));
    lemma_first_slash(with_port, path);
    assert((with_port + path).take(with_port.len() as int) =~= with_port);
    assert((with_port + path).skip(with_port.len() as int) =~= path);
    lemma_next_char(with_port, ':', 0);
    assert(next_char(with_port, ':', 0) == host.len()) by {
        let x = next_char(with_port, ':', 0);
        assert(with_port[host.len() as int] == ':');
        if x < host.len() {
            assert(with_port[x] == host[x]);
        }
    }
    assert(with_port.take(host.len() as int) =~= host);
    assert(with_port.skip(host.len() as int + 1) =~= port);
    lemma_behind_scheme(host + path);
    assert(scheme + host + path =~= scheme + (host + path));
    lemma_first_slash(host, path);
    assert((host + path).take(host.len() as int) =~= host);
    assert((host + path).skip(host.len() as int) =~= path);
    lemma_next_char(host, ':', 0);
    assert(next_char(host, ':', 0) == host.len());
    assert(host.take(host.len() as int) =~= host);
    lemma_behind_scheme(host);
    lemma_next_char(host, '/', 0);
    assert(next_char(host, '/', 0) == host.len());
}

proof fn lemma_behind_scheme(rest: Seq<char>)
    ensures
        begins_with("https://"@ + rest, "https://"@),
        after_scheme("https://"@ + rest) == rest,
{
    let url = "https://"@ + rest;
    let n = "https://"@.len() as int;
    assert(url.subrange(0, n) =~= "https://"@);
    assert(url.skip(n) =~= rest);
}

proof fn lemma_first_slash(a: Seq<char>, path: Seq<char>)
    requires
        !a.contains('/'),
        path.len() > 0,
        path[0] == '/',
    ensures
        next_char(a + path, '/', 0) == a.len(),
{
    let s = a + path;
    lemma_next_char(s, '/', 0);
    let x = next_char(s, '/', 0);
    assert(s[a.len() as int] == '/');
    if x < a.len() {
        assert(s[x] == a[x]);
    }
}

/// The most bytes of an answer that are read.
pub const MAX_RESPONSE_BYTES: usize = 1_048_576;

/// The status of an answer: the second word of its first line, or zero where
/// that is no number.
pub open spec fn response_status(response: Seq<char>) -> nat {
    let line = response.take(next_char(response, '\n', 0));
    let w = words(line);
    if w.len() < 2 {
        0
    } else {
        match parsed_number(w[1], 10, 65535) {
            Some(n) => n,
            None => 0,
        }
    }
}

/// The body of an answer: what stands behind the first empty line.
pub open spec fn response_body(response: Seq<char>) -> Option<Seq<char>> {
    match find_first(response, "\r\n\r\n"@, 0) {
        Some(i) => Some(response.skip(i + 4)),
        None => None,
    }
}

/// Splits an answer into its status and its body.
pub fn split_response(response: &str) -> (r: Result<(u16, String), String>)
    ensures
        match response_body(response@) {
            Some(body) => r is Ok && r->Ok_0.0 == response_status(response@) && r->Ok_0.1@ == body,
            None => r is Err && r->Err_0@ == "Invalid HTTP response: no header/body separator"@,
        },
{
    let cs = chars_of(response);
    let n: usize = cs.len();
    let end = chars_of("\r\n\r\n");
    proof {
        reveal_strlit("\r\n\r\n");
    }
    let at: usize = match find_first_at(&cs, &end, 0) {
        Some(i) => i,
        None => {
            return Err(copy_of("Invalid HTTP response: no header/body separator"));
        },
    };
    let body = string_of_range(&cs, at + 4, n);
    proof {
        assert(body@ =~= response@.skip(at + 4));
    }
    let eol = next_char_at(&cs, '\n', 0);
    let line_text = string_of_range(&cs, 0, eol);
    let line = chars_of(line_text.as_str());
    proof {
        assert(line@ =~= response@.take(eol as int));
    }
    let rs = runs_of(&line, CharClass::NonSpace);
    let ghost w = words(line@);
    proof {
        assert(w.len() == rs@.len());
    }
    let status: u64 = if rs.len() < 2 {
        0
    } else {
        let (a, z) = rs[1];
        proof {
            assert(w[1] == line@.subrange(a as int, z as int));
        }
        match parse_number(&line, a, z, 10, 65535) {
            Some(v) => v,
            None => 0,
        }
    };
    Ok((status as u16, body))
}

/// An answer is split at its first blank line: the body is what stands behind it,
/// whatever the body holds.
pub proof fn answers_are_split_at_the_blank_line(head: Seq<char>, body: Seq<char>)
    requires
        forall|i: int| 0 <= i < head.len() ==> !occurs_at(head + "\r\n\r\n"@, "\r\n\r\n"@, i),
    ensures
        response_body(head + "\r\n\r\n"@ + body) == Some(body),
{
    reveal_strlit("\r\n\r\n");
    let end = "\r\n\r\n"@;
    assert(end.len() == 4);
    let s = head + end + body;
    let n = head.len() as int;
    assert(s.subrange(n, n + 4) =~= end);
    assert(occurs_at(s, end, n));
    assert forall|i: int| 0 <= i < n implies !occurs_at(s, end, i) by {
        if occurs_at(s, end, i) {
            assert((head + end).subrange(i, i + 4) =~= s.subrange(i, i + 4));
            assert(occurs_at(head + end, end, i));
        }
    }
    lemma_found_first(s, end, 0, n);
    assert(s.skip(n + 4) =~= body);
}

proof fn lemma_found_first(hay: Seq<char>, needle: Seq<char>, from: int, at: int)
    requires
        0 <= from <= at <= hay.len(),
        occurs_at(hay, needle, at),
        forall|i: int| from <= i < at ==> !occurs_at(hay, needle, i),
    ensures
        find_first(hay, needle, from) == Some(at),
    decreases at - from,
{
    if from < at {
        lemma_found_first(hay, needle, from + 1, at);
    }
}

// ---------------------------------------------------------------------------
// Answers
// ---------------------------------------------------------------------------

/// The members of a refusal that are read; others are passed over.
#[derive(Debug)]
pub struct ErrorBody {
    pub error: Option<String>,
    pub error_description: Option<String>,
}

/// The members of an answer with an access token that are read; others are
/// passed over.
pub struct TokenResponse {
    pub access_token: String,
    /// How long the token lasts, in seconds.
    pub expires_in: Option<u64>,
    /// A new refresh token.
    pub refresh_token: Option<String>,
}

/// A refusal by the token service.
#[derive(Debug)]
pub struct OAuth2Error {
    pub http_status: u16,
    pub code: Option<String>,
    pub description: Option<String>,
}

/// At most the first `n` characters of a text.
pub open spec fn first_chars(s: Seq<char>, n: nat) -> Seq<char> {
    if s.len() > n {
        s.take(n as int)
    } else {
        s
    }
}

/// What is shown of a description: what stands before the provider's trace id,
/// without control characters, cut to a length.
pub open spec fn shown_description(d: Seq<char>) -> Seq<char> {
    let cut = match find_first(d, " Trace ID"@, 0) {
        Some(i) => d.take(i),
        None => d,
    };
    first_chars(without_controls(cut), 300)
}

fn show_description(d: &str) -> (out: String)
    ensures
        out@ == shown_description(d@),
{
    let cs = chars_of(d);
    let mark = chars_of(" Trace ID");
    let n: usize = match find_first_at(&cs, &mark, 0) {
        Some(i) => i,
        None => cs.len(),
    };
    let ghost cut = match find_first(d@, " Trace ID"@, 0) {
        Some(i) => d@.take(i),
        None => d@,
    };
    let text = string_of_range(&cs, 0, n);
    proof {
        assert(cut =~= cs@.take(n as int));
        assert(text@ =~= cut);
    }
    let clean = strip_controls(text.as_str());
    let kept = chars_of(clean.as_str());
    if kept.len() > 300 {
        let out = string_of_range(&kept, 0, 300);
        proof {
            assert(out@ =~= kept@.take(300));
        }
        out
    } else {
        clean
    }
}

/// The code and the description in a refusal: none where the answer is not of
/// the expected form.
pub open spec fn refusal_fields(body: Option<ErrorBody>) -> (Option<Seq<char>>, Option<Seq<char>>) {
    match body {
        Some(b) => (
            opt_text(b.error),
            match opt_text(b.error_description) {
                Some(t) => Some(shown_description(t)),
                None => None,
            },
        ),
        None => (None, None),
    }
}

/// Reads a refusal by the token service, given the members of its answer where
/// that is of the expected form. Only the two members of the standard are taken
/// from it.
pub fn parse_error_body(http_status: u16, body: Option<ErrorBody>) -> (e: OAuth2Error)
    ensures
        e.http_status == http_status,
        opt_text(e.code) == refusal_fields(body).0,
        opt_text(e.description) == refusal_fields(body).1,
{
    match body {
        Some(b) => {
            let description = match b.error_description {
                Some(t) => Some(show_description(t.as_str())),
                None => None,
            };
            OAuth2Error { http_status, code: b.error, description }
        },
        None => OAuth2Error { http_status, code: None, description: None },
    }
}

proof fn lemma_without_controls(s: Seq<char>)
    ensures
        forall|i: int|
            0 <= i < without_controls(s).len() ==> !is_control(#[trigger] without_controls(s)[i]),
    decreases s.len(),
{
    reveal_with_fuel(Seq::filter, 1);
    if s.len() > 0 {
        lemma_without_controls(s.drop_last());
    }
}

/// What is shown of a description has no control character and at most 300
/// characters.
pub proof fn descriptions_are_safe(d: Seq<char>)
    ensures
        shown_description(d).len() <= 300,
        forall|i: int|
            0 <= i < shown_description(d).len() ==> !is_control(#[trigger] shown_description(d)[i]),
{
    let cut = match find_first(d, " Trace ID"@, 0) {
        Some(i) => d.take(i),
        None => d,
    };
    lemma_without_controls(cut);
    let kept = without_controls(cut);
    assert forall|i: int| 0 <= i < shown_description(d).len() implies !is_control(
        #[trigger] shown_description(d)[i],
    ) by {
        assert(shown_description(d)[i] == kept[i]);
    }
}

impl OAuth2Error {
    pub open spec fn dead_grant(self) -> bool {
        opt_text(self.code) == Some("invalid_grant"@)
    }

    /// The refresh token itself is dead; trying it again is pointless.
    pub fn is_invalid_grant(&self) -> (yes: bool)
        ensures
            yes == self.dead_grant(),
    {
        match &self.code {
            Some(c) => same_text(c.as_str(), "invalid_grant"),
            None => false,
        }
    }

    pub open spec fn bad_client(self) -> bool {
        opt_text(self.code) == Some("invalid_client"@)
    }

    /// The client's credentials were refused, not the token.
    pub fn is_invalid_client(&self) -> (yes: bool)
        ensures
            yes == self.bad_client(),
    {
        match &self.code {
            Some(c) => same_text(c.as_str(), "invalid_client"),
            None => false,
        }
    }

    /// What to do about credentials of the wrong shape for how the client is
    /// registered.
    pub open spec fn mismatch_text(self) -> Option<Seq<char>> {
        match opt_text(self.description) {
            Some(d) => if contains_text(d, "AADSTS700025"@) {
                Some(
                    "the app is registered as a public client (its redirect URI sits under `publicClient` in the Entra manifest), which must authenticate without one — remove `client_secret` from the account's `[accounts.oauth2]` section. The authorization code is protected by PKCE instead"@,
                )
            } else if contains_text(d, "AADSTS7000218"@) {
                Some(
                    "the app is registered as a confidential client and requires a secret — set `client_secret` in the account's `[accounts.oauth2]` section, or move the redirect URI to `publicClient` in the Entra manifest to run without one"@,
                )
            } else {
                None
            },
            None => None,
        }
    }

    fn client_type_mismatch(&self) -> (out: Option<&'static str>)
        ensures
            opt_str(out) == self.mismatch_text(),
    {
        match &self.description {
            Some(d) => if text_contains(d.as_str(), "AADSTS700025") {
                Some(
                    "the app is registered as a public client (its redirect URI sits under `publicClient` in the Entra manifest), which must authenticate without one — remove `client_secret` from the account's `[accounts.oauth2]` section. The authorization code is protected by PKCE instead",
                )
            } else if text_contains(d.as_str(), "AADSTS7000218") {
                Some(
                    "the app is registered as a confidential client and requires a secret — set `client_secret` in the account's `[accounts.oauth2]` section, or move the redirect URI to `publicClient` in the Entra manifest to run without one",
                )
            } else {
                None
            },
            None => None,
        }
    }

    pub open spec fn remedy_text(self, account: Seq<char>) -> Option<Seq<char>> {
        if self.dead_grant() {
            Some("run `imap-mcp-rs reauth "@ + account + "` to re-authorize"@)
        } else if self.bad_client() {
            Some(
                match self.mismatch_text() {
                    Some(t) => t,
                    None =>
                        "the app credentials were rejected — client secrets expire (Entra: max 24 months); create a new one in the app registration and update `client_secret` in the config. `reauth` cannot fix this, it needs the same credentials"@,
                },
            )
        } else {
            None
        }
    }

    /// What the operator has to do, where it is known.
    pub fn remedy(&self, account: &str) -> (out: Option<String>)
        ensures
            opt_text(out) == self.remedy_text(account@),
    {
        if self.is_invalid_grant() {
            let mut text = copy_of("run `imap-mcp-rs reauth ");
            text.append(account);
            text.append("` to re-authorize");
            Some(text)
        } else if self.is_invalid_client() {
            match self.client_type_mismatch() {
                Some(t) => Some(copy_of(t)),
                None => Some(
                    copy_of(
                        "the app credentials were rejected — client secrets expire (Entra: max 24 months); create a new one in the app registration and update `client_secret` in the config. `reauth` cannot fix this, it needs the same credentials",
                    ),
                ),
            }
        } else {
            None
        }
    }

    pub open spec fn shown(self) -> Seq<char> {
        "OAuth2 token endpoint returned HTTP "@ + decimal(self.http_status as nat) + (match opt_text(
            self.code,
        ) {
            Some(c) => " ("@ + c + ")"@,
            None => Seq::empty(),
        }) + (match opt_text(self.description) {
            Some(d) => ": "@ + d,
            None => Seq::empty(),
        })
    }

    /// The refusal in words.
    pub fn text(&self) -> (out: String)
        ensures
            out@ == self.shown(),
    {
        let mut out = copy_of("OAuth2 token endpoint returned HTTP ");
        let n = decimal_string(self.http_status as u64);
        out.append(n.as_str());
        let ghost head = out@;
        if let Some(c) = &self.code {
            out.append(" (");
            out.append(c.as_str());
            out.append(")");
        }
        let ghost middle = out@;
        proof {
            assert(middle =~= head + (match opt_text(self.code) {
                Some(c) => " ("@ + c + ")"@,
                None => Seq::empty(),
            }));
        }
        if let Some(d) = &self.description {
            out.append(": ");
            out.append(d.as_str());
        }
        proof {
            assert(out@ =~= middle + (match opt_text(self.description) {
                Some(d) => ": "@ + d,
                None => Seq::empty(),
            }));
        }
        out
    }
}

/// The code and the description of a refusal are the service's own, each under its
/// name; and exactly the answers from 200 to 299 are successes.
pub proof fn refusals_keep_their_fields(body: ErrorBody, status: u16)
    ensures
        refusal_fields(Some(body)).0 == opt_text(body.error),
        refusal_fields(Some(body)).1 is Some <==> body.error_description is Some,
        body.error_description matches Some(d) ==> refusal_fields(Some(body)).1 == Some(
            shown_description(d@),
        ),
        refusal_fields(None) == (None::<Seq<char>>, None::<Seq<char>>),
        is_success(status) <==> status / 100 == 2,
{
}

/// What to do about a refusal fits the refusal: a dead grant is authorized again,
/// under the account's own name; refused credentials are mended in the settings, by
/// removing the secret of a public client and by adding that of a confidential one;
/// of other refusals nothing is known.
pub proof fn remedies_fit_the_refusal(e: OAuth2Error, account: Seq<char>)
    ensures
        e.remedy_text(account) is Some <==> (e.code matches Some(c) && (c@ == "invalid_grant"@
            || c@ == "invalid_client"@)),
        (e.code matches Some(c) && c@ == "invalid_grant"@) ==> e.remedy_text(account) == Some(
            "run `imap-mcp-rs reauth "@ + account + "` to re-authorize"@,
        ),
        e.mismatch_text() matches Some(t) ==> (e.description matches Some(d) && (contains_text(
            d@,
            "AADSTS700025"@,
        ) || contains_text(d@, "AADSTS7000218"@))),
{
    reveal_strlit("invalid_grant");
    reveal_strlit("invalid_client");
    assert("invalid_grant"@.len() == 13);
    assert("invalid_client"@.len() == 14);
}

/// A refusal in words tells its status, and its code and its description where it
/// has them.
pub proof fn refusals_tell_what_the_service_said(e: OAuth2Error)
    ensures
        contains_text(e.shown(), decimal(e.http_status as nat)),
        e.code matches Some(c) ==> contains_text(e.shown(), seq!['('] + c@ + seq![')']),
        e.description matches Some(d) ==> {
            let n = e.shown().len() - d@.len();
            0 <= n && e.shown().skip(n) == d@
        },
{
    reveal_strlit(" (");
    reveal_strlit(")");
    reveal_strlit(": ");
    let lead = "OAuth2 token endpoint returned HTTP "@;
    let number = decimal(e.http_status as nat);
    let code = match e.code {
        Some(c) => " ("@ + c@ + ")"@,
        None => Seq::empty(),
    };
    let said = match e.description {
        Some(d) => ": "@ + d@,
        None => Seq::empty(),
    };
    let s = e.shown();
    assert(s == lead + number + code + said);
    let a = lead.len() as int;
    assert(s.subrange(a, a + number.len()) =~= number);
    assert(occurs_at(s, number, a));
    if let Some(c) = e.code {
        let w = seq!['('] + c@ + seq![')'];
        let b = a + number.len() + 1;
        assert(s.subrange(b, b + w.len()) =~= w);
        assert(occurs_at(s, w, b));
    }
    if let Some(d) = e.description {
        assert(s.skip(s.len() - d@.len()) =~= d@);
    }
}

// ---------------------------------------------------------------------------
// Tokens
// ---------------------------------------------------------------------------

/// One minute in nanoseconds: a token that expires within it may do so on the
/// way.
pub const SLACK_NANOS: u128 = 60_000_000_000;

/// How long a token lasts, in seconds, where the service does not say.
pub const DEFAULT_TTL_SECS: u64 = 1800;

/// An access token with the moment at which it expires, in nanoseconds of the
/// clock that the callers measure time by.
#[derive(Debug)]
pub struct AccessToken {
    pub token: String,
    pub expires_at: u128,
}

impl AccessToken {
    pub open spec fn usable(self, now: u128) -> bool {
        self.expires_at > now + SLACK_NANOS
    }

    /// Whether the token lasts for more than a minute from now.
    pub fn is_valid(&self, now: u128) -> (yes: bool)
        ensures
            yes == self.usable(now),
    {
        self.expires_at > now && self.expires_at - now > SLACK_NANOS
    }

    /// The whole seconds until the token expires.
    pub fn seconds_left(&self, now: u128) -> (s: u128)
        ensures
            s == if self.expires_at > now {
                (self.expires_at - now) / 1_000_000_000
            } else {
                0
            },
    {
        if self.expires_at > now {
            (self.expires_at - now) / 1_000_000_000
        } else {
            0
        }
    }
}

/// What a successful refresh gives: an access token, and a new refresh token
/// where the provider issued one.
#[derive(Debug)]
pub struct RefreshOutcome {
    pub access: AccessToken,
    pub rotated_refresh_token: Option<String>,
}

/// How long the token of an answer lasts, in seconds.
pub open spec fn life_of(t: TokenResponse) -> u64 {
    match t.expires_in {
        Some(n) => n,
        None => DEFAULT_TTL_SECS,
    }
}

/// The rotated token in an answer: an empty one is none, and the one that was
/// sent is no new one.
pub open spec fn rotated(new: Option<Seq<char>>, sent: Seq<char>) -> Option<Seq<char>> {
    match new {
        Some(t) => if t.len() > 0 && t != sent {
            Some(t)
        } else {
            None
        },
        None => None,
    }
}

/// A refresh token counts as new exactly where the service sent one that is neither
/// empty nor the one that was used; and a token lasts as long as the service says,
/// or for half an hour where it says nothing.
pub proof fn new_tokens_are_told(t: TokenResponse, sent: Seq<char>, new: Seq<char>)
    ensures
        rotated(opt_text(t.refresh_token), sent) == Some(new) <==> (
        t.refresh_token matches Some(own) && own@ == new && new.len() > 0 && new != sent),
        t.expires_in matches Some(n) ==> life_of(t) == n,
        t.expires_in is None ==> life_of(t) == 1800,
{
}

/// Makes an outcome of an answer with a token.
pub fn outcome_of(answer: TokenResponse, sent: &str, now: u64) -> (o: RefreshOutcome)
    ensures
        o.access.token@ == answer.access_token@,
        o.access.expires_at == now + life_of(answer) * 1_000_000_000,
        opt_text(o.rotated_refresh_token) == rotated(opt_text(answer.refresh_token), sent@),
{
    let ttl: u64 = match answer.expires_in {
        Some(n) => n,
        None => DEFAULT_TTL_SECS,
    };
    let rotated_refresh_token = match answer.refresh_token {
        Some(t) => if !t.as_str().is_empty() && !same_text(t.as_str(), sent) {
            Some(t)
        } else {
            None
        },
        None => None,
    };
    proof {
        assert(ttl * 1_000_000_000 <= 0xffff_ffff_ffff_ffff * 1_000_000_000);
    }
    let expires_at: u128 = now as u128 + ttl as u128 * 1_000_000_000;
    RefreshOutcome {
        access: AccessToken { token: answer.access_token, expires_at },
        rotated_refresh_token,
    }
}

/// Why a refresh failed.
#[derive(Debug)]
pub enum RefreshError {
    /// The token service refused.
    Refused(OAuth2Error),
    /// The answer was of no use.
    Other(String),
}

/// An answer is a success.
pub open spec fn is_success(status: u16) -> bool {
    200 <= status < 300
}

/// Makes an outcome of the answer to a refresh, given its members as a refusal
/// and as an answer with a token, each where it is of that form.
pub fn refresh_outcome(
    status: u16,
    refusal: Option<ErrorBody>,
    answer: Option<TokenResponse>,
    sent: &str,
    now: u64,
) -> (r: Result<RefreshOutcome, RefreshError>)
    ensures
        !is_success(status) ==> (r matches Err(RefreshError::Refused(e)) && e.http_status == status
            && opt_text(e.code) == refusal_fields(refusal).0 && opt_text(e.description)
            == refusal_fields(refusal).1),
        is_success(status) ==> match answer {
            Some(t) => r is Ok && r->Ok_0.access.token@ == t.access_token@
                && r->Ok_0.access.expires_at == now + life_of(t) * 1_000_000_000 && opt_text(
                r->Ok_0.rotated_refresh_token,
            ) == rotated(opt_text(t.refresh_token), sent@),
            None => r matches Err(RefreshError::Other(text)) && text@
                == "Failed to parse OAuth2 token response (body omitted from log)"@,
        },
{
    if status < 200 || status >= 300 {
        return Err(RefreshError::Refused(parse_error_body(status, refusal)));
    }
    match answer {
        Some(t) => Ok(outcome_of(t, sent, now)),
        None => Err(
            RefreshError::Other(
                copy_of("Failed to parse OAuth2 token response (body omitted from log)"),
            ),
        ),
    }
}

/// A fresh token is usable from the start, unless its life is a minute or less.
pub proof fn fresh_tokens_are_usable(t: AccessToken, now: u64, ttl: u64)
    requires
        t.expires_at == now + ttl * 1_000_000_000,
    ensures
        t.usable(now as u128) == (ttl > 60),
{
    if ttl > 60 {
        assert(ttl * 1_000_000_000 > 60_000_000_000);
    } else {
        assert(ttl * 1_000_000_000 <= 60_000_000_000);
    }
}

/// A server reads a request that posts a form as it was meant: to the path, on the
/// host, a form of so many bytes, and behind a blank line the form itself.
pub proof fn posts_carry_the_form(host: Seq<char>, path: Seq<char>, form: Seq<char>) -> (head: Seq<
    char,
>)
    requires
        one_word(host),
        one_word(path),
    ensures
        post_text(host, path, form) == head + seq!['\r', '\n', '\r', '\n'] + form,
        split(head, '\n') == seq!["POST "@ + path + " HTTP/1.1\r"@].push("Host: "@ + host + "\r"@).push(
            "Content-Type: application/x-www-form-urlencoded\r"@,
        ).push("Content-Length: "@ + decimal(byte_len(form)) + "\r"@).push("Connection: close"@),
{
    let n = decimal(byte_len(form));
    lemma_decimal_reads_back(byte_len(form));
    reveal_strlit("POST ");
    reveal_strlit(" HTTP/1.1\r");
    reveal_strlit("Host: ");
    reveal_strlit("\r");
    reveal_strlit("Content-Type: application/x-www-form-urlencoded\r");
    reveal_strlit("Content-Length: ");
    reveal_strlit("Connection: close");
    reveal_strlit(" HTTP/1.1\r\nHost: ");
    reveal_strlit("\r\nContent-Type: application/x-www-form-urlencoded\r\nContent-Length: ");
    reveal_strlit("\r\nConnection: close\r\n\r\n");
    let nl = seq!['\n'];
    let a = "POST "@ + path + " HTTP/1.1\r"@;
    let b = "Host: "@ + host + "\r"@;
    let c = "Content-Type: application/x-www-form-urlencoded\r"@;
    let d = "Content-Length: "@ + n + "\r"@;
    let e = "Connection: close"@;
    let w = a + nl + b;
    let x = w + nl + c;
    let y = x + nl + d;
    let head = y + nl + e;
    assert(" HTTP/1.1\r\nHost: "@ =~= " HTTP/1.1\r"@ + nl + "Host: "@);
    assert("\r\nContent-Type: application/x-www-form-urlencoded\r\nContent-Length: "@ =~= "\r"@ + nl + c
        + nl + "Content-Length: "@);
    assert("\r\nConnection: close\r\n\r\n"@ =~= "\r"@ + nl + e + seq!['\r', '\n', '\r', '\n']);
    assert(post_text(host, path, form) =~= head + seq!['\r', '\n', '\r', '\n'] + form);
    assert forall|i: int| 0 <= i < a.len() implies #[trigger] a[i] != '\n' by {
        if 5 <= i < 5 + path.len() {
            assert(!breaks_request(path[i - 5]));
        }
    }
    assert forall|i: int| 0 <= i < b.len() implies #[trigger] b[i] != '\n' by {
        if 6 <= i < 6 + host.len() {
            assert(!breaks_request(host[i - 6]));
        }
    }
    assert forall|i: int| 0 <= i < d.len() implies #[trigger] d[i] != '\n' by {
        if 16 <= i < 16 + n.len() {
            assert('0' <= n[i - 16] <= '9');
        }
    }
    lemma_next_char(a, '\n', 0);
    if next_char(a, '\n', 0) < a.len() {
        assert(a[next_char(a, '\n', 0)] != '\n');
    }
    assert(a.subrange(0, a.len() as int) =~= a);
    assert(split(a, '\n') =~= seq![a]);
    lemma_split_behind(a, b, '\n', 0);
    lemma_split_behind(w, c, '\n', 0);
    lemma_split_behind(x, d, '\n', 0);
    lemma_split_behind(y, e, '\n', 0);
    head
}

} // verus!
