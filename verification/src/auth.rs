//! Credentials, user agents, audiences and the Nadeo access and refresh tokens.
use vstd::prelude::*;
use base64::Engine;
use crate::json::{json_document, json_member, member, parse_json, JsonDoc, JsonDocView, JsonScalar, JsonScalarView};
use crate::time::{i64_to_datetime, now_dt, utc_before, utc_timestamp_valid, UtcTime};

verus! {

/// Credentials for nadeo services -- create via [::dedicated_server](NadeoCredentials::dedicated_server) or [::ubisoft](NadeoCredentials::ubisoft)
#[derive(Debug)]
pub enum NadeoCredentials {
    /// username and pw
    DedicatedServer { u: String, p: String },
    /// email and pw
    Ubisoft { e: String, p: String },
}

/// `a:b`, the text that basic authentication encodes.
pub open spec fn colon_joined(a: Seq<char>, b: Seq<char>) -> Seq<char> {
    a + seq![':'] + b
}

/// What `BASE64_STANDARD.encode` makes of the UTF-8 bytes of a text, named: the result
/// depends on the text alone.
pub uninterp spec fn base64_standard(text: Seq<char>) -> Seq<char>;

/// Encodes the UTF-8 bytes of `text` with base64's standard alphabet and padding
/// (`base64::prelude::BASE64_STANDARD.encode`). Trusted: the result is named `base64_standard`.
/// The encoder panics only when the encoded length overflows `usize`, which cannot happen
/// for the bytes of a `str`, as they number at most `isize::MAX`.
#[verifier::external_body]
fn base64_standard_encode(text: &str) -> (r: String)
    ensures
        r@ == base64_standard(text@),
{
    base64::prelude::BASE64_STANDARD.encode(text)
}

/// Appends `b` to `a` after a colon.
fn join_with_colon(a: &String, b: &String) -> (r: String)
    ensures
        r@ == colon_joined(a@, b@),
{
    let mut r = a.clone();
    r.append(":");
    proof {
        reveal_strlit(":");
    }
    r.append(b.as_str());
    r
}

impl NadeoCredentials {
    /// Create credentials from a dedicated server login
    pub fn dedicated_server(username: &str, password: &str) -> (r: Self)
        ensures
            r matches NadeoCredentials::DedicatedServer { u, p } && u@ == username@ && p@
                == password@,
    {
        NadeoCredentials::DedicatedServer { u: username.to_owned(), p: password.to_owned() }
    }

    /// Create credentials from a ubisoft login
    pub fn ubisoft(email: &str, password: &str) -> (r: Self)
        ensures
            r matches NadeoCredentials::Ubisoft { e, p } && e@ == email@ && p@ == password@,
    {
        NadeoCredentials::Ubisoft { e: email.to_owned(), p: password.to_owned() }
    }

    /// The login and the password joined by a colon.
    pub open spec fn login_text(&self) -> Seq<char> {
        match self {
            NadeoCredentials::DedicatedServer { u, p } => colon_joined(u@, p@),
            NadeoCredentials::Ubisoft { e, p } => colon_joined(e@, p@),
        }
    }

    /// The text that the Basic header encodes is the whole login, a colon, and the whole
    /// password, for every login and password: the login and the password can be read back
    /// from it, so two credentials of one kind encode the same text only when they are the
    /// same.
    pub proof fn lemma_login_text_whole(&self, other: &Self)
        ensures
            self matches NadeoCredentials::DedicatedServer { u, p } ==> self.login_text() == u@ + seq![':']
                + p@,
            self matches NadeoCredentials::Ubisoft { e, p } ==> self.login_text() == e@ + seq![':'] + p@,
            self matches NadeoCredentials::DedicatedServer { u, p } ==> self.login_text().take(u@.len() as int)
                == u@ && self.login_text()[u@.len() as int] == ':' && self.login_text().skip(u@.len() + 1int) == p@,
            self matches NadeoCredentials::Ubisoft { e, p } ==> self.login_text().take(e@.len() as int) == e@
                && self.login_text()[e@.len() as int] == ':' && self.login_text().skip(e@.len() + 1int) == p@,
            (self matches NadeoCredentials::DedicatedServer { u: u1, p: p1 } && other matches NadeoCredentials::DedicatedServer {
                u: u2,
                p: p2,
            } && u1@ == u2@ && p1@ != p2@) ==> self.login_text() != other.login_text(),
            (self matches NadeoCredentials::Ubisoft { e: e1, p: p1 } && other matches NadeoCredentials::Ubisoft {
                e: e2,
                p: p2,
            } && e1@ == e2@ && p1@ != p2@) ==> self.login_text() != other.login_text(),
    {
        match self {
            NadeoCredentials::DedicatedServer { u, p } => {
                let t = self.login_text();
                assert(t.take(u@.len() as int) =~= u@);
                assert(t.skip(u@.len() + 1int) =~= p@);
                if let NadeoCredentials::DedicatedServer { u: u2, p: p2 } = other {
                    if u@ == u2@ && p@ != p2@ {
                        assert(other.login_text().skip(u2@.len() + 1int) =~= p2@);
                    }
                }
            },
            NadeoCredentials::Ubisoft { e, p } => {
                let t = self.login_text();
                assert(t.take(e@.len() as int) =~= e@);
                assert(t.skip(e@.len() + 1int) =~= p@);
                if let NadeoCredentials::Ubisoft { e: e2, p: p2 } = other {
                    if e@ == e2@ && p@ != p2@ {
                        assert(other.login_text().skip(e2@.len() + 1int) =~= p2@);
                    }
                }
            },
        }
    }

    /// `Basic <base64 of login:password>`
    pub fn get_basic_auth_header(&self) -> (r: String)
        ensures
            r@ == "Basic "@ + base64_standard(self.login_text()),
    {
        let auth_string = match self {
            NadeoCredentials::DedicatedServer { u, p } => join_with_colon(u, p),
            NadeoCredentials::Ubisoft { e, p } => join_with_colon(e, p),
        };
        let encoded = base64_standard_encode(auth_string.as_str());
        let mut r = "Basic ".to_owned();
        r.append(encoded.as_str());
        r
    }

    pub fn is_ubi(&self) -> (r: bool)
        ensures
            r == (self is Ubisoft),
    {
        match self {
            NadeoCredentials::Ubisoft { .. } => true,
            _ => false,
        }
    }

    pub fn is_dedi(&self) -> (r: bool)
        ensures
            r == (self is DedicatedServer),
    {
        match self {
            NadeoCredentials::DedicatedServer { .. } => true,
            _ => false,
        }
    }
}

/// Every credential is of exactly one kind: `is_ubi` and `is_dedi` never agree.
pub proof fn lemma_credentials_one_kind(c: NadeoCredentials)
    ensures
        (c is Ubisoft) != (c is DedicatedServer),
{
}

/// The OAuth client credentials of an application.
#[derive(Debug)]
pub struct OAuthCredentials {
    pub client_id: String,
    pub client_secret: String,
}

impl OAuthCredentials {
    pub fn new(client_id: &str, client_secret: &str) -> (r: Self)
        ensures
            r.client_id@ == client_id@,
            r.client_secret@ == client_secret@,
    {
        OAuthCredentials { client_id: client_id.to_owned(), client_secret: client_secret.to_owned() }
    }
}

/// User agent details for nadeo services; format: `app_name/version (contact_email)`
#[derive(Debug)]
pub struct UserAgentDetails {
    pub app_name: String,
    pub contact_email: String,
    pub version: String,
}

impl UserAgentDetails {
    pub fn new(app_name: &str, contact_email: &str, version: &str) -> (r: Self)
        ensures
            r.app_name@ == app_name@,
            r.contact_email@ == contact_email@,
            r.version@ == version@,
    {
        UserAgentDetails {
            app_name: app_name.to_owned(),
            contact_email: contact_email.to_owned(),
            version: version.to_owned(),
        }
    }

    /// `app_name/version (contact_email)`
    pub open spec fn user_agent_text(&self) -> Seq<char> {
        self.app_name@ + seq!['/'] + self.version@ + seq![' ', '('] + self.contact_email@ + seq![')']
    }

    pub fn get_user_agent_string(&self) -> (r: String)
        ensures
            r@ == self.user_agent_text(),
    {
        proof {
            reveal_strlit("/");
            reveal_strlit(" (");
            reveal_strlit(")");
        }
        let mut r = self.app_name.clone();
        r.append("/");
        r.append(self.version.as_str());
        r.append(" (");
        r.append(self.contact_email.as_str());
        r.append(")");
        r
    }
}

/// The services that a Nadeo token is issued for.
#[derive(Debug, Clone, Copy, PartialEq, Eq)]
pub enum NadeoAudience {
    Core,
    Live,
}

/// The name of an audience as the authentication service spells it.
pub open spec fn audience_text(a: NadeoAudience) -> Seq<char> {
    match a {
        NadeoAudience::Core => "NadeoServices"@,
        NadeoAudience::Live => "NadeoLiveServices"@,
    }
}

/// The audience that a name spells, if any.
pub open spec fn audience_of(text: Seq<char>) -> Option<NadeoAudience> {
    if text == "NadeoServices"@ {
        Some(NadeoAudience::Core)
    } else if text == "NadeoLiveServices"@ {
        Some(NadeoAudience::Live)
    } else {
        None
    }
}

impl NadeoAudience {
    pub fn get_audience_string(&self) -> (r: &'static str)
        ensures
            r@ == audience_text(*self),
    {
        match self {
            NadeoAudience::Core => "NadeoServices",
            NadeoAudience::Live => "NadeoLiveServices",
        }
    }

    pub fn from_audience_string(aud: &str) -> (r: Option<NadeoAudience>)
        ensures
            r == audience_of(aud@),
    {
        let aud = aud.to_owned();
        if aud == "NadeoServices".to_owned() {
            Some(NadeoAudience::Core)
        } else if aud == "NadeoLiveServices".to_owned() {
            Some(NadeoAudience::Live)
        } else {
            None
        }
    }
}

/// The two audience names differ.
proof fn lemma_audience_names_differ()
    ensures
        "NadeoServices"@ != "NadeoLiveServices"@,
{
    reveal_strlit("NadeoServices");
    reveal_strlit("NadeoLiveServices");
    assert("NadeoServices"@.len() != "NadeoLiveServices"@.len());
}

/// Reading back the name of an audience gives the audience again, and a name that reads as
/// an audience is that audience's name.
pub proof fn lemma_audience_round_trip(a: NadeoAudience, text: Seq<char>)
    ensures
        audience_of(audience_text(a)) == Some(a),
        audience_of(text) matches Some(b) ==> audience_text(b) == text,
{
    lemma_audience_names_differ();
}

/// The index of the first `.` in `s`, or its length when there is none.
pub open spec fn first_dot(s: Seq<char>) -> nat
    decreases s.len(),
{
    if s.len() == 0 || s[0] == '.' {
        0
    } else {
        1 + first_dot(s.drop_first())
    }
}

/// The middle part of a `header.payload.signature` token, as `split('.').nth(1)` finds it:
/// the text between the first dot and the next one (or the end).
pub open spec fn token_payload(token: Seq<char>) -> Option<Seq<char>> {
    let i = first_dot(token);
    if i >= token.len() {
        None
    } else {
        let rest = token.skip(i as int + 1);
        Some(rest.take(first_dot(rest) as int))
    }
}

proof fn lemma_first_dot_bound(s: Seq<char>)
    ensures
        first_dot(s) <= s.len(),
        first_dot(s) < s.len() ==> s[first_dot(s) as int] == '.',
        forall|k: int| 0 <= k < first_dot(s) ==> s[k] != '.',
    decreases s.len(),
{
    if s.len() > 0 && s[0] != '.' {
        lemma_first_dot_bound(s.drop_first());
        assert forall|k: int| 0 <= k < first_dot(s) implies s[k] != '.' by {
            if k > 0 {
                assert(s[k] == s.drop_first()[k - 1]);
            }
        }
    }
}

proof fn lemma_first_dot_step(s: Seq<char>, i: int)
    requires
        0 <= i < s.len(),
        s[i] != '.',
    ensures
        first_dot(s.skip(i)) == 1 + first_dot(s.skip(i + 1)),
{
    assert(s.skip(i).drop_first() =~= s.skip(i + 1));
}

proof fn lemma_first_dot_after(h: Seq<char>, rest: Seq<char>)
    requires
        !h.contains('.'),
    ensures
        first_dot(h + seq!['.'] + rest) == h.len(),
    decreases h.len(),
{
    let s = h + seq!['.'] + rest;
    if h.len() == 0 {
        assert(s[0] == '.');
    } else {
        assert(h[0] != '.') by {
            if h[0] == '.' {
                assert(h.contains('.'));
            }
        }
        assert(s.drop_first() =~= h.drop_first() + seq!['.'] + rest);
        assert(!h.drop_first().contains('.')) by {
            if h.drop_first().contains('.') {
                let i = choose|i: int| 0 <= i < h.drop_first().len() && h.drop_first()[i] == '.';
                assert(h[i + 1] == '.');
            }
        }
        lemma_first_dot_after(h.drop_first(), rest);
    }
}

proof fn lemma_first_dot_none(p: Seq<char>)
    requires
        !p.contains('.'),
    ensures
        first_dot(p) == p.len(),
    decreases p.len(),
{
    if p.len() > 0 {
        assert(p[0] != '.') by {
            if p[0] == '.' {
                assert(p.contains('.'));
            }
        }
        assert(!p.drop_first().contains('.')) by {
            if p.drop_first().contains('.') {
                let i = choose|i: int| 0 <= i < p.drop_first().len() && p.drop_first()[i] == '.';
                assert(p[i + 1] == '.');
            }
        }
        lemma_first_dot_none(p.drop_first());
    }
}

/// The payload of a `header.payload.signature` token is its middle part, whatever the
/// signature holds, and a token of two parts has its second part as payload.
pub proof fn lemma_token_payload_parts(header: Seq<char>, payload: Seq<char>, rest: Seq<char>)
    requires
        !header.contains('.'),
        !payload.contains('.'),
    ensures
        token_payload(header + seq!['.'] + payload + seq!['.'] + rest) == Some(payload),
        token_payload(header + seq!['.'] + payload) == Some(payload),
{
    let t = header + seq!['.'] + payload + seq!['.'] + rest;
    assert(t =~= header + seq!['.'] + (payload + seq!['.'] + rest));
    lemma_first_dot_after(header, payload + seq!['.'] + rest);
    assert(t.skip(header.len() as int + 1) =~= payload + seq!['.'] + rest);
    lemma_first_dot_after(payload, rest);
    assert((payload + seq!['.'] + rest).take(payload.len() as int) =~= payload);
    let t2 = header + seq!['.'] + payload;
    assert(t2 =~= header + seq!['.'] + payload);
    lemma_first_dot_after(header, payload);
    assert(t2.skip(header.len() as int + 1) =~= payload);
    lemma_first_dot_none(payload);
    assert(payload.take(payload.len() as int) =~= payload);
}

/// The index of the first `.` in `s` at or after `from`, or the length of `s`.
fn find_dot(s: &str, from: usize) -> (r: usize)
    requires
        from <= s@.len(),
    ensures
        r == from + first_dot(s@.skip(from as int)),
{
    let len = s.unicode_len();
    let mut i = from;
    while i < len && s.get_char(i) != '.'
        invariant
            from <= i <= len,
            len == s@.len(),
            first_dot(s@.skip(from as int)) == (i - from) + first_dot(s@.skip(i as int)),
        decreases len - i,
    {
        proof {
            lemma_first_dot_step(s@, i as int);
        }
        i = i + 1;
    }
    proof {
        if i < len {
            assert(s@.skip(i as int)[0] == '.');
        }
    }
    i
}

/// The middle part of a token, if it has one.
fn token_payload_of(token: &str) -> (r: Option<&str>)
    ensures
        match r {
            Some(p) => token_payload(token@) == Some(p@),
            None => token_payload(token@) is None,
        },
{
    let len = token.unicode_len();
    let i = find_dot(token, 0);
    proof {
        assert(token@.skip(0) =~= token@);
        lemma_first_dot_bound(token@);
    }
    if i >= len {
        None
    } else {
        let j = find_dot(token, i + 1);
        proof {
            let rest = token@.skip(i + 1);
            lemma_first_dot_bound(rest);
            assert(token@.subrange(i + 1, j as int) =~= rest.take(first_dot(rest) as int));
        }
        Some(token.substring_char(i + 1, j))
    }
}

/// What `BASE64_URL_SAFE_NO_PAD.decode` makes of the UTF-8 bytes of a text, named: the
/// decoded bytes, or the error's message. The result depends on the text alone.
pub uninterp spec fn base64_url_decoded(text: Seq<char>) -> Result<Seq<u8>, Seq<char>>;

/// Decodes the UTF-8 bytes of `text` with base64's URL-safe alphabet and no padding
/// (`base64::prelude::BASE64_URL_SAFE_NO_PAD.decode`), turning the error into its message.
/// Trusted: the result is named `base64_url_decoded`. Decoding does not panic: its output
/// buffer is sized from the input.
#[verifier::external_body]
fn base64_url_decode(text: &str) -> (r: Result<Vec<u8>, String>)
    ensures
        match r {
            Ok(v) => base64_url_decoded(text@) == Ok::<Seq<u8>, Seq<char>>(v@),
            Err(e) => base64_url_decoded(text@) == Err::<Seq<u8>, Seq<char>>(e@),
        },
{
    base64::prelude::BASE64_URL_SAFE_NO_PAD.decode(text.as_bytes()).map_err(|e| e.to_string())
}

/// The payload of a token read as JSON, or the message of the first step that failed:
/// finding the payload, decoding it, parsing it.
pub open spec fn token_body(token: Seq<char>) -> Result<JsonDocView, Seq<char>> {
    match token_payload(token) {
        None => Err("Token does not have 3 parts"@),
        Some(part) => match base64_url_decoded(part) {
            Err(e) => Err(e),
            Ok(bytes) => match json_document(bytes) {
                JsonDocView::Invalid(e) => Err(e),
                doc => Ok(doc),
            },
        },
    }
}

/// Whether a result of a library function agrees with a result stated over views.
pub open spec fn doc_result_is(r: Result<JsonDoc, String>, s: Result<JsonDocView, Seq<char>>) -> bool {
    match r {
        Ok(d) => s == Ok::<JsonDocView, Seq<char>>(d@),
        Err(e) => s == Err::<JsonDocView, Seq<char>>(e@),
    }
}

/// Returns the token body (middle chunk, aka "payload") as a JSON document
pub fn get_token_body(token: &String) -> (r: Result<JsonDoc, String>)
    ensures
        doc_result_is(r, token_body(token@)),
{
    match token_payload_of(token.as_str()) {
        None => Err("Token does not have 3 parts".to_owned()),
        Some(part) => match base64_url_decode(part) {
            Err(e) => Err(e),
            Ok(bytes) => {
                let doc = parse_json(bytes.as_slice());
                match doc {
                    JsonDoc::Invalid(e) => Err(e),
                    _ => Ok(doc),
                }
            },
        },
    }
}

/// The string member `key` of a document, if it is one.
pub open spec fn str_member(doc: JsonDocView, key: Seq<char>) -> Option<Seq<char>> {
    match json_member(doc, key) {
        JsonScalarView::Str(s) => Some(s),
        _ => None,
    }
}

/// The member `key` of a document, if it is an integer that fits in an `i64`.
pub open spec fn i64_member(doc: JsonDocView, key: Seq<char>) -> Option<i64> {
    match json_member(doc, key) {
        JsonScalarView::Number(Some(n)) => Some(n),
        _ => None,
    }
}

/// The member `key` of a document when it is a string.
fn str_member_of(doc: &JsonDoc, key: &str) -> (r: Option<String>)
    ensures
        match r {
            Some(s) => str_member(doc@, key@) == Some(s@),
            None => str_member(doc@, key@) is None,
        },
{
    match member(doc, key) {
        JsonScalar::Str(s) => Some(s),
        _ => None,
    }
}

/// The member `key` of a document when it is an integer that fits in an `i64`.
fn i64_member_of(doc: &JsonDoc, key: &str) -> (r: Option<i64>)
    ensures
        r == i64_member(doc@, key@),
{
    match member(doc, key) {
        JsonScalar::Number(Some(n)) => Some(n),
        _ => None,
    }
}

/// Returns e.g., "NadeoLiveServices"
pub fn get_token_body_audience(body: &JsonDoc) -> (r: Result<String, String>)
    ensures
        match str_member(body@, "aud"@) {
            Some(s) => r matches Ok(a) && a@ == s,
            None => r matches Err(e) && e@ == "token.aud is not a string"@,
        },
{
    match str_member_of(body, "aud") {
        Some(s) => Ok(s),
        None => Err("token.aud is not a string".to_owned()),
    }
}

pub fn get_token_body_expiry(body: &JsonDoc) -> (r: Result<i64, String>)
    ensures
        match i64_member(body@, "exp"@) {
            Some(n) => r == Ok::<i64, String>(n),
            None => r matches Err(e) && e@ == "token.exp is not a i64"@,
        },
{
    match i64_member_of(body, "exp") {
        Some(n) => Ok(n),
        None => Err("token.exp is not a i64".to_owned()),
    }
}

pub fn get_token_body_refresh_after(body: &JsonDoc) -> (r: Result<i64, String>)
    ensures
        match i64_member(body@, "rat"@) {
            Some(n) => r == Ok::<i64, String>(n),
            None => r matches Err(e) && e@ == "token.rat is not a i64"@,
        },
{
    match i64_member_of(body, "rat") {
        Some(n) => Ok(n),
        None => Err("token.rat is not a i64".to_owned()),
    }
}

/// The document as JSON text, as `Display` writes it.
pub open spec fn json_text(doc: JsonDocView) -> Seq<char> {
    match doc {
        JsonDocView::Invalid(e) => e,
        JsonDocView::Object(_, t) => t,
        JsonDocView::Array(_, t, _) => t,
        JsonDocView::Scalar(t, _) => t,
    }
}

/// The JSON text of a parsed document.
fn json_text_of(doc: &JsonDoc) -> (r: String)
    ensures
        r@ == json_text(doc@),
{
    match doc {
        JsonDoc::Invalid(e) => e.clone(),
        JsonDoc::Object(_, t) => t.clone(),
        JsonDoc::Array(_, t, _) => t.clone(),
        JsonDoc::Scalar(t, _) => t.clone(),
    }
}

/// `nadeo_v1 t=<token>`
pub open spec fn nadeo_header(token: Seq<char>) -> Seq<char> {
    "nadeo_v1 t="@ + token
}

/// Builds `nadeo_v1 t=<token>`.
pub fn nadeo_authz_header(token: &str) -> (r: String)
    ensures
        r@ == nadeo_header(token@),
{
    let mut r = "nadeo_v1 t=".to_owned();
    r.append(token);
    r
}

/// An integer member of a token's payload, or the message of the step that failed.
pub open spec fn token_i64(token: Seq<char>, key: Seq<char>, missing: Seq<char>) -> Result<i64, Seq<char>> {
    match token_body(token) {
        Err(e) => Err(e),
        Ok(doc) => match i64_member(doc, key) {
            Some(n) => Ok(n),
            None => Err(missing),
        },
    }
}

/// An integer member of a token's payload read as a point in time, or the message of the
/// step that failed.
pub open spec fn token_time(token: Seq<char>, key: Seq<char>, missing: Seq<char>) -> Result<UtcTime, Seq<char>> {
    match token_i64(token, key, missing) {
        Err(e) => Err(e),
        Ok(n) => if utc_timestamp_valid(n, 0) {
            Ok(UtcTime { secs: n, nanos: 0 })
        } else {
            Err("Failed to convert i64 to DateTime"@)
        },
    }
}

/// Whether a result of a library function agrees with a result stated over views.
pub open spec fn i64_result_is(r: Result<i64, String>, s: Result<i64, Seq<char>>) -> bool {
    match r {
        Ok(n) => s == Ok::<i64, Seq<char>>(n),
        Err(e) => s == Err::<i64, Seq<char>>(e@),
    }
}

/// Whether a result of a library function agrees with a result stated over views.
pub open spec fn time_result_is(r: Result<UtcTime, String>, s: Result<UtcTime, Seq<char>>) -> bool {
    match r {
        Ok(t) => s == Ok::<UtcTime, Seq<char>>(t),
        Err(e) => s == Err::<UtcTime, Seq<char>>(e@),
    }
}

/// The expiry (`exp`) of a token, in seconds since the epoch.
pub open spec fn token_expiry(token: Seq<char>) -> Result<i64, Seq<char>> {
    token_i64(token, "exp"@, "token.exp is not a i64"@)
}

/// The expiry (`exp`) of a token as a point in time.
pub open spec fn token_expiry_time(token: Seq<char>) -> Result<UtcTime, Seq<char>> {
    token_time(token, "exp"@, "token.exp is not a i64"@)
}

/// The time after which a token may be refreshed (`rat`).
pub open spec fn token_refresh_after_time(token: Seq<char>) -> Result<UtcTime, Seq<char>> {
    token_time(token, "rat"@, "token.rat is not a i64"@)
}

/// An integer member of a token's payload.
fn token_i64_of(token: &String, key: &str, missing: &str) -> (r: Result<i64, String>)
    ensures
        i64_result_is(r, token_i64(token@, key@, missing@)),
{
    match get_token_body(token) {
        Err(e) => Err(e),
        Ok(body) => match i64_member_of(&body, key) {
            Some(n) => Ok(n),
            None => Err(missing.to_owned()),
        },
    }
}

/// An integer member of a token's payload as a point in time.
fn token_time_of(token: &String, key: &str, missing: &str) -> (r: Result<UtcTime, String>)
    ensures
        time_result_is(r, token_time(token@, key@, missing@)),
{
    match token_i64_of(token, key, missing) {
        Err(e) => Err(e),
        Ok(n) => i64_to_datetime(n),
    }
}

/// What the authentication service's answer `doc` gives for an audience: the token, or the
/// message of the first missing member.
pub open spec fn token_answer(audience: NadeoAudience, doc: JsonDocView, r: Result<NadeoToken, String>) -> bool {
    match (str_member(doc, "accessToken"@), str_member(doc, "refreshToken"@)) {
        (Some(a), Some(t)) => r matches Ok(tok) && tok.audience == audience && tok.access_token@ == a
            && tok.refresh_token@ == t,
        (None, _) => r matches Err(e) && e@ == "No accessToken in response; body: "@ + json_text(doc),
        (Some(_), None) => r matches Err(e) && e@ == "No refreshToken in response"@,
    }
}

/// A pair of tokens, one for each audience.
#[derive(Debug)]
pub struct NadeoTokens {
    pub core: NadeoToken,
    pub live: NadeoToken,
}

impl NadeoTokens {
    pub fn new(core: NadeoToken, live: NadeoToken) -> (r: Self)
        ensures
            r.core == core,
            r.live == live,
    {
        NadeoTokens { core, live }
    }
}

/// An access token and the refresh token that renews it, for one audience.
#[derive(Debug)]
pub struct NadeoToken {
    pub audience: NadeoAudience,
    pub access_token: String,
    pub refresh_token: String,
}

impl NadeoToken {
    /// Reads the tokens out of the response of the authentication service.
    pub fn new(audience: NadeoAudience, body: &JsonDoc) -> (r: Result<Self, String>)
        requires
            !(body@ is Invalid),
        ensures
            token_answer(audience, body@, r),
    {
        let access_token = match str_member_of(body, "accessToken") {
            Some(a) => a,
            None => {
                let mut e = "No accessToken in response; body: ".to_owned();
                let text = json_text_of(body);
                e.append(text.as_str());
                return Err(e);
            },
        };
        let refresh_token = match str_member_of(body, "refreshToken") {
            Some(t) => t,
            None => return Err("No refreshToken in response".to_owned()),
        };
        Ok(NadeoToken { audience, access_token, refresh_token })
    }

    /// Reads the tokens out of the body of the authentication service's answer; an error
    /// with the parser's message when the body is not JSON.
    pub fn from_response(audience: NadeoAudience, body: &[u8]) -> (r: Result<Self, String>)
        ensures
            match json_document(body@) {
                JsonDocView::Invalid(e) => r matches Err(m) && m@ == e,
                doc => token_answer(audience, doc, r),
            },
    {
        let doc = parse_json(body);
        match doc {
            JsonDoc::Invalid(e) => Err(e),
            _ => Self::new(audience, &doc),
        }
    }

    /// Returns `nadeo_v1 t=refresh_token` (used to call AUTH_REFRESH_URL)
    pub fn get_refresh_authz_header(&self) -> (r: String)
        ensures
            r@ == nadeo_header(self.refresh_token@),
    {
        nadeo_authz_header(self.refresh_token.as_str())
    }

    /// Prefer get_*_authz_header instead. Returns `nadeo_v1 t=access_token`
    pub fn get_access_authz_header(&self) -> (r: String)
        ensures
            r@ == nadeo_header(self.access_token@),
    {
        nadeo_authz_header(self.access_token.as_str())
    }

    pub fn get_access_token_body(&self) -> (r: Result<JsonDoc, String>)
        ensures
            doc_result_is(r, token_body(self.access_token@)),
    {
        get_token_body(&self.access_token)
    }

    pub fn get_refresh_token_body(&self) -> (r: Result<JsonDoc, String>)
        ensures
            doc_result_is(r, token_body(self.refresh_token@)),
    {
        get_token_body(&self.refresh_token)
    }

    pub fn get_access_expiry_i64(&self) -> (r: Result<i64, String>)
        ensures
            i64_result_is(r, token_expiry(self.access_token@)),
    {
        token_i64_of(&self.access_token, "exp", "token.exp is not a i64")
    }

    pub fn get_refresh_expiry_i64(&self) -> (r: Result<i64, String>)
        ensures
            i64_result_is(r, token_expiry(self.refresh_token@)),
    {
        token_i64_of(&self.refresh_token, "exp", "token.exp is not a i64")
    }

    pub fn get_access_expiry(&self) -> (r: Result<UtcTime, String>)
        ensures
            time_result_is(r, token_expiry_time(self.access_token@)),
    {
        token_time_of(&self.access_token, "exp", "token.exp is not a i64")
    }

    pub fn get_refresh_expiry(&self) -> (r: Result<UtcTime, String>)
        ensures
            time_result_is(r, token_expiry_time(self.refresh_token@)),
    {
        token_time_of(&self.refresh_token, "exp", "token.exp is not a i64")
    }

    pub fn get_access_refresh_after(&self) -> (r: Result<UtcTime, String>)
        ensures
            time_result_is(r, token_refresh_after_time(self.access_token@)),
    {
        token_time_of(&self.access_token, "rat", "token.rat is not a i64")
    }

    pub fn get_refresh_refresh_after(&self) -> (r: Result<UtcTime, String>)
        ensures
            time_result_is(r, token_refresh_after_time(self.refresh_token@)),
    {
        token_time_of(&self.refresh_token, "rat", "token.rat is not a i64")
    }

    /// Whether, at `now`, the access token's refresh-after time has passed.
    pub open spec fn can_refresh_at_spec(&self, now: UtcTime) -> bool {
        match token_refresh_after_time(self.access_token@) {
            Ok(after) => utc_before(after, now),
            Err(_) => false,
        }
    }

    /// Whether, at `now`, a token is expired: its expiry has passed or cannot be read.
    pub open spec fn expired_at(token: Seq<char>, now: UtcTime) -> bool {
        match token_expiry_time(token) {
            Ok(exp) => utc_before(exp, now),
            Err(_) => true,
        }
    }

    /// Whether, at `now`, the access token may be refreshed.
    pub fn can_refresh_at(&self, now: UtcTime) -> (r: bool)
        ensures
            r == self.can_refresh_at_spec(now),
    {
        match self.get_access_refresh_after() {
            Ok(after) => after.is_before(&now),
            Err(_) => false,
        }
    }

    /// Whether, at `now`, the access token is expired.
    pub fn is_access_expired_at(&self, now: UtcTime) -> (r: bool)
        ensures
            r == Self::expired_at(self.access_token@, now),
    {
        match self.get_access_expiry() {
            Ok(exp) => exp.is_before(&now),
            Err(_) => true,
        }
    }

    /// Whether, at `now`, the refresh token is expired.
    pub fn is_refresh_expired_at(&self, now: UtcTime) -> (r: bool)
        ensures
            r == Self::expired_at(self.refresh_token@, now),
    {
        match self.get_refresh_expiry() {
            Ok(exp) => exp.is_before(&now),
            Err(_) => true,
        }
    }

    /// Whether the access token may be refreshed now.
    pub fn can_refresh(&self) -> (r: bool)
        ensures
            exists|now: UtcTime| utc_timestamp_valid(now.secs, now.nanos) && r == self.can_refresh_at_spec(now),
            token_refresh_after_time(self.access_token@) is Err ==> !r,
    {
        let now = now_dt();
        self.can_refresh_at(now)
    }

    /// Whether the access token is expired now.
    pub fn is_access_expired(&self) -> (r: bool)
        ensures
            exists|now: UtcTime| utc_timestamp_valid(now.secs, now.nanos) && r == Self::expired_at(self.access_token@, now),
            token_expiry_time(self.access_token@) is Err ==> r,
    {
        let now = now_dt();
        self.is_access_expired_at(now)
    }

    /// Whether the refresh token is expired now.
    pub fn is_refresh_expired(&self) -> (r: bool)
        ensures
            exists|now: UtcTime| utc_timestamp_valid(now.secs, now.nanos) && r == Self::expired_at(self.refresh_token@, now),
            token_expiry_time(self.refresh_token@) is Err ==> r,
    {
        let now = now_dt();
        self.is_refresh_expired_at(now)
    }

    /// Whether, at `now`, the token should be renewed: its access token is expired or may be
    /// refreshed.
    pub fn needs_refresh_at(&self, now: UtcTime) -> (r: bool)
        ensures
            r == (Self::expired_at(self.access_token@, now) || self.can_refresh_at_spec(now)),
    {
        self.is_access_expired_at(now) || self.can_refresh_at(now)
    }

    /// Returns authz header if audience is core
    pub fn get_core_authz_header(&self) -> (r: Option<String>)
        ensures
            match self.audience {
                NadeoAudience::Core => r matches Some(h) && h@ == nadeo_header(self.access_token@),
                NadeoAudience::Live => r is None,
            },
    {
        match self.audience {
            NadeoAudience::Core => Some(self.get_access_authz_header()),
            _ => None,
        }
    }

    /// Returns authz header if audience is live
    pub fn get_live_authz_header(&self) -> (r: Option<String>)
        ensures
            match self.audience {
                NadeoAudience::Live => r matches Some(h) && h@ == nadeo_header(self.access_token@),
                NadeoAudience::Core => r is None,
            },
    {
        match self.audience {
            NadeoAudience::Live => Some(self.get_access_authz_header()),
            _ => None,
        }
    }

    /// Whether the refresh service's answer can be taken: its access token is a string, and
    /// its refresh token is a string or missing (or null).
    pub fn refresh_answer_usable(body: &JsonDoc) -> (r: bool)
        ensures
            r == (str_member(body@, "accessToken"@) is Some && (json_member(body@, "refreshToken"@) is Null
                || str_member(body@, "refreshToken"@) is Some)),
    {
        let access = str_member_of(body, "accessToken");
        let refresh = member(body, "refreshToken");
        access.is_some() && match refresh {
            JsonScalar::Null => true,
            JsonScalar::Str(_) => true,
            _ => false,
        }
    }

    /// Takes the new tokens out of the response of the refresh service: the access token
    /// always, the refresh token when the response holds one (a missing or null one keeps
    /// the old). Returns whether the refresh token was replaced.
    pub fn apply_refresh(&mut self, body: &JsonDoc) -> (r: bool)
        requires
            str_member(body@, "accessToken"@) is Some,
            json_member(body@, "refreshToken"@) is Null || str_member(body@, "refreshToken"@) is Some,
        ensures
            r == (str_member(body@, "refreshToken"@) is Some),
            final(self).audience == old(self).audience,
            Some(final(self).access_token@) == str_member(body@, "accessToken"@),
            r ==> Some(final(self).refresh_token@) == str_member(body@, "refreshToken"@),
            !r ==> final(self).refresh_token == old(self).refresh_token,
    {
        match str_member_of(body, "accessToken") {
            Some(a) => {
                self.access_token = a;
            },
            None => {},
        }
        match str_member_of(body, "refreshToken") {
            Some(t) => {
                self.refresh_token = t;
                true
            },
            None => false,
        }
    }
}

impl NadeoToken {
    /// Takes the new tokens out of the body of the refresh service's answer, as
    /// `apply_refresh` does. `None`, and no change, when the body is not JSON or its tokens
    /// cannot be taken; otherwise whether the refresh token was replaced.
    pub fn apply_refresh_response(&mut self, body: &[u8]) -> (r: Option<bool>)
        ensures
            ({
                let doc = json_document(body@);
                let usable = !(doc is Invalid) && str_member(doc, "accessToken"@) is Some && (json_member(
                    doc,
                    "refreshToken"@,
                ) is Null || str_member(doc, "refreshToken"@) is Some);
                &&& !usable ==> r is None && *final(self) == *old(self)
                &&& usable ==> r == Some(str_member(doc, "refreshToken"@) is Some)
                &&& usable ==> final(self).audience == old(self).audience
                &&& usable ==> Some(final(self).access_token@) == str_member(doc, "accessToken"@)
                &&& usable && str_member(doc, "refreshToken"@) is Some ==> Some(final(self).refresh_token@)
                    == str_member(doc, "refreshToken"@)
                &&& usable && str_member(doc, "refreshToken"@) is None ==> final(self).refresh_token
                    == old(self).refresh_token
            }),
    {
        let doc = parse_json(body);
        if let JsonDoc::Invalid(_) = doc {
            return None;
        }
        if !Self::refresh_answer_usable(&doc) {
            return None;
        }
        Some(self.apply_refresh(&doc))
    }
}

/// A token of the OAuth service.
#[derive(Debug)]
pub struct OAuthToken {
    pub token_type: String,
    pub expires_in: i64,
    pub access_token: String,
    /// When the token expires; set once, when it is received.
    pub expires_at: Option<UtcTime>,
}

impl Clone for OAuthToken {
    fn clone(&self) -> (r: Self)
        ensures
            r == *self,
    {
        OAuthToken {
            token_type: self.token_type.clone(),
            expires_in: self.expires_in,
            access_token: self.access_token.clone(),
            expires_at: self.expires_at,
        }
    }
}

/// The most seconds that `chrono::Duration::seconds` accepts.
pub const MAX_DURATION_SECS: i64 = 9_223_372_036_854_775;

impl OAuthToken {
    /// Returns `<bearer> <access_token>`
    pub fn get_authz_header(&self) -> (r: String)
        ensures
            r@ == self.token_type@ + seq![' '] + self.access_token@,
    {
        proof {
            reveal_strlit(" ");
        }
        let mut r = self.token_type.clone();
        r.append(" ");
        r.append(self.access_token.as_str());
        r
    }

    /// Whether, at `now`, the token is within a minute of its expiry (or past it).
    pub open spec fn should_refresh_at_spec(&self, now: UtcTime) -> bool
        recommends
            self.expires_at is Some,
    {
        let exp = self.expires_at->0;
        utc_before(UtcTime { secs: (exp.secs - 60) as i64, nanos: exp.nanos }, now)
    }

    /// Whether, at `now`, the token should be renewed: its expiry less a minute has passed.
    pub fn should_refresh_at(&self, now: UtcTime) -> (r: bool)
        requires
            self.expires_at is Some,
            self.expires_at->0.secs >= i64::MIN + 60,
        ensures
            r == self.should_refresh_at_spec(now),
    {
        match self.expires_at {
            Some(exp) => {
                let margin = UtcTime { secs: exp.secs - 60, nanos: exp.nanos };
                margin.is_before(&now)
            },
            None => false,
        }
    }

    /// Whether the token should be renewed now.
    pub fn should_refresh(&self) -> (r: bool)
        requires
            self.expires_at is Some,
            self.expires_at->0.secs >= i64::MIN + 60,
        ensures
            exists|now: UtcTime| utc_timestamp_valid(now.secs, now.nanos) && r == self.should_refresh_at_spec(now),
    {
        let now = now_dt();
        self.should_refresh_at(now)
    }

    /// The expiry of a token received at `now`: `expires_in` seconds later, when chrono can
    /// represent that duration and that time.
    pub open spec fn expiry_from(&self, now: UtcTime) -> Option<UtcTime> {
        let secs = now.secs + self.expires_in;
        if -MAX_DURATION_SECS <= self.expires_in <= MAX_DURATION_SECS && i64::MIN <= secs <= i64::MAX
            && utc_timestamp_valid(secs as i64, now.nanos) {
            Some(UtcTime { secs: secs as i64, nanos: now.nanos })
        } else {
            None
        }
    }

    /// Records the expiry of a token received at `now`. Returns false, and changes nothing,
    /// when the expiry was already set or cannot be represented.
    pub fn set_expires_at(&mut self, now: UtcTime) -> (r: bool)
        ensures
            r == (old(self).expires_at is None && old(self).expiry_from(now) is Some),
            r ==> final(self).expires_at == old(self).expiry_from(now),
            final(self).token_type == old(self).token_type,
            final(self).expires_in == old(self).expires_in,
            final(self).access_token == old(self).access_token,
            !r ==> final(self).expires_at == old(self).expires_at,
    {
        if self.expires_at.is_some() {
            return false;
        }
        if self.expires_in < -MAX_DURATION_SECS || self.expires_in > MAX_DURATION_SECS {
            return false;
        }
        let secs = now.secs.checked_add(self.expires_in);
        match secs {
            None => false,
            Some(secs) => {
                if crate::time::utc_timestamp_is_valid(secs, now.nanos) {
                    self.expires_at = Some(UtcTime { secs, nanos: now.nanos });
                    true
                } else {
                    false
                }
            },
        }
    }
}

/// Time only moves a token towards expiry: a token expired at `a` is expired at any later `b`.
pub proof fn lemma_expired_stays_expired(token: Seq<char>, a: UtcTime, b: UtcTime)
    requires
        NadeoToken::expired_at(token, a),
        utc_before(a, b),
    ensures
        NadeoToken::expired_at(token, b),
{
}

/// Once an OAuth token should be renewed, it should be renewed at any later time too.
pub proof fn lemma_should_refresh_stays(t: OAuthToken, a: UtcTime, b: UtcTime)
    requires
        t.expires_at is Some,
        t.expires_at->0.secs >= i64::MIN + 60,
        t.should_refresh_at_spec(a),
        utc_before(a, b),
    ensures
        t.should_refresh_at_spec(b),
{
}

/// What a client does to hand out an OAuth token.
#[derive(Debug, Clone, Copy, PartialEq, Eq)]
pub enum OAuthTokenStep {
    /// The cached token is still good.
    UseCached,
    /// Log in for a new token.
    Login,
}

/// Decides, at `now`, whether the cached OAuth token (if any) can be handed out or a new one
/// is needed.
pub fn oauth_token_step(cached: &Option<OAuthToken>, now: UtcTime) -> (r: OAuthTokenStep)
    requires
        cached matches Some(t) ==> (t.expires_at is Some && t.expires_at->0.secs >= i64::MIN + 60),
    ensures
        r == oauth_step_at(*cached, now),
        match cached {
            None => r == OAuthTokenStep::Login,
            Some(t) => (r == OAuthTokenStep::UseCached) == !t.should_refresh_at_spec(now)
                && (r == OAuthTokenStep::UseCached || r == OAuthTokenStep::Login),
        },
{
    match cached {
        None => OAuthTokenStep::Login,
        Some(t) => {
            if t.should_refresh_at(now) {
                OAuthTokenStep::Login
            } else {
                OAuthTokenStep::UseCached
            }
        },
    }
}

/// What the client decides, at `now`, for the cached OAuth token (if any).
pub open spec fn oauth_step_at(cached: Option<OAuthToken>, now: UtcTime) -> OAuthTokenStep {
    match cached {
        Some(t) => if t.should_refresh_at_spec(now) {
            OAuthTokenStep::Login
        } else {
            OAuthTokenStep::UseCached
        },
        None => OAuthTokenStep::Login,
    }
}

/// Ends a login for an OAuth token: the new token is cached and handed out; on an error the
/// cache is kept and the error handed out.
pub fn oauth_token_after_login(cached: &mut Option<OAuthToken>, login: Result<OAuthToken, String>) -> (r: Result<
    OAuthToken,
    String,
>)
    ensures
        match login {
            Ok(t) => *final(cached) == Some(t) && r == Ok::<OAuthToken, String>(t),
            Err(e) => *final(cached) == *old(cached) && r == Err::<OAuthToken, String>(e),
        },
{
    match login {
        Ok(t) => {
            *cached = Some(t.clone());
            Ok(t)
        },
        Err(e) => Err(e),
    }
}

/// A token handed out by a login is handed out again, from the cache and with no new login,
/// at any later time at which it need not be refreshed; once it must be, the next request
/// logs in again. A failed login leaves the decision as it was.
pub proof fn lemma_oauth_token_reused(
    cached: Option<OAuthToken>,
    login: Result<OAuthToken, String>,
    after: Option<OAuthToken>,
    now: UtcTime,
)
    requires
        login is Ok ==> after == Some(login->Ok_0),
        login is Err ==> after == cached,
    ensures
        login matches Ok(t) ==> (oauth_step_at(after, now) == OAuthTokenStep::UseCached
            <==> !t.should_refresh_at_spec(now)),
        login is Err ==> oauth_step_at(after, now) == oauth_step_at(cached, now),
{
}

/// `ubi_v1 t=<ticket>`, from the body of the Ubisoft session service's answer; an error with
/// the parser's message when the body is not JSON.
pub fn ubi_ticket_header_from(body: &[u8]) -> (r: Result<String, String>)
    ensures
        match json_document(body@) {
            JsonDocView::Invalid(e) => r matches Err(m) && m@ == e,
            doc => match str_member(doc, "ticket"@) {
                Some(t) => r matches Ok(h) && h@ == "ubi_v1 t="@ + t,
                None => r matches Err(e) && e@ == "No ticket in response"@,
            },
        },
{
    let doc = parse_json(body);
    match doc {
        JsonDoc::Invalid(e) => Err(e),
        _ => ubi_ticket_header(&doc),
    }
}

/// `ubi_v1 t=<ticket>`, from the ticket of the Ubisoft session service's answer.
pub fn ubi_ticket_header(body: &JsonDoc) -> (r: Result<String, String>)
    ensures
        match str_member(body@, "ticket"@) {
            Some(t) => r matches Ok(h) && h@ == "ubi_v1 t="@ + t,
            None => r matches Err(e) && e@ == "No ticket in response"@,
        },
{
    match str_member_of(body, "ticket") {
        Some(t) => {
            let mut h = "ubi_v1 t=".to_owned();
            h.append(t.as_str());
            Ok(h)
        },
        None => Err("No ticket in response".to_owned()),
    }
}

} // verus!
