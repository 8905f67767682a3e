//! B2B: local validation of access tokens, role and permission checks, and
//! the single sign-on login URL.
use std::sync::Arc;
use vstd::prelude::*;
use vstd::string::*;
use crate::base64::{base64url_decoded, decode_base64_url};
use crate::errors::SerafortError;
use crate::json::{json_error_text, parse_json, parsed_json, JsonValue};
use crate::text::{
    has_prefix, is_white_space, law_percent_decoding_inverts_encoding, law_percent_encoding_has_no_delimiters,
    law_words_are_text_without_white_space, lemma_split_chars_extend, percent_decode, percent_encode, split_chars, split_on_char, starts_with, str_eq, strip_wildcard,
    split_whitespace, strip_wildcard_suffix, trim_end_slashes, trim_trailing_slashes, urlencoding, whitespace_words,
};
use crate::types::{SerafortConfig, UserContext};

verus! {

broadcast use vstd::string::group_string_axioms;

/// The B2B half of the client: it checks tokens that users present.
pub struct B2BModule {
    config: Arc<SerafortConfig>,
}

// ----- tokens -----

/// The dot-separated segments of a token; a compact JWT has three.
pub open spec fn jwt_segments(token: Seq<char>) -> Seq<Seq<char>> {
    split_chars(token, '.')
}

/// Splits a compact JWT and decodes its middle (payload) segment from
/// base64url. Fails unless the token has exactly three segments.
pub fn jwt_payload(token: &str) -> (r: Result<Vec<u8>, SerafortError>)
    ensures
        jwt_segments(token@).len() != 3 ==> (r matches Err(SerafortError::Authentication(m)) && m@
            == "Invalid JWT: expected 3 parts"@),
        jwt_segments(token@).len() == 3 ==> (r matches Ok(bytes) && bytes@ == base64url_decoded(
            jwt_segments(token@)[1],
        )),
{
    let parts = split_on_char(token, '.');
    if parts.len() != 3 {
        return Err(SerafortError::Authentication(String::from_str("Invalid JWT: expected 3 parts")));
    }
    assert(parts@[1]@ == jwt_segments(token@)[1]);
    match decode_base64_url(parts[1].as_str()) {
        Ok(bytes) => Ok(bytes),
        Err(e) => {
            let mut message = String::from_str("Failed to base64url decode payload: ");
            message.append(e.as_str());
            Err(SerafortError::Authentication(message))
        },
    }
}

/// `a` when it is there, otherwise `b`: `Option::or_else`.
pub open spec fn first_of(a: Option<JsonValue>, b: Option<JsonValue>) -> Option<JsonValue> {
    if a is Some {
        a
    } else {
        b
    }
}

/// The text of a claim that is a string, or the empty text.
pub open spec fn text_or_empty(v: Option<JsonValue>) -> Seq<char> {
    match v {
        Some(x) => match x.text() {
            Some(t) => t,
            None => Seq::empty(),
        },
        None => Seq::empty(),
    }
}

/// The member `inner` of the member `outer` of `c`.
pub open spec fn nested_field(c: JsonValue, outer: Seq<char>, inner: Seq<char>) -> Option<JsonValue> {
    match c.field(outer) {
        Some(m) => m.field(inner),
        None => None,
    }
}

/// The strings among `items`, in order; other values are left out.
pub open spec fn texts_of(items: Seq<JsonValue>) -> Seq<Seq<char>>
    decreases items.len(),
{
    if items.len() == 0 {
        Seq::empty()
    } else {
        let before = texts_of(items.drop_last());
        match items.last().text() {
            Some(t) => before.push(t),
            None => before,
        }
    }
}

/// The expiry time (`exp`) of the claims, when it is a non-negative integer.
pub open spec fn claimed_expiry(c: JsonValue) -> Option<u64> {
    match c.field("exp"@) {
        Some(v) => v.unsigned(),
        None => None,
    }
}

/// The issuer (`iss`) of the claims, when it is a string.
pub open spec fn claimed_issuer(c: JsonValue) -> Option<Seq<char>> {
    match c.field("iss"@) {
        Some(v) => v.text(),
        None => None,
    }
}

/// The user id: the first of `sub`, `id`, `user_id` that is present, when it
/// is a string.
pub open spec fn claimed_user_id(c: JsonValue) -> Seq<char> {
    text_or_empty(first_of(c.field("sub"@), first_of(c.field("id"@), c.field("user_id"@))))
}

/// The tenant id: the first of `tenant_id`, `org_id`, `tid` and
/// `app_metadata.tenant_id` that is present, when it is a string.
pub open spec fn claimed_tenant_id(c: JsonValue) -> Seq<char> {
    text_or_empty(
        first_of(
            c.field("tenant_id"@),
            first_of(
                c.field("org_id"@),
                first_of(c.field("tid"@), nested_field(c, "app_metadata"@, "tenant_id"@)),
            ),
        ),
    )
}

/// The e-mail address, when `email` is a string.
pub open spec fn claimed_email(c: JsonValue) -> Option<Seq<char>> {
    match c.field("email"@) {
        Some(v) => v.text(),
        None => None,
    }
}

/// The roles: the strings of the array `roles`, or else the string `role`.
pub open spec fn claimed_roles(c: JsonValue) -> Seq<Seq<char>> {
    match c.field("roles"@) {
        Some(v) if v.elements() is Some => texts_of(v.elements().unwrap()),
        _ => match c.field("role"@) {
            Some(r) if r.text() is Some => seq![r.text().unwrap()],
            _ => Seq::empty(),
        },
    }
}

/// The permissions: the strings of the array `permissions`, or else the
/// words of the string `scope`.
pub open spec fn claimed_permissions(c: JsonValue) -> Seq<Seq<char>> {
    match c.field("permissions"@) {
        Some(v) if v.elements() is Some => texts_of(v.elements().unwrap()),
        _ => match c.field("scope"@) {
            Some(s) if s.text() is Some => whitespace_words(s.text().unwrap()),
            _ => Seq::empty(),
        },
    }
}

/// The text of an optional string.
pub open spec fn opt_text(o: Option<String>) -> Option<Seq<char>> {
    match o {
        Some(s) => Some(s@),
        None => None,
    }
}

/// The texts of a list of strings.
pub open spec fn texts(v: Seq<String>) -> Seq<Seq<char>> {
    v.map_values(|s: String| s@)
}

/// `u` is the user that the claims `c` describe.
pub open spec fn describes(u: UserContext, c: JsonValue) -> bool {
    &&& u.user_id@ == claimed_user_id(c)
    &&& u.tenant_id@ == claimed_tenant_id(c)
    &&& opt_text(u.email) == claimed_email(c)
    &&& texts(u.roles@) == claimed_roles(c)
    &&& texts(u.permissions@) == claimed_permissions(c)
    &&& u.claims == c
}

/// Whether claims that expire at `exp` are out of date at `now`, with one
/// minute of tolerance.
pub open spec fn expired(c: JsonValue, now: u64) -> bool {
    match claimed_expiry(c) {
        Some(exp) => now > exp + 60,
        None => false,
    }
}

/// Whether the claims name an issuer other than `endpoint` (both compared
/// without trailing slashes).
pub open spec fn wrong_issuer(c: JsonValue, endpoint: Seq<char>) -> bool {
    match claimed_issuer(c) {
        Some(iss) => trim_trailing_slashes(iss) != trim_trailing_slashes(endpoint),
        None => false,
    }
}

/// The message that a wrong issuer is refused with.
pub open spec fn wrong_issuer_message(c: JsonValue, endpoint: Seq<char>) -> Seq<char> {
    "Invalid issuer: expected '"@ + trim_trailing_slashes(endpoint) + "', got '"@
        + claimed_issuer(c).unwrap() + "'"@
}

/// What checking the claims `c` at `now` for the service at `endpoint` gives:
/// refusal when they are out of date, else refusal when they name another
/// issuer, else the user that they describe.
pub open spec fn claims_outcome(
    r: Result<UserContext, SerafortError>,
    c: JsonValue,
    endpoint: Seq<char>,
    now: u64,
) -> bool {
    if expired(c, now) {
        r matches Err(SerafortError::Authentication(m)) && m@ == "Token has expired"@
    } else if wrong_issuer(c, endpoint) {
        r matches Err(SerafortError::Authentication(m)) && m@ == wrong_issuer_message(c, endpoint)
    } else {
        r matches Ok(u) && describes(u, c)
    }
}

/// The claims that a token carries: the JSON read from its decoded payload,
/// when it has three segments.
pub open spec fn token_claims(token: Seq<char>) -> Option<JsonValue> {
    if jwt_segments(token).len() == 3 {
        parsed_json(base64url_decoded(jwt_segments(token)[1]))
    } else {
        None
    }
}

/// The expiry of the token's claims, plus the minute of tolerance, fits in a
/// `u64`.
pub open spec fn expiry_in_range(token: Seq<char>) -> bool {
    token_claims(token) matches Some(c) ==> (claimed_expiry(c) matches Some(exp) ==> exp + 60
        <= u64::MAX)
}

/// The bound that `validate_token` needs holds exactly unless the token's
/// claims hold an `exp` above `u64::MAX - 60`.
pub proof fn law_expiry_bound(token: Seq<char>)
    ensures
        !expiry_in_range(token) <==> (token_claims(token) matches Some(c) && (c.field("exp"@) matches Some(
            JsonValue::PosInt(e),
        ) && e > u64::MAX - 60)),
{
}

/// What validating `token` at `now` for the service at `endpoint` gives.
pub open spec fn token_outcome(
    r: Result<UserContext, SerafortError>,
    token: Seq<char>,
    endpoint: Seq<char>,
    now: u64,
) -> bool {
    let segments = jwt_segments(token);
    if segments.len() != 3 {
        r matches Err(SerafortError::Authentication(m)) && m@ == "Invalid JWT: expected 3 parts"@
    } else {
        let payload = base64url_decoded(segments[1]);
        match parsed_json(payload) {
            None => r matches Err(SerafortError::Authentication(m)) && m@
                == "Failed to parse JWT claims: "@ + json_error_text(payload),
            Some(c) => claims_outcome(r, c, endpoint, now),
        }
    }
}

// ----- permissions -----

/// Whether the single permission `perm` grants `required`: `*` grants
/// everything, a permission grants itself, and the wildcard `p:*` grants
/// everything that begins with `p:`.
pub open spec fn permission_grants(perm: Seq<char>, required: Seq<char>) -> bool {
    ||| perm == "*"@
    ||| perm == required
    ||| match strip_wildcard(perm) {
        Some(prefix) => has_prefix(required, prefix),
        None => false,
    }
}

/// Whether some permission in `perms` grants `required`.
pub open spec fn permissions_grant(perms: Seq<Seq<char>>, required: Seq<char>) -> bool {
    exists|i: int| 0 <= i < perms.len() && permission_grants(#[trigger] perms[i], required)
}

/// Whether `roles` holds `role`.
pub open spec fn has_role_in(roles: Seq<Seq<char>>, role: Seq<char>) -> bool {
    exists|i: int| 0 <= i < roles.len() && #[trigger] roles[i] == role
}

/// The URL that starts single sign-on for `tenant_id`, returning to
/// `redirect_uri`; both are URL-encoded from their UTF-8 bytes.
pub open spec fn login_url(endpoint: Seq<char>, tenant_id: Seq<u8>, redirect_uri: Seq<u8>) -> Seq<char> {
    trim_trailing_slashes(endpoint) + "/api/auth/sso/login?tenant_id="@ + percent_encode(tenant_id)
        + "&redirect_uri="@ + percent_encode(redirect_uri)
}

/// The text of a claim that is a string, or the empty string.
fn string_or_empty(v: Option<&JsonValue>) -> (r: String)
    ensures
        r@ == text_or_empty(
            match v {
                Some(x) => Some(*x),
                None => None,
            },
        ),
{
    match v {
        Some(x) => match x.as_str() {
            Some(s) => String::from_str(s),
            None => String::new(),
        },
        None => String::new(),
    }
}

/// The strings among `items`, in order.
fn collect_texts(items: &Vec<JsonValue>) -> (r: Vec<String>)
    ensures
        texts(r@) == texts_of(items@),
{
    let mut out: Vec<String> = Vec::new();
    let mut i: usize = 0;
    while i < items.len()
        invariant
            i <= items@.len(),
            texts(out@) == texts_of(items@.take(i as int)),
        decreases items@.len() - i,
    {
        assert(items@.take(i + 1).drop_last() =~= items@.take(i as int));
        match items[i].as_str() {
            Some(s) => {
                out.push(String::from_str(s));
                assert(texts(out@) =~= texts_of(items@.take(i + 1)));
            },
            None => {},
        }
        i = i + 1;
    }
    assert(items@.take(items@.len() as int) =~= items@);
    out
}

/// The first of two optional claims that is present.
fn first_present<'a>(a: Option<&'a JsonValue>, b: Option<&'a JsonValue>) -> (r: Option<&'a JsonValue>)
    ensures
        match r {
            Some(x) => first_of(
                match a {
                    Some(y) => Some(*y),
                    None => None,
                },
                match b {
                    Some(y) => Some(*y),
                    None => None,
                },
            ) == Some(*x),
            None => a is None && b is None,
        },
{
    match a {
        Some(x) => Some(x),
        None => b,
    }
}

// ----- laws -----

/// A `*` permission grants every permission.
pub proof fn law_star_grants_everything(perms: Seq<Seq<char>>, required: Seq<char>)
    requires
        perms.contains("*"@),
    ensures
        permissions_grant(perms, required),
{
    let i = choose|i: int| 0 <= i < perms.len() && perms[i] == "*"@;
    assert(permission_grants(perms[i], required));
}

/// A permission grants itself.
pub proof fn law_permission_grants_itself(perms: Seq<Seq<char>>, required: Seq<char>)
    requires
        perms.contains(required),
    ensures
        permissions_grant(perms, required),
{
    let i = choose|i: int| 0 <= i < perms.len() && perms[i] == required;
    assert(permission_grants(perms[i], required));
}

/// `prefix:*` grants every permission that begins with `prefix:`.
pub proof fn law_prefix_wildcard_grants(
    perms: Seq<Seq<char>>,
    prefix: Seq<char>,
    required: Seq<char>,
)
    requires
        perms.contains(prefix + ":*"@),
        has_prefix(required, prefix + ":"@),
    ensures
        permissions_grant(perms, required),
{
    reveal_strlit(":*");
    reveal_strlit(":");
    let w = prefix + ":*"@;
    let i = choose|i: int| 0 <= i < perms.len() && perms[i] == w;
    assert(w.take(w.len() - 1) =~= prefix + ":"@);
    assert(strip_wildcard(w) == Some(prefix + ":"@));
    assert(permission_grants(perms[i], required));
}

/// Without permissions nothing is granted.
pub proof fn law_no_permissions_grant_nothing(required: Seq<char>)
    ensures
        !permissions_grant(Seq::empty(), required),
{
}

/// Adding permissions never takes a granted permission away.
pub proof fn law_more_permissions_grant_more(
    perms: Seq<Seq<char>>,
    more: Seq<Seq<char>>,
    required: Seq<char>,
)
    requires
        permissions_grant(perms, required),
    ensures
        permissions_grant(perms + more, required),
{
    let i = choose|i: int| 0 <= i < perms.len() && permission_grants(#[trigger] perms[i], required);
    assert((perms + more)[i] == perms[i]);
}

proof fn lemma_trim_slash_appended(e: Seq<char>)
    ensures
        trim_trailing_slashes(e.push('/')) == trim_trailing_slashes(e),
{
    assert(e.push('/').drop_last() =~= e);
}

/// A trailing slash on the endpoint changes neither the login URL nor the
/// issuer check.
pub proof fn law_endpoint_trailing_slash(
    endpoint: Seq<char>,
    tenant_id: Seq<u8>,
    redirect_uri: Seq<u8>,
    c: JsonValue,
)
    ensures
        login_url(endpoint.push('/'), tenant_id, redirect_uri) == login_url(
            endpoint,
            tenant_id,
            redirect_uri,
        ),
        wrong_issuer(c, endpoint.push('/')) == wrong_issuer(c, endpoint),
{
    lemma_trim_slash_appended(endpoint);
}

/// The path of the login URL.
pub open spec fn login_path(endpoint: Seq<char>) -> Seq<char> {
    trim_trailing_slashes(endpoint) + "/api/auth/sso/login"@
}

/// The query of the login URL.
pub open spec fn login_query(tenant_id: Seq<u8>, redirect_uri: Seq<u8>) -> Seq<char> {
    "tenant_id="@ + percent_encode(tenant_id) + seq!['&'] + "redirect_uri="@ + percent_encode(
        redirect_uri,
    )
}

proof fn lemma_trim_is_prefix(e: Seq<char>)
    ensures
        trim_trailing_slashes(e).len() <= e.len(),
        trim_trailing_slashes(e) == e.take(trim_trailing_slashes(e).len() as int),
    decreases e.len(),
{
    if e.len() > 0 && e.last() == '/' {
        lemma_trim_is_prefix(e.drop_last());
        let t = trim_trailing_slashes(e);
        assert(e.drop_last().take(t.len() as int) =~= e.take(t.len() as int));
    } else {
        assert(e.take(e.len() as int) =~= e);
    }
}

/// The login URL is its path, one `?` and a query of exactly two
/// parameters, `tenant_id` and `redirect_uri`, whose values percent-decode
/// to the bytes that were given (when the endpoint holds no `?`).
pub proof fn law_login_url_shape(endpoint: Seq<char>, tenant_id: Seq<u8>, redirect_uri: Seq<u8>)
    requires
        !endpoint.contains('?'),
    ensures
        login_url(endpoint, tenant_id, redirect_uri) == login_path(endpoint) + seq!['?']
            + login_query(tenant_id, redirect_uri),
        !login_path(endpoint).contains('?'),
        !login_query(tenant_id, redirect_uri).contains('?'),
        split_chars(login_query(tenant_id, redirect_uri), '&') == seq![
            "tenant_id="@ + percent_encode(tenant_id),
            "redirect_uri="@ + percent_encode(redirect_uri),
        ],
        percent_decode(percent_encode(tenant_id)) == Some(tenant_id),
        percent_decode(percent_encode(redirect_uri)) == Some(redirect_uri),
{
    reveal_strlit("/api/auth/sso/login?tenant_id=");
    reveal_strlit("/api/auth/sso/login");
    reveal_strlit("tenant_id=");
    reveal_strlit("&redirect_uri=");
    reveal_strlit("redirect_uri=");
    let et = percent_encode(tenant_id);
    let er = percent_encode(redirect_uri);
    law_percent_encoding_has_no_delimiters(tenant_id);
    law_percent_encoding_has_no_delimiters(redirect_uri);
    law_percent_decoding_inverts_encoding(tenant_id);
    law_percent_decoding_inverts_encoding(redirect_uri);
    assert("/api/auth/sso/login?tenant_id="@ =~= "/api/auth/sso/login"@ + seq!['?'] + "tenant_id="@);
    assert("&redirect_uri="@ =~= seq!['&'] + "redirect_uri="@);
    let trimmed = trim_trailing_slashes(endpoint);
    assert(login_url(endpoint, tenant_id, redirect_uri) =~= login_path(endpoint) + seq!['?']
        + login_query(tenant_id, redirect_uri));
    // No `?` before the query.
    lemma_trim_is_prefix(endpoint);
    let path = login_path(endpoint);
    assert forall|i: int| 0 <= i < path.len() implies path[i] != '?' by {
        if i < trimmed.len() {
            assert(path[i] == endpoint[i]);
        } else {
            assert(path[i] == "/api/auth/sso/login"@[i - trimmed.len()]);
        }
    }
    // Neither `?` nor `&` inside either parameter.
    let a = "tenant_id="@ + et;
    let b = "redirect_uri="@ + er;
    assert forall|i: int| 0 <= i < a.len() implies a[i] != '?' && a[i] != '&' by {
        if i >= 10 {
            assert(a[i] == et[i - 10]);
        }
    }
    assert forall|i: int| 0 <= i < b.len() implies b[i] != '?' && b[i] != '&' by {
        if i >= 13 {
            assert(b[i] == er[i - 13]);
        }
    }
    let q = login_query(tenant_id, redirect_uri);
    assert(q =~= a.push('&') + b);
    assert forall|i: int| 0 <= i < q.len() implies q[i] != '?' by {
        if i < a.len() {
            assert(q[i] == a[i]);
        } else if i > a.len() {
            assert(q[i] == b[i - a.len() - 1]);
        }
    }
    // The query splits into the two parameters.
    lemma_split_chars_extend(Seq::empty(), a, '&');
    assert(split_chars(Seq::<char>::empty(), '&') =~= seq![Seq::<char>::empty()]);
    assert(Seq::<char>::empty() + a =~= a);
    assert(split_chars(a, '&') =~= seq![a]);
    assert(a.push('&').drop_last() =~= a);
    assert(split_chars(a.push('&'), '&') =~= seq![a, Seq::<char>::empty()]);
    lemma_split_chars_extend(a.push('&'), b, '&');
    assert(Seq::<char>::empty() + b =~= b);
    assert(split_chars(q, '&') =~= seq![a, b]);
}

/// The expiry tolerance is one minute, whatever the expiry: claims whose
/// `exp` is a non-negative integer are refused as out of date exactly when
/// `now` is more than 60 seconds past it (and, without an issuer, accepted
/// otherwise).
pub proof fn law_expiry_tolerance_is_one_minute(
    r: Result<UserContext, SerafortError>,
    c: JsonValue,
    endpoint: Seq<char>,
    now: u64,
    exp: u64,
)
    requires
        c.field("exp"@) == Some(JsonValue::PosInt(exp)),
        claims_outcome(r, c, endpoint, now),
    ensures
        now > exp + 60 ==> (r matches Err(SerafortError::Authentication(m)) && m@
            == "Token has expired"@),
        now <= exp + 60 && c.field("iss"@) is None ==> r is Ok,
{
}

proof fn lemma_texts_of_strings(items: Seq<JsonValue>)
    requires
        forall|i: int| 0 <= i < items.len() ==> #[trigger] items[i] is Str,
    ensures
        texts_of(items) == items.map_values(|v: JsonValue| v.text().unwrap()),
    decreases items.len(),
{
    if items.len() > 0 {
        lemma_texts_of_strings(items.drop_last());
        assert(items.last() == items[items.len() - 1]);
        assert(texts_of(items) =~= items.map_values(|v: JsonValue| v.text().unwrap()));
    }
}

/// Which claims the user is read from: the user id from `sub`, else `id`,
/// else `user_id` (the first that is present, even when it is not a
/// string); the tenant from `tenant_id` or, failing the others,
/// `app_metadata.tenant_id`; the e-mail from `email`; the roles from the
/// array `roles`, else the string `role`; the permissions from the array
/// `permissions`, else the words of `scope`; and the claims themselves.
pub proof fn law_user_read_from_claims(
    r: Result<UserContext, SerafortError>,
    c: JsonValue,
    endpoint: Seq<char>,
    now: u64,
)
    requires
        claims_outcome(r, c, endpoint, now),
        r is Ok,
    ensures
        ({
            let u = r.unwrap();
            &&& (c.field("sub"@) matches Some(JsonValue::Str(s)) ==> u.user_id@ == s@)
            &&& (c.field("sub"@) matches Some(v) ==> (!(v is Str) ==> u.user_id@.len() == 0))
            &&& (c.field("id"@) matches Some(JsonValue::Str(s)) ==> (c.field("sub"@) is None
                ==> u.user_id@ == s@))
            &&& (c.field("user_id"@) matches Some(JsonValue::Str(s)) ==> (c.field("sub"@) is None
                && c.field("id"@) is None ==> u.user_id@ == s@))
            &&& (c.field("sub"@) is None && c.field("id"@) is None && c.field("user_id"@) is None
                ==> u.user_id@.len() == 0)
            &&& (c.field("tenant_id"@) matches Some(JsonValue::Str(s)) ==> u.tenant_id@ == s@)
            &&& (c.field("app_metadata"@) matches Some(m) ==> (m.field("tenant_id"@) matches Some(
                JsonValue::Str(s),
            ) ==> (c.field("tenant_id"@) is None && c.field("org_id"@) is None && c.field(
                "tid"@,
            ) is None ==> u.tenant_id@ == s@)))
            &&& (c.field("email"@) matches Some(JsonValue::Str(s)) ==> u.email matches Some(e)
                && e@ == s@)
            &&& (!(c.field("email"@) matches Some(JsonValue::Str(_))) ==> u.email is None)
            &&& (c.field("roles"@) matches Some(JsonValue::Array(items)) ==> ((forall|i: int|
                0 <= i < items@.len() ==> #[trigger] items@[i] is Str) ==> texts(u.roles@)
                == items@.map_values(|v: JsonValue| v.text().unwrap())))
            &&& (c.field("role"@) matches Some(JsonValue::Str(s)) ==> (!(c.field("roles"@) matches Some(
                JsonValue::Array(_),
            )) ==> texts(u.roles@) == seq![s@]))
            &&& (c.field("permissions"@) matches Some(JsonValue::Array(items)) ==> ((forall|i: int|
                0 <= i < items@.len() ==> #[trigger] items@[i] is Str) ==> texts(u.permissions@)
                == items@.map_values(|v: JsonValue| v.text().unwrap())))
            &&& (c.field("scope"@) matches Some(JsonValue::Str(s)) ==> (!(c.field(
                "permissions"@,
            ) matches Some(JsonValue::Array(_))) ==> texts(u.permissions@).flatten() == s@.filter(
                |ch: char| !is_white_space(ch),
            )))
            &&& (u.claims == c)
        }),
{
    let u = r.unwrap();
    if let Some(JsonValue::Array(items)) = c.field("roles"@) {
        if forall|i: int| 0 <= i < items@.len() ==> #[trigger] items@[i] is Str {
            lemma_texts_of_strings(items@);
        }
    }
    if let Some(JsonValue::Array(items)) = c.field("permissions"@) {
        if forall|i: int| 0 <= i < items@.len() ==> #[trigger] items@[i] is Str {
            lemma_texts_of_strings(items@);
        }
    }
    if let Some(JsonValue::Str(s)) = c.field("scope"@) {
        law_words_are_text_without_white_space(s@);
    }
}

/// The issuer check: with claims that are not out of date, a named issuer
/// that differs from the endpoint once trailing slashes are dropped is
/// refused with a message naming both, and one that matches is accepted.
pub proof fn law_issuer_check(
    r: Result<UserContext, SerafortError>,
    c: JsonValue,
    endpoint: Seq<char>,
    now: u64,
    iss: String,
)
    requires
        claims_outcome(r, c, endpoint, now),
        !expired(c, now),
        c.field("iss"@) == Some(JsonValue::Str(iss)),
    ensures
        trim_trailing_slashes(iss@) != trim_trailing_slashes(endpoint) ==> (r matches Err(
            SerafortError::Authentication(m),
        ) && m@ == "Invalid issuer: expected '"@ + trim_trailing_slashes(endpoint) + "', got '"@
            + iss@ + "'"@),
        trim_trailing_slashes(iss@) == trim_trailing_slashes(endpoint) ==> r is Ok,
{
}

/// Only `*`, the permission itself, or a wildcard `p:*` for a permission
/// that begins with `p:` grants a permission.
pub proof fn law_only_listed_grants(perms: Seq<Seq<char>>, required: Seq<char>)
    requires
        permissions_grant(perms, required),
    ensures
        exists|i: int|
            0 <= i < perms.len() && {
                let p = #[trigger] perms[i];
                ||| p == seq!['*']
                ||| p == required
                ||| (p.len() >= 2 && p[p.len() - 2] == ':' && p[p.len() - 1] == '*' && required.len()
                    >= p.len() - 1 && required.take(p.len() - 1) == p.take(p.len() - 1))
            },
{
    reveal_strlit("*");
    let i = choose|i: int| 0 <= i < perms.len() && permission_grants(#[trigger] perms[i], required);
    assert("*"@ =~= seq!['*']);
    let p = perms[i];
    if p.len() >= 2 && p[p.len() - 2] == ':' && p[p.len() - 1] == '*' {
        assert(strip_wildcard(p) == Some(p.take(p.len() - 1)));
    }
}

/// A user has a role exactly when the role is among the user's roles.
pub proof fn law_has_role_iff_listed(roles: Seq<Seq<char>>, role: Seq<char>)
    ensures
        has_role_in(roles, role) <==> roles.contains(role),
{
}

/// Claims that are not yet out of date at `now` were not out of date before.
pub proof fn law_expiry_is_final(c: JsonValue, earlier: u64, now: u64)
    requires
        earlier <= now,
        !expired(c, now),
    ensures
        !expired(c, earlier),
{
}

impl B2BModule {
    /// The endpoint of the configuration that the module was made with.
    pub closed spec fn endpoint(&self) -> Seq<char> {
        self.config.endpoint@
    }

    pub fn new(config: Arc<SerafortConfig>) -> (r: Self)
        ensures
            r.endpoint() == config.endpoint@,
    {
        B2BModule { config }
    }

    /// Validates a user token locally at `now` (seconds since the Unix
    /// epoch): splits it, decodes its payload, reads the claims as JSON and
    /// checks them with `validate_claims`.
    pub fn validate_token(&self, token: &str, now: u64) -> (r: Result<UserContext, SerafortError>)
        requires
            expiry_in_range(token@),
        ensures
            token_outcome(r, token@, self.endpoint(), now),
    {
        let payload = match jwt_payload(token) {
            Ok(bytes) => bytes,
            Err(e) => return Err(e),
        };
        let claims = match parse_json(payload.as_slice()) {
            Ok(c) => c,
            Err(e) => {
                let mut message = String::from_str("Failed to parse JWT claims: ");
                message.append(e.as_str());
                return Err(SerafortError::Authentication(message));
            },
        };
        self.validate_claims(claims, now)
    }

    /// `validate_token`, or nothing when the token's expiry is so large
    /// that adding the minute of tolerance overflows.
    pub fn try_validate_token(&self, token: &str, now: u64) -> (r: Option<
        Result<UserContext, SerafortError>,
    >)
        ensures
            r is None <==> !expiry_in_range(token@),
            r matches Some(outcome) ==> token_outcome(outcome, token@, self.endpoint(), now),
    {
        let payload = match jwt_payload(token) {
            Ok(bytes) => bytes,
            Err(_) => return Some(self.validate_token(token, now)),
        };
        match parse_json(payload.as_slice()) {
            Ok(c) => {
                match c.get("exp") {
                    Some(v) => match v.as_u64() {
                        Some(exp) => {
                            if exp > u64::MAX - 60 {
                                return None;
                            }
                        },
                        None => {},
                    },
                    None => {},
                }
            },
            Err(_) => {},
        }
        Some(self.validate_token(token, now))
    }

    /// Checks decoded token claims at time `now` (seconds since the Unix
    /// epoch): the token must not have expired more than a minute ago, and
    /// its issuer, if it names one, must be this module's endpoint (trailing
    /// slashes aside). Then the user that the claims describe is returned.
    pub fn validate_claims(&self, claims: JsonValue, now: u64) -> (r: Result<UserContext, SerafortError>)
        requires
            claimed_expiry(claims) matches Some(exp) ==> exp + 60 <= u64::MAX,
        ensures
            claims_outcome(r, claims, self.endpoint(), now),
    {
        match claims.get("exp") {
            Some(v) => match v.as_u64() {
                Some(exp) => {
                    if now > exp + 60 {
                        return Err(
                            SerafortError::Authentication(String::from_str("Token has expired")),
                        );
                    }
                },
                None => {},
            },
            None => {},
        }
        let expected_iss = trim_end_slashes(self.config.endpoint.as_str());
        match claims.get("iss") {
            Some(v) => match v.as_str() {
                Some(iss) => {
                    if !str_eq(trim_end_slashes(iss), expected_iss) {
                        let mut message = String::from_str("Invalid issuer: expected '");
                        message.append(expected_iss);
                        message.append("', got '");
                        message.append(iss);
                        message.append("'");
                        return Err(SerafortError::Authentication(message));
                    }
                },
                None => {},
            },
            None => {},
        }
        self.map_claims_to_user(claims)
    }

    /// The user that the claims describe.
    fn map_claims_to_user(&self, claims: JsonValue) -> (r: Result<UserContext, SerafortError>)
        ensures
            r matches Ok(u) && describes(u, claims),
    {
        let user_id = string_or_empty(
            first_present(claims.get("sub"), first_present(claims.get("id"), claims.get("user_id"))),
        );
        let app_tenant = match claims.get("app_metadata") {
            Some(m) => m.get("tenant_id"),
            None => None,
        };
        let tenant_id = string_or_empty(
            first_present(
                claims.get("tenant_id"),
                first_present(claims.get("org_id"), first_present(claims.get("tid"), app_tenant)),
            ),
        );
        let email = match claims.get("email") {
            Some(v) => match v.as_str() {
                Some(s) => Some(String::from_str(s)),
                None => None,
            },
            None => None,
        };
        let mut roles: Vec<String> = Vec::new();
        let role_list = match claims.get("roles") {
            Some(v) => v.as_array(),
            None => None,
        };
        match role_list {
            Some(items) => {
                roles = collect_texts(items);
            },
            None => match claims.get("role") {
                Some(v) => match v.as_str() {
                    Some(s) => {
                        roles.push(String::from_str(s));
                        assert(texts(roles@) =~= seq![s@]);
                    },
                    None => {},
                },
                None => {},
            },
        }
        let mut permissions: Vec<String> = Vec::new();
        let permission_list = match claims.get("permissions") {
            Some(v) => v.as_array(),
            None => None,
        };
        match permission_list {
            Some(items) => {
                permissions = collect_texts(items);
            },
            None => match claims.get("scope") {
                Some(v) => match v.as_str() {
                    Some(s) => {
                        permissions = split_whitespace(s);
                    },
                    None => {},
                },
                None => {},
            },
        }
        assert(texts(roles@) =~= claimed_roles(claims));
        assert(texts(permissions@) =~= claimed_permissions(claims));
        Ok(UserContext { user_id, tenant_id, email, roles, permissions, claims })
    }

    /// Whether one of the user's permissions grants `required_permission`.
    pub fn has_permission(&self, user: &UserContext, required_permission: &str) -> (r: bool)
        ensures
            r == permissions_grant(texts(user.permissions@), required_permission@),
    {
        if user.permissions.is_empty() {
            return false;
        }
        let ghost perms = texts(user.permissions@);
        let mut i: usize = 0;
        while i < user.permissions.len()
            invariant
                perms == texts(user.permissions@),
                i <= user.permissions@.len(),
                forall|j: int| 0 <= j < i ==> !permission_grants(#[trigger] perms[j], required_permission@),
            decreases user.permissions@.len() - i,
        {
            let perm = user.permissions[i].as_str();
            assert(perms[i as int] == perm@);
            if str_eq(perm, "*") || str_eq(perm, required_permission) {
                return true;
            }
            match strip_wildcard_suffix(perm) {
                Some(prefix) => {
                    if starts_with(required_permission, prefix) {
                        return true;
                    }
                },
                None => {},
            }
            i = i + 1;
        }
        false
    }

    /// Whether the user has the role `required_role`.
    pub fn has_role(&self, user: &UserContext, required_role: &str) -> (r: bool)
        ensures
            r == has_role_in(texts(user.roles@), required_role@),
    {
        let ghost roles = texts(user.roles@);
        let mut i: usize = 0;
        while i < user.roles.len()
            invariant
                roles == texts(user.roles@),
                i <= user.roles@.len(),
                forall|j: int| 0 <= j < i ==> #[trigger] roles[j] != required_role@,
            decreases user.roles@.len() - i,
        {
            assert(roles[i as int] == user.roles@[i as int]@);
            if str_eq(user.roles[i].as_str(), required_role) {
                return true;
            }
            i = i + 1;
        }
        false
    }

    /// The single sign-on login URL for a tenant.
    pub fn get_login_url(&self, tenant_id: &str, redirect_uri: &str) -> (r: String)
        ensures
            r@ == login_url(self.endpoint(), tenant_id.spec_bytes(), redirect_uri.spec_bytes()),
    {
        let base = trim_end_slashes(self.config.endpoint.as_str());
        let mut url = String::from_str(base);
        url.append("/api/auth/sso/login?tenant_id=");
        let tenant = urlencoding(tenant_id);
        url.append(tenant.as_str());
        url.append("&redirect_uri=");
        let redirect = urlencoding(redirect_uri);
        url.append(redirect.as_str());
        url
    }
}

} // verus!
