//! Machine-to-machine tokens: what is asked for, when the cache answers,
//! and the decisions of the retrying token request. Sending the request,
//! waiting between attempts and reading the clock are left to the caller,
//! which reports each outcome back.
use vstd::prelude::*;
use vstd::string::*;
use crate::b2b::{opt_text, texts};
use crate::cache::{fresh_token, new_entry, TokenCache, TokenEntry};
use crate::errors::SerafortError;
use crate::scopes::{join_with_spaces, join_words, sort_strings, text_order};
use crate::text::{rejoin, trim_end_slashes, trim_trailing_slashes};
use crate::types::{OAuthResponse, SerafortConfig};

verus! {

broadcast use vstd::string::group_string_axioms;

/// What a token is requested for: the key it is cached under, and the scope
/// sent with the request.
#[derive(Debug)]
pub struct TokenRequest {
    pub cache_key: String,
    pub scope: Option<String>,
}

/// The texts of the requested scopes; none requested is the same as an
/// empty list.
pub open spec fn requested_scopes(scopes: Option<Vec<String>>) -> Seq<Seq<char>> {
    match scopes {
        Some(v) => texts(v@),
        None => Seq::empty(),
    }
}

/// The scope string: the scopes in `String` order, joined by spaces.
pub open spec fn scope_string(scopes: Seq<Seq<char>>) -> Seq<char> {
    join_words(scopes.sort_by(text_order()))
}

/// The cache key: the client id (or `default`), a colon and the scope
/// string.
pub open spec fn cache_key_for(client_id: Option<Seq<char>>, scope: Seq<char>) -> Seq<char> {
    let id = match client_id {
        Some(id) => id,
        None => "default"@,
    };
    id + ":"@ + scope
}

/// The order in which scopes are listed changes neither the scope string
/// nor the cache key.
pub proof fn law_scope_order_irrelevant(a: Seq<Seq<char>>, b: Seq<Seq<char>>)
    requires
        a.to_multiset() == b.to_multiset(),
    ensures
        scope_string(a) == scope_string(b),
{
    crate::scopes::lemma_text_order_total();
    a.lemma_sort_by_ensures(text_order());
    b.lemma_sort_by_ensures(text_order());
    vstd::seq_lib::lemma_sorted_unique(a.sort_by(text_order()), b.sort_by(text_order()), text_order());
}

/// The scope string is the sorted scopes with one space between each, and
/// the cache key is the client id (or `default`), a colon and that string.
pub proof fn law_scope_string_and_key(
    client_id: Option<Seq<char>>,
    scopes: Seq<Seq<char>>,
)
    ensures
        scope_string(scopes) == rejoin(scopes.sort_by(text_order()), ' '),
        cache_key_for(client_id, scope_string(scopes)) == match client_id {
            Some(id) => id,
            None => seq!['d', 'e', 'f', 'a', 'u', 'l', 't'],
        } + seq![':'] + scope_string(scopes),
{
    reveal_strlit("default");
    reveal_strlit(":");
    lemma_join_is_rejoin(scopes.sort_by(text_order()));
    assert("default"@ =~= seq!['d', 'e', 'f', 'a', 'u', 'l', 't']);
    assert(":"@ =~= seq![':']);
}

proof fn lemma_join_is_rejoin(words: Seq<Seq<char>>)
    ensures
        join_words(words) == rejoin(words, ' '),
    decreases words.len(),
{
    if words.len() > 1 {
        lemma_join_is_rejoin(words.drop_last());
    }
}

/// Requests for the same scopes, in any order, and with none requested
/// counted as an empty list, share the cache key and the scope.
pub proof fn law_same_scopes_same_request(
    client_id: Option<Seq<char>>,
    a: Option<Vec<String>>,
    b: Option<Vec<String>>,
)
    requires
        requested_scopes(a).to_multiset() == requested_scopes(b).to_multiset(),
    ensures
        cache_key_for(client_id, scope_string(requested_scopes(a))) == cache_key_for(
            client_id,
            scope_string(requested_scopes(b)),
        ),
        scope_string(requested_scopes(a)) == scope_string(requested_scopes(b)),
{
    law_scope_order_irrelevant(requested_scopes(a), requested_scopes(b));
}

/// A token that the machine-to-machine cache took at `fetched_at`, valid
/// for `expires_in` seconds, answers a later lookup exactly while it has more
/// than five minutes left; other keys are answered as before.
pub proof fn law_m2m_token_served_until_refresh(
    entries: Map<Seq<char>, TokenEntry>,
    key: Seq<char>,
    token: Seq<char>,
    fetched_at: int,
    expires_in: int,
    scope: Option<Seq<char>>,
    other: Seq<char>,
    now: int,
)
    ensures
        fresh_token(
            entries.insert(key, new_entry(token, fetched_at, expires_in, scope)),
            key,
            now,
            300_000_000_000,
        ) == if now + 300_000_000_000 < fetched_at + expires_in * 1_000_000_000 {
            Some(token)
        } else {
            None
        },
        other != key ==> fresh_token(
            entries.insert(key, new_entry(token, fetched_at, expires_in, scope)),
            other,
            now,
            300_000_000_000,
        ) == fresh_token(entries, other, now, 300_000_000_000),
{
}

/// The token request that `config` makes for `scopes`. The scope is sent
/// only when the scope string is not empty.
pub fn token_request(config: &SerafortConfig, scopes: Option<Vec<String>>) -> (r: TokenRequest)
    ensures
        r.cache_key@ == cache_key_for(
            opt_text(config.client_id),
            scope_string(requested_scopes(scopes)),
        ),
        opt_text(r.scope) == if scope_string(requested_scopes(scopes)).len() == 0 {
            None
        } else {
            Some(scope_string(requested_scopes(scopes)))
        },
{
    let listed = match scopes {
        Some(v) => v,
        None => Vec::new(),
    };
    assert(texts(listed@) == requested_scopes(scopes));
    let sorted = sort_strings(&listed);
    let scope_str = join_with_spaces(&sorted);
    let mut cache_key = match &config.client_id {
        Some(id) => id.clone(),
        None => String::from_str("default"),
    };
    cache_key.append(":");
    cache_key.append(scope_str.as_str());
    let scope = if scope_str.as_str().is_empty() {
        None
    } else {
        Some(scope_str)
    };
    TokenRequest { cache_key, scope }
}

/// The cache of machine-to-machine tokens: a token is refreshed five
/// minutes before it expires.
pub fn m2m_token_cache() -> (r: TokenCache)
    ensures
        r.entries() == Map::<Seq<char>, TokenEntry>::empty(),
        r.buffer() == 300_000_000_000,
{
    TokenCache::new(300_000_000_000)
}

/// The cached token that answers `request` at `now`, unless a refresh is
/// forced.
pub fn cached_token(cache: &TokenCache, request: &TokenRequest, force: bool, now: u128) -> (r: Option<
    String,
>)
    requires
        now + cache.buffer() <= u128::MAX,
    ensures
        force ==> r is None,
        !force ==> opt_text(r) == fresh_token(
            cache.entries(),
            request.cache_key@,
            now as int,
            cache.buffer(),
        ),
{
    if force {
        None
    } else {
        cache.get(request.cache_key.as_str(), now)
    }
}

// ----- the retrying token request -----

/// The reason phrase that HTTP gives a status code, if it has one.
pub uninterp spec fn canonical_reason(code: u16) -> Option<Seq<char>>;

/// The decimal digits of a three-digit number.
pub open spec fn three_digits(code: u16) -> Seq<char> {
    seq![
        (48 + code / 100) as char,
        (48 + (code / 10) % 10) as char,
        (48 + code % 10) as char,
    ]
}

/// A three-digit status code is written as its decimal digits, most
/// significant first.
pub proof fn law_status_code_digits(code: u16)
    requires
        100 <= code <= 999,
    ensures
        ({
            let d = three_digits(code);
            &&& d.len() == 3
            &&& forall|i: int| 0 <= i < 3 ==> 48 <= #[trigger] (d[i] as u32) <= 57
            &&& 100 * (d[0] as u32 - 48) + 10 * (d[1] as u32 - 48) + (d[2] as u32 - 48) == code
        }),
{
    let a = code / 100;
    let b = (code / 10) % 10;
    let c = code % 10;
    assert(((48 + a) as char) as u32 == 48 + a);
    assert(((48 + b) as char) as u32 == 48 + b);
    assert(((48 + c) as char) as u32 == 48 + c);
}

/// How a status code is written: its number and its reason phrase.
pub open spec fn status_line(code: u16) -> Seq<char> {
    three_digits(code) + seq![' '] + (match canonical_reason(code) {
        Some(reason) => reason,
        None => "<unknown status code>"@,
    })
}

/// The text of an HTTP status code.
///
/// Trusted: calls the `Display` of `reqwest::StatusCode` (the `http` crate's
/// `StatusCode`), which writes the code's number, a space and its
/// `canonical_reason()` or `<unknown status code>`. The reason phrases
/// themselves are named, not stated.
#[verifier::external_body]
fn status_text(code: u16) -> (r: String)
    requires
        100 <= code <= 999,
    ensures
        r@ == three_digits(code) + seq![' '] + (match canonical_reason(code) {
            Some(reason) => reason,
            None => "<unknown status code>"@,
        }),
{
    match reqwest::StatusCode::from_u16(code) {
        Ok(status) => status.to_string(),
        Err(_) => String::new(),
    }
}

/// What to do next in a token request.
#[derive(Debug)]
pub enum FetchStep {
    /// Send the request; attempts after the first wait first.
    Send { attempt: u32 },
    /// Stop, failing with this error.
    GiveUp(SerafortError),
}

/// How an HTTP answer of the token endpoint is taken.
#[derive(Debug, PartialEq, Eq)]
pub enum StatusClass {
    /// 429 or a server error: try again.
    Retry,
    /// Any other failure: read the body and fail.
    Reject,
    /// Success: read the token from the body.
    Accept,
}

/// A token request in progress.
pub struct TokenFetch {
    token_url: String,
    params: Vec<(String, String)>,
    cache_key: String,
    scope: Option<String>,
    max_retries: u32,
    attempts: u64,
    last_err: Option<SerafortError>,
}

/// The form fields of a token request.
pub open spec fn token_form(id: Seq<char>, secret: Seq<char>, scope: Option<Seq<char>>) -> Seq<
    (Seq<char>, Seq<char>),
> {
    let base = seq![
        ("grant_type"@, "client_credentials"@),
        ("client_id"@, id),
        ("client_secret"@, secret),
    ];
    match scope {
        Some(s) => base.push(("scope"@, s)),
        None => base,
    }
}

/// The texts of a list of string pairs.
pub open spec fn pair_texts(v: Seq<(String, String)>) -> Seq<(Seq<char>, Seq<char>)> {
    v.map_values(|p: (String, String)| (p.0@, p.1@))
}

/// Whether a status code asks for another attempt: 429 or a server error.
pub open spec fn is_retryable(status: u16) -> bool {
    status == 429 || 500 <= status <= 599
}

/// Whether a status code is a success.
pub open spec fn is_success(status: u16) -> bool {
    200 <= status <= 299
}

/// Only 429 and server errors are retried; successes are accepted; every
/// other status, 401 and the other client errors among them, fails at once.
pub proof fn law_status_classes(status: u16)
    ensures
        is_retryable(status) <==> (status == 429 || 500 <= status <= 599),
        is_success(status) <==> 200 <= status <= 299,
        400 <= status <= 499 && status != 429 ==> !is_retryable(status) && !is_success(status),
        !(is_retryable(status) && is_success(status)),
{
}

impl TokenFetch {
    pub closed spec fn url(&self) -> Seq<char> {
        self.token_url@
    }

    pub closed spec fn form(&self) -> Seq<(Seq<char>, Seq<char>)> {
        pair_texts(self.params@)
    }

    pub closed spec fn key(&self) -> Seq<char> {
        self.cache_key@
    }

    pub closed spec fn scope(&self) -> Option<Seq<char>> {
        opt_text(self.scope)
    }

    /// How many retries follow a first attempt.
    pub closed spec fn retries(&self) -> u32 {
        self.max_retries
    }

    /// How many times the request has been sent so far.
    pub closed spec fn attempts(&self) -> int {
        self.attempts as int
    }

    /// The failure of the latest attempt, if one failed.
    pub closed spec fn last_error(&self) -> Option<SerafortError> {
        self.last_err
    }

    /// The token endpoint of `config` and the form for `request`; fails when
    /// the configuration lacks the client id or the client secret.
    pub fn start(config: &SerafortConfig, request: &TokenRequest) -> (r: Result<
        TokenFetch,
        SerafortError,
    >)
        ensures
            config.client_id is None ==> (r matches Err(SerafortError::Authentication(m)) && m@
                == "client_id is required for M2M authentication"@),
            config.client_id is Some && config.client_secret is None ==> (r matches Err(
                SerafortError::Authentication(m),
            ) && m@ == "client_secret is required for M2M authentication"@),
            config.client_id is Some && config.client_secret is Some ==> (r matches Ok(f) && {
                &&& f.url() == trim_trailing_slashes(config.endpoint@) + "/oauth/token"@
                &&& f.form() == token_form(
                    config.client_id.unwrap()@,
                    config.client_secret.unwrap()@,
                    opt_text(request.scope),
                )
                &&& f.key() == request.cache_key@
                &&& f.scope() == opt_text(request.scope)
                &&& f.retries() == config.retry.max_retries
                &&& f.attempts() == 0
                &&& f.last_error() is None
            }),
    {
        let client_id = match &config.client_id {
            Some(id) => id,
            None => {
                return Err(
                    SerafortError::Authentication(
                        String::from_str("client_id is required for M2M authentication"),
                    ),
                );
            },
        };
        let client_secret = match &config.client_secret {
            Some(secret) => secret,
            None => {
                return Err(
                    SerafortError::Authentication(
                        String::from_str("client_secret is required for M2M authentication"),
                    ),
                );
            },
        };
        let mut token_url = String::from_str(trim_end_slashes(config.endpoint.as_str()));
        token_url.append("/oauth/token");
        let mut params: Vec<(String, String)> = Vec::new();
        params.push((String::from_str("grant_type"), String::from_str("client_credentials")));
        params.push((String::from_str("client_id"), client_id.clone()));
        params.push((String::from_str("client_secret"), client_secret.clone()));
        let scope = match &request.scope {
            Some(s) => {
                params.push((String::from_str("scope"), s.clone()));
                Some(s.clone())
            },
            None => None,
        };
        let fetch = TokenFetch {
            token_url,
            params,
            cache_key: request.cache_key.clone(),
            scope,
            max_retries: config.retry.max_retries,
            attempts: 0,
            last_err: None,
        };
        assert(fetch.form() =~= token_form(
            config.client_id.unwrap()@,
            config.client_secret.unwrap()@,
            opt_text(request.scope),
        ));
        Ok(fetch)
    }

    /// The token endpoint's URL.
    pub fn token_url(&self) -> (r: &str)
        ensures
            r@ == self.url(),
    {
        self.token_url.as_str()
    }

    /// The form fields to send.
    pub fn params(&self) -> (r: &Vec<(String, String)>)
        ensures
            pair_texts(r@) == self.form(),
    {
        &self.params
    }

    /// The next step: send again while the first attempt and the retries
    /// are not used up, then give up with the failure of the last attempt.
    pub fn next_step(&mut self) -> (r: FetchStep)
        ensures
            final(self).url() == old(self).url(),
            final(self).form() == old(self).form(),
            final(self).key() == old(self).key(),
            final(self).scope() == old(self).scope(),
            final(self).retries() == old(self).retries(),
            old(self).attempts() <= old(self).retries() ==> {
                &&& r == FetchStep::Send { attempt: old(self).attempts() as u32 }
                &&& final(self).attempts() == old(self).attempts() + 1
                &&& final(self).last_error() == old(self).last_error()
            },
            old(self).attempts() > old(self).retries() ==> {
                &&& final(self).attempts() == old(self).attempts()
                &&& r matches FetchStep::GiveUp(e) && match old(self).last_error() {
                    Some(last) => e == last,
                    None => e matches SerafortError::Internal(m) && m@ == "Max retries exceeded"@,
                }
            },
    {
        if self.attempts <= self.max_retries as u64 {
            let attempt = self.attempts as u32;
            self.attempts = self.attempts + 1;
            FetchStep::Send { attempt }
        } else {
            let err = match self.last_err.take() {
                Some(e) => e,
                None => SerafortError::Internal(String::from_str("Max retries exceeded")),
            };
            FetchStep::GiveUp(err)
        }
    }

    /// Records that the request could not be sent or answered.
    pub fn record_network_error(&mut self, err: reqwest::Error)
        ensures
            final(self).url() == old(self).url(),
            final(self).form() == old(self).form(),
            final(self).key() == old(self).key(),
            final(self).scope() == old(self).scope(),
            final(self).retries() == old(self).retries(),
            final(self).attempts() == old(self).attempts(),
            final(self).last_error() == Some(SerafortError::Network(err)),
    {
        self.last_err = Some(SerafortError::Network(err));
    }

    /// How to take an answer with status code `status`; a retryable answer
    /// is recorded as a rate limit.
    pub fn classify(&mut self, status: u16) -> (r: StatusClass)
        ensures
            final(self).url() == old(self).url(),
            final(self).form() == old(self).form(),
            final(self).key() == old(self).key(),
            final(self).scope() == old(self).scope(),
            final(self).retries() == old(self).retries(),
            final(self).attempts() == old(self).attempts(),
            is_retryable(status) ==> r == StatusClass::Retry && final(self).last_error() == Some(
                SerafortError::RateLimit(None),
            ),
            !is_retryable(status) ==> final(self).last_error() == old(self).last_error(),
            !is_retryable(status) && is_success(status) ==> r == StatusClass::Accept,
            !is_retryable(status) && !is_success(status) ==> r == StatusClass::Reject,
    {
        if status == 429 || (500 <= status && status <= 599) {
            self.last_err = Some(SerafortError::RateLimit(None));
            StatusClass::Retry
        } else if 200 <= status && status <= 299 {
            StatusClass::Accept
        } else {
            StatusClass::Reject
        }
    }

    /// The error for a refused request, with its status and body.
    pub fn rejection(&self, status: u16, body: &str) -> (r: SerafortError)
        requires
            100 <= status <= 999,
        ensures
            r matches SerafortError::Authentication(m) && m@ == "Token request failed with status "@
                + status_line(status) + ": "@ + body@,
    {
        let mut message = String::from_str("Token request failed with status ");
        let line = status_text(status);
        message.append(line.as_str());
        message.append(": ");
        message.append(body);
        SerafortError::Authentication(message)
    }

    /// Takes the body of a successful answer, read as a token response or
    /// failing to read with the given message, and caches the token at
    /// `now` for as long as the answer says (an hour when it does not say).
    pub fn accept(
        &self,
        cache: &mut TokenCache,
        response: Result<OAuthResponse, String>,
        now: u128,
    ) -> (r: Result<String, SerafortError>)
        requires
            response matches Ok(o) ==> now + match o.expires_in {
                Some(e) => e,
                None => 3600,
            } * 1_000_000_000 <= u128::MAX,
        ensures
            final(cache).buffer() == old(cache).buffer(),
            response matches Err(e) ==> (r matches Err(SerafortError::Internal(m)) && m@
                == "Failed to parse token response: "@ + e@) && final(cache).entries() == old(
                cache,
            ).entries(),
            response matches Ok(o) ==> (r matches Ok(t) && t@ == o.access_token@)
                && final(cache).entries() == old(cache).entries().insert(
                self.key(),
                new_entry(
                    o.access_token@,
                    now as int,
                    match o.expires_in {
                        Some(e) => e as int,
                        None => 3600,
                    },
                    self.scope(),
                ),
            ),
    {
        match response {
            Err(e) => {
                let mut message = String::from_str("Failed to parse token response: ");
                message.append(e.as_str());
                Err(SerafortError::Internal(message))
            },
            Ok(oauth) => {
                let exp = match oauth.expires_in {
                    Some(e) => e,
                    None => 3600,
                };
                let scope = match &self.scope {
                    Some(s) => Some(s.clone()),
                    None => None,
                };
                cache.set(self.cache_key.clone(), oauth.access_token.clone(), exp, scope, now);
                Ok(oauth.access_token)
            },
        }
    }
}

} // verus!
