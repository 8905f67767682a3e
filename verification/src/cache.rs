//! The token cache of machine-to-machine authentication.
//!
//! Times are nanoseconds on a monotonic clock; the caller reads the clock.
use vstd::prelude::*;
use crate::text::str_eq;
use std::mem::swap;

verus! {

/// What the cache holds for one key.
pub struct TokenEntry {
    pub token: Seq<char>,
    pub expires_at: int,
    pub scope: Option<Seq<char>>,
}

/// A cached access token.
#[derive(Debug)]
pub struct CachedToken {
    access_token: String,
    expires_at: u128,
    scope: Option<String>,
}

impl CachedToken {
    pub closed spec fn entry(&self) -> TokenEntry {
        TokenEntry {
            token: self.access_token@,
            expires_at: self.expires_at as int,
            scope: match self.scope {
                Some(s) => Some(s@),
                None => None,
            },
        }
    }
}

/// Cached access tokens by key, each with the time at which it expires. A
/// token is handed out only while it is valid for at least `buffer` more
/// nanoseconds, so that it is refreshed before it runs out.
pub struct TokenCache {
    tokens: Vec<(String, CachedToken)>,
    buffer: u128,
}

/// The token cached under `key`, if it stays valid past `now + buffer`.
pub open spec fn fresh_token(
    entries: Map<Seq<char>, TokenEntry>,
    key: Seq<char>,
    now: int,
    buffer: int,
) -> Option<Seq<char>> {
    if entries.contains_key(key) && now + buffer < entries[key].expires_at {
        Some(entries[key].token)
    } else {
        None
    }
}

/// The entry that caching `token` at `now` for `expires_in_seconds` makes.
pub open spec fn new_entry(
    token: Seq<char>,
    now: int,
    expires_in_seconds: int,
    scope: Option<Seq<char>>,
) -> TokenEntry {
    TokenEntry { token, expires_at: now + expires_in_seconds * 1_000_000_000, scope }
}

/// A token just cached is handed out exactly while it stays valid for longer
/// than the buffer.
pub proof fn law_read_after_write(
    entries: Map<Seq<char>, TokenEntry>,
    key: Seq<char>,
    token: Seq<char>,
    now: int,
    expires_in_seconds: int,
    scope: Option<Seq<char>>,
    later: int,
    buffer: int,
)
    ensures
        fresh_token(
            entries.insert(key, new_entry(token, now, expires_in_seconds, scope)),
            key,
            later,
            buffer,
        ) == if later + buffer < now + expires_in_seconds * 1_000_000_000 {
            Some(token)
        } else {
            None
        },
{
}

/// Caching a token under one key leaves every other key as it was.
pub proof fn law_write_keeps_other_keys(
    entries: Map<Seq<char>, TokenEntry>,
    key: Seq<char>,
    entry: TokenEntry,
    other: Seq<char>,
    now: int,
    buffer: int,
)
    requires
        other != key,
    ensures
        fresh_token(entries.insert(key, entry), other, now, buffer) == fresh_token(
            entries,
            other,
            now,
            buffer,
        ),
{
}

/// After invalidating a key no token is handed out for it, and other keys
/// are left as they were; after invalidating everything, none at all.
pub proof fn law_invalidate(
    entries: Map<Seq<char>, TokenEntry>,
    key: Seq<char>,
    other: Seq<char>,
    now: int,
    buffer: int,
)
    ensures
        fresh_token(entries.remove(key), key, now, buffer) is None,
        other != key ==> fresh_token(entries.remove(key), other, now, buffer) == fresh_token(
            entries,
            other,
            now,
            buffer,
        ),
        fresh_token(Map::empty(), other, now, buffer) is None,
{
}

/// A token that is handed out at some time was handed out at every earlier
/// time too: tokens only go stale.
pub proof fn law_staleness_is_final(
    entries: Map<Seq<char>, TokenEntry>,
    key: Seq<char>,
    earlier: int,
    now: int,
    buffer: int,
)
    requires
        earlier <= now,
        fresh_token(entries, key, now, buffer) is Some,
    ensures
        fresh_token(entries, key, earlier, buffer) == fresh_token(entries, key, now, buffer),
{
}

/// No key is listed twice.
spec fn distinct_keys(t: Seq<(String, CachedToken)>) -> bool {
    forall|i: int, j: int| 0 <= i < j < t.len() ==> #[trigger] t[i].0@ != #[trigger] t[j].0@
}

/// The entries that a list of keyed tokens holds.
spec fn entries_of(t: Seq<(String, CachedToken)>) -> Map<Seq<char>, TokenEntry> {
    Map::new(
        |k: Seq<char>| exists|i: int| 0 <= i < t.len() && #[trigger] t[i].0@ == k,
        |k: Seq<char>|
            {
                let i = choose|i: int| 0 <= i < t.len() && #[trigger] t[i].0@ == k;
                t[i].1.entry()
            },
    )
}

proof fn lemma_entry_at(t: Seq<(String, CachedToken)>, i: int)
    requires
        distinct_keys(t),
        0 <= i < t.len(),
    ensures
        entries_of(t).contains_key(t[i].0@),
        entries_of(t)[t[i].0@] == t[i].1.entry(),
{
    let k = t[i].0@;
    assert(entries_of(t).dom().contains(k));
    let j = choose|j: int| 0 <= j < t.len() && #[trigger] t[j].0@ == k;
    if j < i {
        assert(t[j].0@ != t[i].0@);
    } else if i < j {
        assert(t[i].0@ != t[j].0@);
    }
}

/// Removing the token at `i` removes its key and nothing else.
proof fn lemma_remove_at(t: Seq<(String, CachedToken)>, i: int)
    requires
        distinct_keys(t),
        0 <= i < t.len(),
    ensures
        distinct_keys(t.remove(i)),
        entries_of(t.remove(i)) == entries_of(t).remove(t[i].0@),
{
    let u = t.remove(i);
    let k = t[i].0@;
    assert forall|a: int, b: int| 0 <= a < b < u.len() implies #[trigger] u[a].0@ != #[trigger] u[b].0@ by {
        let a0 = if a < i { a } else { a + 1 };
        let b0 = if b < i { b } else { b + 1 };
        assert(t[a0].0@ != t[b0].0@);
    }
    assert forall|q: Seq<char>|
        #[trigger] entries_of(u).contains_key(q) == entries_of(t).remove(k).contains_key(q) && (
        entries_of(u).contains_key(q) ==> entries_of(u)[q] == entries_of(t)[q]) by {
        if entries_of(u).contains_key(q) {
            let j = choose|j: int| 0 <= j < u.len() && #[trigger] u[j].0@ == q;
            let j0 = if j < i { j } else { j + 1 };
            assert(t[j0] == u[j]);
            if j0 < i {
                assert(t[j0].0@ != t[i].0@);
            } else {
                assert(t[i].0@ != t[j0].0@);
            }
            lemma_entry_at(u, j);
            lemma_entry_at(t, j0);
        }
        if entries_of(t).remove(k).contains_key(q) {
            let j0 = choose|j: int| 0 <= j < t.len() && #[trigger] t[j].0@ == q;
            let j = if j0 < i { j0 } else { j0 - 1 };
            assert(u[j].0@ == q);
        }
    }
    assert(entries_of(u) =~= entries_of(t).remove(k));
}

/// Appending a token under a new key adds that key and nothing else.
proof fn lemma_push_new(t: Seq<(String, CachedToken)>, key: String, item: CachedToken)
    requires
        distinct_keys(t),
        !entries_of(t).contains_key(key@),
    ensures
        distinct_keys(t.push((key, item))),
        entries_of(t.push((key, item))) == entries_of(t).insert(key@, item.entry()),
{
    let u = t.push((key, item));
    let n = t.len() as int;
    assert forall|a: int| 0 <= a < n implies #[trigger] t[a].0@ != key@ by {
        if t[a].0@ == key@ {
            assert(entries_of(t).contains_key(key@));
        }
    }
    assert forall|a: int, b: int| 0 <= a < b < u.len() implies #[trigger] u[a].0@ != #[trigger] u[b].0@ by {
        if b == n {
            assert(t[a].0@ != key@);
        } else {
            assert(t[a].0@ != t[b].0@);
        }
    }
    lemma_entry_at(u, n);
    assert forall|q: Seq<char>| q != key@ implies (#[trigger] entries_of(u).contains_key(q)
        == entries_of(t).contains_key(q)) && (entries_of(u).contains_key(q) ==> entries_of(u)[q]
        == entries_of(t)[q]) by {
        if entries_of(u).contains_key(q) {
            let j = choose|j: int| 0 <= j < u.len() && #[trigger] u[j].0@ == q;
            assert(j != n);
            assert(u[j] == t[j]);
            lemma_entry_at(u, j);
            lemma_entry_at(t, j);
        }
        if entries_of(t).contains_key(q) {
            let j = choose|j: int| 0 <= j < t.len() && #[trigger] t[j].0@ == q;
            assert(u[j].0@ == q);
        }
    }
    assert(entries_of(u) =~= entries_of(t).insert(key@, item.entry()));
}

impl TokenCache {
    /// No key is cached twice.
    #[verifier::type_invariant]
    spec fn keys_distinct(&self) -> bool {
        distinct_keys(self.tokens@)
    }

    /// The cached entries by key.
    pub closed spec fn entries(&self) -> Map<Seq<char>, TokenEntry> {
        entries_of(self.tokens@)
    }

    /// How long before its expiry a token stops being handed out.
    pub closed spec fn buffer(&self) -> int {
        self.buffer as int
    }

    /// The index of `key`, if it is cached.
    fn find(&self, key: &str) -> (r: Option<usize>)
        ensures
            match r {
                Some(i) => i < self.tokens@.len() && self.tokens@[i as int].0@ == key@,
                None => !self.entries().contains_key(key@),
            },
    {
        let mut i: usize = 0;
        while i < self.tokens.len()
            invariant
                i <= self.tokens@.len(),
                forall|j: int| 0 <= j < i ==> #[trigger] self.tokens@[j].0@ != key@,
            decreases self.tokens@.len() - i,
        {
            if str_eq(self.tokens[i].0.as_str(), key) {
                return Some(i);
            }
            i = i + 1;
        }
        None
    }

    /// An empty cache that stops handing out tokens `buffer_nanos` before
    /// they expire.
    pub fn new(buffer_nanos: u128) -> (r: Self)
        ensures
            r.entries() == Map::<Seq<char>, TokenEntry>::empty(),
            r.buffer() == buffer_nanos,
    {
        let r = TokenCache { tokens: Vec::new(), buffer: buffer_nanos };
        assert(r.entries() =~= Map::<Seq<char>, TokenEntry>::empty());
        r
    }

    /// The buffer in nanoseconds.
    pub fn buffer_nanos(&self) -> (r: u128)
        ensures
            r == self.buffer(),
    {
        self.buffer
    }

    /// The token cached under `key`, if it stays valid for longer than the
    /// buffer after `now`.
    pub fn get(&self, key: &str, now: u128) -> (r: Option<String>)
        requires
            now + self.buffer() <= u128::MAX,
        ensures
            match r {
                Some(t) => fresh_token(self.entries(), key@, now as int, self.buffer()) == Some(t@),
                None => fresh_token(self.entries(), key@, now as int, self.buffer()) is None,
            },
    {
        proof {
            use_type_invariant(self);
        }
        match self.find(key) {
            Some(i) => {
                proof {
                    lemma_entry_at(self.tokens@, i as int);
                }
                let item = &self.tokens[i].1;
                if now + self.buffer < item.expires_at {
                    Some(item.access_token.clone())
                } else {
                    None
                }
            },
            None => None,
        }
    }

    /// Caches `token` under `key` until `expires_in_seconds` after `now`,
    /// replacing what was cached under `key`.
    pub fn set(
        &mut self,
        key: String,
        token: String,
        expires_in_seconds: u64,
        scope: Option<String>,
        now: u128,
    )
        requires
            now + expires_in_seconds * 1_000_000_000 <= u128::MAX,
        ensures
            final(self).buffer() == old(self).buffer(),
            final(self).entries() == old(self).entries().insert(
                key@,
                new_entry(
                    token@,
                    now as int,
                    expires_in_seconds as int,
                    match scope {
                        Some(s) => Some(s@),
                        None => None,
                    },
                ),
            ),
    {
        proof {
            use_type_invariant(&*self);
        }
        let expires_at = now + (expires_in_seconds as u128) * 1_000_000_000;
        let found = self.find(key.as_str());
        let mut tokens: Vec<(String, CachedToken)> = Vec::new();
        swap(&mut tokens, &mut self.tokens);
        let ghost before = tokens@;
        match found {
            Some(i) => {
                proof {
                    lemma_remove_at(before, i as int);
                }
                tokens.remove(i);
            },
            None => {},
        }
        assert(entries_of(tokens@) == entries_of(before).remove(key@));
        let item = CachedToken { access_token: token, expires_at, scope };
        proof {
            lemma_push_new(tokens@, key, item);
        }
        tokens.push((key, item));
        self.tokens = tokens;
    }

    /// Forgets the token cached under `key`, or every token when there is no
    /// key.
    pub fn invalidate(&mut self, key: Option<&str>)
        ensures
            final(self).buffer() == old(self).buffer(),
            match key {
                Some(k) => final(self).entries() == old(self).entries().remove(k@),
                None => final(self).entries() == Map::<Seq<char>, TokenEntry>::empty(),
            },
    {
        proof {
            use_type_invariant(&*self);
        }
        match key {
            Some(k) => match self.find(k) {
                Some(i) => {
                    let mut tokens: Vec<(String, CachedToken)> = Vec::new();
                    swap(&mut tokens, &mut self.tokens);
                    proof {
                        lemma_remove_at(tokens@, i as int);
                    }
                    tokens.remove(i);
                    self.tokens = tokens;
                },
                None => {
                    assert(self.entries() =~= old(self).entries().remove(k@));
                },
            },
            None => {
                let mut tokens: Vec<(String, CachedToken)> = Vec::new();
                swap(&mut tokens, &mut self.tokens);
                assert(self.entries() =~= Map::<Seq<char>, TokenEntry>::empty());
            },
        }
    }
}

} // verus!
