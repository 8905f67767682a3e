//! Character-level string operations used by the token and URL logic.
use vstd::prelude::*;
use vstd::string::*;

verus! {

broadcast use vstd::string::group_string_axioms;

/// Appends one character to a string.
///
/// Trusted: calls `String::push`, which std documents as appending the given
/// `char` to the end of the string. As with vstd's own `Vec::push`, the panic on
/// capacity overflow is not stated.
#[verifier::external_body]
pub(crate) fn push_char(s: &mut String, c: char)
    ensures
        final(s)@ == old(s)@.push(c),
{
    s.push(c);
}

/// The pieces of `cs` between occurrences of `sep`, as `str::split` with a
/// `char` pattern yields them: one more piece than there are separators.
pub open spec fn split_chars(cs: Seq<char>, sep: char) -> Seq<Seq<char>>
    decreases cs.len(),
{
    if cs.len() == 0 {
        seq![Seq::<char>::empty()]
    } else {
        let pieces = split_chars(cs.drop_last(), sep);
        if cs.last() == sep {
            pieces.push(Seq::<char>::empty())
        } else {
            pieces.update(pieces.len() - 1, pieces.last().push(cs.last()))
        }
    }
}

pub proof fn lemma_split_chars_nonempty(cs: Seq<char>, sep: char)
    ensures
        split_chars(cs, sep).len() >= 1,
    decreases cs.len(),
{
    if cs.len() > 0 {
        lemma_split_chars_nonempty(cs.drop_last(), sep);
    }
}

/// Appending text without the separator extends the last piece.
pub proof fn lemma_split_chars_extend(x: Seq<char>, b: Seq<char>, sep: char)
    requires
        !b.contains(sep),
    ensures
        split_chars(x + b, sep) == split_chars(x, sep).update(
            split_chars(x, sep).len() - 1,
            split_chars(x, sep).last() + b,
        ),
    decreases b.len(),
{
    lemma_split_chars_nonempty(x, sep);
    if b.len() == 0 {
        assert(x + b =~= x);
        assert(split_chars(x, sep).last() + b =~= split_chars(x, sep).last());
        assert(split_chars(x, sep).update(split_chars(x, sep).len() - 1, split_chars(x, sep).last())
            =~= split_chars(x, sep));
    } else {
        let b0 = b.drop_last();
        assert(!b0.contains(sep)) by {
            assert forall|i: int| 0 <= i < b0.len() implies b0[i] != sep by {
                assert(b0[i] == b[i]);
            }
        }
        lemma_split_chars_extend(x, b0, sep);
        assert((x + b).drop_last() =~= x + b0);
        assert((x + b).last() == b.last());
        assert(b.last() != sep) by {
            assert(b[b.len() - 1] == b.last());
        }
        let p = split_chars(x, sep);
        let q = split_chars(x + b0, sep);
        assert(q.len() == p.len());
        assert(q.last() == p.last() + b0);
        assert((p.last() + b0).push(b.last()) =~= p.last() + b);
        assert(split_chars(x + b, sep) == q.update(q.len() - 1, q.last().push(b.last())));
        assert(split_chars(x + b, sep) =~= p.update(p.len() - 1, p.last() + b));
    }
}

/// Pieces put back together with `sep` between them.
pub open spec fn rejoin(pieces: Seq<Seq<char>>, sep: char) -> Seq<char>
    decreases pieces.len(),
{
    if pieces.len() == 0 {
        Seq::empty()
    } else if pieces.len() == 1 {
        pieces[0]
    } else {
        rejoin(pieces.drop_last(), sep) + seq![sep] + pieces.last()
    }
}

/// Splitting cuts the text exactly at its separators: no piece holds the
/// separator, and the pieces joined with it give the text back.
pub proof fn law_split_pieces_rejoin(cs: Seq<char>, sep: char)
    ensures
        rejoin(split_chars(cs, sep), sep) == cs,
        forall|i: int|
            0 <= i < split_chars(cs, sep).len() ==> !(#[trigger] split_chars(cs, sep)[i]).contains(sep),
    decreases cs.len(),
{
    if cs.len() == 0 {
        assert(split_chars(cs, sep) =~= seq![Seq::<char>::empty()]);
        assert(rejoin(seq![Seq::<char>::empty()], sep) =~= cs);
    } else {
        let prev = cs.drop_last();
        law_split_pieces_rejoin(prev, sep);
        lemma_split_chars_nonempty(prev, sep);
        let p = split_chars(prev, sep);
        let n = p.len() as int;
        let c = cs.last();
        assert(cs =~= prev.push(c));
        if c == sep {
            let q = p.push(Seq::<char>::empty());
            assert(q.drop_last() =~= p);
            assert(rejoin(q, sep) =~= prev + seq![sep] + Seq::<char>::empty());
            assert forall|i: int| 0 <= i < q.len() implies !(#[trigger] q[i]).contains(sep) by {
                if i < n {
                    assert(q[i] == p[i]);
                }
            }
        } else {
            let x = p.last().push(c);
            let q = p.update(n - 1, x);
            if n == 1 {
                assert(rejoin(q, sep) =~= prev.push(c));
            } else {
                assert(q.drop_last() =~= p.drop_last());
                assert(rejoin(p, sep) == rejoin(p.drop_last(), sep) + seq![sep] + p.last());
                assert(rejoin(q, sep) =~= prev.push(c));
            }
            assert forall|i: int| 0 <= i < q.len() implies !(#[trigger] q[i]).contains(sep) by {
                if i < n - 1 {
                    assert(q[i] == p[i]);
                } else {
                    assert(!p[n - 1].contains(sep));
                    assert forall|j: int| 0 <= j < x.len() implies x[j] != sep by {
                        if j < x.len() - 1 {
                            assert(x[j] == p[n - 1][j]);
                        }
                    }
                }
            }
        }
    }
}

/// Splits `s` on every occurrence of `sep`.
pub fn split_on_char(s: &str, sep: char) -> (pieces: Vec<String>)
    ensures
        pieces@.map_values(|p: String| p@) == split_chars(s@, sep),
{
    let mut pieces: Vec<String> = Vec::new();
    let mut cur = String::new();
    let ghost mut seen: Seq<char> = Seq::empty();
    let mut iter = s.chars();
    loop
        invariant
            s@ == seen + vstd::std_specs::iter::IteratorSpec::remaining(&iter),
            split_chars(seen, sep) == pieces@.map_values(|p: String| p@).push(cur@),
            vstd::std_specs::iter::IteratorSpec::decrease(&iter) is Some,
        ensures
            s@ == seen,
            split_chars(seen, sep) == pieces@.map_values(|p: String| p@).push(cur@),
        decreases vstd::std_specs::iter::IteratorSpec::decrease(&iter)->0,
    {
        let ghost before = vstd::std_specs::iter::IteratorSpec::remaining(&iter);
        match iter.next() {
            None => {
                assert(seen =~= s@);
                break;
            },
            Some(c) => {
                proof {
                    assert(seen.push(c).drop_last() =~= seen);
                    lemma_split_chars_nonempty(seen, sep);
                    assert(s@ =~= seen.push(c) + vstd::std_specs::iter::IteratorSpec::remaining(&iter));
                }
                if c == sep {
                    let done = cur;
                    pieces.push(done);
                    cur = String::new();
                    proof {
                        seen = seen.push(c);
                    }
                } else {
                    push_char(&mut cur, c);
                    proof {
                        seen = seen.push(c);
                    }
                }
            },
        }
    }
    pieces.push(cur);
    proof {
        assert(pieces@.map_values(|p: String| p@) =~= split_chars(s@, sep));
    }
    pieces
}

/// Whether two strings hold the same characters.
pub fn str_eq(a: &str, b: &str) -> (r: bool)
    ensures
        r == (a@ == b@),
{
    let x = a.as_bytes();
    let y = b.as_bytes();
    if x.len() != y.len() {
        return false;
    }
    let mut i: usize = 0;
    while i < x.len()
        invariant
            x@ == a.spec_bytes(),
            y@ == b.spec_bytes(),
            x@.len() == y@.len(),
            i <= x@.len(),
            forall|j: int| 0 <= j < i ==> x@[j] == y@[j],
        decreases x@.len() - i,
    {
        if x[i] != y[i] {
            return false;
        }
        i = i + 1;
    }
    proof {
        assert(x@ =~= y@);
        vstd::utf8::encode_utf8_decode_utf8(a@);
        vstd::utf8::encode_utf8_decode_utf8(b@);
    }
    true
}

/// `cs` without the `/` characters at its end, as `trim_end_matches('/')`.
pub open spec fn trim_trailing_slashes(cs: Seq<char>) -> Seq<char>
    decreases cs.len(),
{
    if cs.len() > 0 && cs.last() == '/' {
        trim_trailing_slashes(cs.drop_last())
    } else {
        cs
    }
}

/// Removes every `/` at the end of `s`.
pub fn trim_end_slashes(s: &str) -> (r: &str)
    ensures
        r@ == trim_trailing_slashes(s@),
{
    let mut n = s.unicode_len();
    assert(s@.take(n as int) =~= s@);
    while n > 0 && s.get_char(n - 1) == '/'
        invariant
            n <= s@.len(),
            trim_trailing_slashes(s@) == trim_trailing_slashes(s@.take(n as int)),
        decreases n,
    {
        assert(s@.take(n as int).drop_last() =~= s@.take(n - 1));
        n = n - 1;
    }
    let r = s.substring_char(0, n);
    assert(s@.subrange(0, n as int) =~= s@.take(n as int));
    r
}

/// Whether `cs` begins with `prefix`.
pub open spec fn has_prefix(cs: Seq<char>, prefix: Seq<char>) -> bool {
    prefix.len() <= cs.len() && cs.take(prefix.len() as int) == prefix
}

/// Whether `s` begins with `prefix`, as `str::starts_with`.
pub fn starts_with(s: &str, prefix: &str) -> (r: bool)
    ensures
        r == has_prefix(s@, prefix@),
{
    let n = s.unicode_len();
    let k = prefix.unicode_len();
    if k > n {
        return false;
    }
    let mut i: usize = 0;
    while i < k
        invariant
            n == s@.len(),
            k == prefix@.len(),
            k <= n,
            i <= k,
            forall|j: int| 0 <= j < i ==> s@[j] == prefix@[j],
        decreases k - i,
    {
        if s.get_char(i) != prefix.get_char(i) {
            assert(s@.take(k as int)[i as int] != prefix@[i as int]);
            return false;
        }
        i = i + 1;
    }
    assert(s@.take(k as int) =~= prefix@);
    true
}

/// For a wildcard `p:*`, what the permissions it covers begin with: `p:`
/// (the text without its final `*`).
pub open spec fn strip_wildcard(cs: Seq<char>) -> Option<Seq<char>> {
    if cs.len() >= 2 && cs[cs.len() - 2] == ':' && cs[cs.len() - 1] == '*' {
        Some(cs.take(cs.len() - 1))
    } else {
        None
    }
}

/// For a wildcard `p:*`, the text `p:` that the permissions it covers begin
/// with.
pub fn strip_wildcard_suffix(s: &str) -> (r: Option<&str>)
    ensures
        match r {
            Some(p) => strip_wildcard(s@) == Some(p@),
            None => strip_wildcard(s@) is None,
        },
{
    let n = s.unicode_len();
    if n >= 2 && s.get_char(n - 2) == ':' && s.get_char(n - 1) == '*' {
        let p = s.substring_char(0, n - 1);
        assert(s@.subrange(0, n - 1) =~= s@.take(n - 1));
        Some(p)
    } else {
        None
    }
}

/// The characters that `char::is_whitespace` accepts: those with the Unicode
/// `White_Space` property.
pub open spec fn is_white_space(c: char) -> bool {
    let v = c as u32;
    ||| 0x09 <= v <= 0x0d
    ||| v == 0x20
    ||| v == 0x85
    ||| v == 0xa0
    ||| v == 0x1680
    ||| 0x2000 <= v <= 0x200a
    ||| v == 0x2028
    ||| v == 0x2029
    ||| v == 0x202f
    ||| v == 0x205f
    ||| v == 0x3000
}

/// Whether `c` is white space, as `char::is_whitespace`.
pub fn is_whitespace(c: char) -> (r: bool)
    ensures
        r == is_white_space(c),
{
    let v = c as u32;
    (0x09 <= v && v <= 0x0d) || v == 0x20 || v == 0x85 || v == 0xa0 || v == 0x1680 || (0x2000 <= v
        && v <= 0x200a) || v == 0x2028 || v == 0x2029 || v == 0x202f || v == 0x205f || v == 0x3000
}

/// The words of `cs`: its maximal runs of characters that are not white
/// space, in order, as `str::split_whitespace` yields them.
pub open spec fn whitespace_words(cs: Seq<char>) -> Seq<Seq<char>>
    decreases cs.len(),
{
    if cs.len() == 0 {
        Seq::empty()
    } else {
        let words = whitespace_words(cs.drop_last());
        let c = cs.last();
        if is_white_space(c) {
            words
        } else if cs.len() >= 2 && !is_white_space(cs[cs.len() - 2]) {
            words.update(words.len() - 1, words.last().push(c))
        } else {
            words.push(seq![c])
        }
    }
}

/// Every word is non-empty and holds no white space.
pub proof fn law_words_are_nonempty_without_white_space(cs: Seq<char>)
    ensures
        forall|i: int|
            0 <= i < whitespace_words(cs).len() ==> #[trigger] whitespace_words(cs)[i].len() > 0
                && forall|j: int|
                0 <= j < whitespace_words(cs)[i].len() ==> !is_white_space(
                    #[trigger] whitespace_words(cs)[i][j],
                ),
    decreases cs.len(),
{
    if cs.len() > 0 {
        law_words_are_nonempty_without_white_space(cs.drop_last());
        let words = whitespace_words(cs.drop_last());
        let c = cs.last();
        if !is_white_space(c) && cs.len() >= 2 && !is_white_space(cs[cs.len() - 2]) {
            assert(words.len() > 0) by {
                lemma_last_word_exists(cs.drop_last());
            }
            let w = words.last().push(c);
            assert forall|j: int| 0 <= j < w.len() implies !is_white_space(#[trigger] w[j]) by {
                if j < w.len() - 1 {
                    assert(w[j] == words[words.len() - 1][j]);
                }
            }
        }
    }
}

proof fn lemma_last_word_exists(cs: Seq<char>)
    requires
        cs.len() > 0,
        !is_white_space(cs.last()),
    ensures
        whitespace_words(cs).len() > 0,
    decreases cs.len(),
{
    if cs.len() >= 2 && !is_white_space(cs[cs.len() - 2]) {
        assert(cs.drop_last().last() == cs[cs.len() - 2]);
        lemma_last_word_exists(cs.drop_last());
    }
}

/// The words of a text are the text with its white space taken out, cut
/// apart only where white space stood: joined together they give back every
/// other character, in order.
pub proof fn law_words_are_text_without_white_space(cs: Seq<char>)
    ensures
        whitespace_words(cs).flatten() == cs.filter(|c: char| !is_white_space(c)),
    decreases cs.len(),
{
    reveal(Seq::filter);
    let keep = |c: char| !is_white_space(c);
    if cs.len() == 0 {
        assert(whitespace_words(cs) =~= Seq::<Seq<char>>::empty());
    } else {
        law_words_are_text_without_white_space(cs.drop_last());
        let w = whitespace_words(cs.drop_last());
        let c = cs.last();
        assert(cs.filter(keep) == if keep(c) {
            cs.drop_last().filter(keep).push(c)
        } else {
            cs.drop_last().filter(keep)
        });
        if is_white_space(c) {
        } else if cs.len() >= 2 && !is_white_space(cs[cs.len() - 2]) {
            assert(cs.drop_last().last() == cs[cs.len() - 2]);
            lemma_last_word_exists(cs.drop_last());
            let n = w.len() as int;
            let front = w.drop_last();
            assert(w =~= front.push(w.last()));
            front.lemma_flatten_push(w.last());
            let w2 = w.update(n - 1, w.last().push(c));
            assert(w2 =~= front.push(w.last().push(c)));
            front.lemma_flatten_push(w.last().push(c));
            assert(w2.flatten() =~= w.flatten().push(c));
        } else {
            w.lemma_flatten_push(seq![c]);
            assert(w.flatten() + seq![c] =~= w.flatten().push(c));
        }
    }
}

/// The characters that separate words are exactly those with the Unicode
/// `White_Space` property: tab, line feed, vertical tab, form feed, carriage
/// return, space, next line, no-break space, ogham space mark, the spaces
/// U+2000 to U+200A, line and paragraph separators, narrow no-break space,
/// medium mathematical space and ideographic space. No visible ASCII
/// character separates words.
pub proof fn law_white_space_is_unicode_white_space(c: char)
    ensures
        is_white_space(c) <==> {
            let v = c as u32;
            ||| 9 <= v <= 13
            ||| v == 32
            ||| v == 133
            ||| v == 160
            ||| v == 5760
            ||| 8192 <= v <= 8202
            ||| v == 8232
            ||| v == 8233
            ||| v == 8239
            ||| v == 8287
            ||| v == 12288
        },
        33 <= (c as u32) <= 126 ==> !is_white_space(c),
{
}

/// Splits `s` into its words, as `str::split_whitespace`.
pub fn split_whitespace(s: &str) -> (words: Vec<String>)
    ensures
        words@.map_values(|w: String| w@) == whitespace_words(s@),
{
    let mut words: Vec<String> = Vec::new();
    let mut cur = String::new();
    let mut in_word = false;
    let ghost mut seen: Seq<char> = Seq::empty();
    let mut iter = s.chars();
    loop
        invariant
            s@ == seen + vstd::std_specs::iter::IteratorSpec::remaining(&iter),
            vstd::std_specs::iter::IteratorSpec::decrease(&iter) is Some,
            in_word == (seen.len() > 0 && !is_white_space(seen.last())),
            !in_word ==> cur@ == Seq::<char>::empty(),
            whitespace_words(seen) == if in_word {
                words@.map_values(|w: String| w@).push(cur@)
            } else {
                words@.map_values(|w: String| w@)
            },
        ensures
            s@ == seen,
            in_word == (seen.len() > 0 && !is_white_space(seen.last())),
            whitespace_words(seen) == if in_word {
                words@.map_values(|w: String| w@).push(cur@)
            } else {
                words@.map_values(|w: String| w@)
            },
        decreases vstd::std_specs::iter::IteratorSpec::decrease(&iter)->0,
    {
        let ghost before = vstd::std_specs::iter::IteratorSpec::remaining(&iter);
        match iter.next() {
            None => {
                assert(seen + before =~= seen);
                break;
            },
            Some(c) => {
                proof {
                    assert(seen.push(c).drop_last() =~= seen);
                    assert(seen.push(c) + vstd::std_specs::iter::IteratorSpec::remaining(&iter)
                        =~= seen + before);
                    if seen.len() > 0 {
                        assert(seen.push(c)[seen.len() - 1] == seen.last());
                    }
                }
                if is_whitespace(c) {
                    if in_word {
                        let done = cur;
                        words.push(done);
                        cur = String::new();
                    }
                    in_word = false;
                } else {
                    push_char(&mut cur, c);
                    in_word = true;
                }
                proof {
                    seen = seen.push(c);
                }
            },
        }
    }
    if in_word {
        words.push(cur);
    }
    proof {
        assert(words@.map_values(|w: String| w@) =~= whitespace_words(s@));
    }
    words
}

/// Whether a byte is left as it is by URL encoding: ASCII letters, digits and
/// `-`, `_`, `.`, `~`.
pub open spec fn is_unreserved(b: u8) -> bool {
    ||| 97 <= b <= 122
    ||| 65 <= b <= 90
    ||| 48 <= b <= 57
    ||| b == 45
    ||| b == 95
    ||| b == 46
    ||| b == 126
}

/// The upper-case hexadecimal digit for `d < 16`.
pub open spec fn hex_digit(d: u8) -> char {
    if d < 10 {
        (48 + d) as char
    } else {
        (55 + d) as char
    }
}

/// How URL encoding writes one byte: unreserved bytes as themselves, others
/// as `%` and two upper-case hexadecimal digits.
pub open spec fn percent_encode_byte(b: u8) -> Seq<char> {
    if is_unreserved(b) {
        seq![b as char]
    } else {
        seq!['%', hex_digit(b / 16), hex_digit(b % 16)]
    }
}

/// The URL encoding of a byte sequence.
pub open spec fn percent_encode(bytes: Seq<u8>) -> Seq<char>
    decreases bytes.len(),
{
    if bytes.len() == 0 {
        Seq::empty()
    } else {
        percent_encode(bytes.drop_last()) + percent_encode_byte(bytes.last())
    }
}

/// Whether a character may stand in URL encoding output: an unreserved
/// ASCII character or `%`.
pub open spec fn url_safe(c: char) -> bool {
    (c as u32) < 128 && (is_unreserved(c as u32 as u8) || c == '%')
}

/// URL encoding writes neither `?` nor `&` nor `#`.
pub proof fn law_percent_encoding_has_no_delimiters(bytes: Seq<u8>)
    ensures
        !percent_encode(bytes).contains('?'),
        !percent_encode(bytes).contains('&'),
        !percent_encode(bytes).contains('#'),
{
    law_percent_encoding_is_url_safe(bytes);
    let e = percent_encode(bytes);
    assert forall|i: int| 0 <= i < e.len() implies e[i] != '?' && e[i] != '&' && e[i] != '#' by {
        assert(url_safe(e[i]));
    }
}

/// URL encoding writes only unreserved ASCII characters and `%`.
pub proof fn law_percent_encoding_is_url_safe(bytes: Seq<u8>)
    ensures
        forall|i: int| 0 <= i < percent_encode(bytes).len() ==> url_safe(#[trigger] percent_encode(bytes)[i]),
    decreases bytes.len(),
{
    if bytes.len() > 0 {
        law_percent_encoding_is_url_safe(bytes.drop_last());
        let b = bytes.last();
        let prev = percent_encode(bytes.drop_last());
        let tail = percent_encode_byte(b);
        assert forall|i: int| 0 <= i < tail.len() implies url_safe(#[trigger] tail[i]) by {
            assert(b / 16 < 16 && b % 16 < 16);
        }
        assert forall|i: int| 0 <= i < percent_encode(bytes).len() implies url_safe(
            #[trigger] percent_encode(bytes)[i],
        ) by {
            if i < prev.len() {
                assert(percent_encode(bytes)[i] == prev[i]);
            } else {
                assert(percent_encode(bytes)[i] == tail[i - prev.len()]);
            }
        }
    }
}

/// How URL encoding writes a single byte: an ASCII letter, digit, `-`, `_`,
/// `.` or `~` as itself; any other byte as `%` and two upper-case
/// hexadecimal digits, high half first.
pub proof fn law_url_encoding_of_one_byte(b: u8)
    ensures
        ({
            let e = percent_encode(seq![b]);
            if (48 <= b <= 57) || (65 <= b <= 90) || (97 <= b <= 122) || b == 45 || b == 95 || b
                == 46 || b == 126 {
                e.len() == 1 && e[0] as u32 == b as u32
            } else {
                &&& e.len() == 3
                &&& e[0] == '%'
                &&& forall|j: int|
                    1 <= j <= 2 ==> ((48 <= #[trigger] e[j] as u32 <= 57) || (65 <= e[j] as u32
                        <= 70))
                &&& 16 * (if (e[1] as u32) <= 57 {
                    e[1] as u32 - 48
                } else {
                    e[1] as u32 - 55
                }) + (if (e[2] as u32) <= 57 {
                    e[2] as u32 - 48
                } else {
                    e[2] as u32 - 55
                }) == b as int
            }
        }),
{
    assert(seq![b].drop_last() =~= Seq::<u8>::empty());
    assert(seq![b].last() == b);
    assert(percent_encode(Seq::<u8>::empty()) =~= Seq::<char>::empty());
    let e = percent_encode(seq![b]);
    assert(e =~= percent_encode_byte(b));
    let h = b / 16;
    let l = b % 16;
    if h < 10 {
        assert(((48 + h) as char) as u32 == 48 + h);
    } else {
        assert(((55 + h) as char) as u32 == 55 + h);
    }
    if l < 10 {
        assert(((48 + l) as char) as u32 == 48 + l);
    } else {
        assert(((55 + l) as char) as u32 == 55 + l);
    }
    assert((b as char) as u32 == b as u32);
}

/// Trimming takes away the trailing `/` characters and nothing else: the
/// result is the text up to them, and does not itself end in `/`.
pub proof fn law_trim_removes_only_trailing_slashes(cs: Seq<char>)
    ensures
        ({
            let t = trim_trailing_slashes(cs);
            &&& t.len() <= cs.len()
            &&& cs.take(t.len() as int) == t
            &&& forall|i: int| t.len() <= i < cs.len() ==> cs[i] == '/'
            &&& (t.len() == 0 || t.last() != '/')
        }),
    decreases cs.len(),
{
    if cs.len() > 0 && cs.last() == '/' {
        law_trim_removes_only_trailing_slashes(cs.drop_last());
        let t = trim_trailing_slashes(cs);
        assert(cs.drop_last().take(t.len() as int) =~= cs.take(t.len() as int));
        assert forall|i: int| t.len() <= i < cs.len() implies cs[i] == '/' by {
            if i < cs.len() - 1 {
                assert(cs[i] == cs.drop_last()[i]);
            }
        }
    } else {
        assert(cs.take(cs.len() as int) =~= cs);
    }
}

/// The value of a hexadecimal digit (either case).
pub open spec fn hex_value(c: char) -> Option<u8> {
    let v = c as u32;
    if 48 <= v <= 57 {
        Some((v - 48) as u8)
    } else if 65 <= v <= 70 {
        Some((v - 55) as u8)
    } else if 97 <= v <= 102 {
        Some((v - 87) as u8)
    } else {
        None
    }
}

/// Percent-decoding: `%` followed by two hexadecimal digits stands for the
/// byte they spell, any other ASCII character for its own byte; nothing
/// when the text is malformed or not ASCII.
pub open spec fn percent_decode(cs: Seq<char>) -> Option<Seq<u8>>
    decreases cs.len(),
{
    if cs.len() == 0 {
        Some(Seq::empty())
    } else if cs[0] == '%' {
        if cs.len() >= 3 && hex_value(cs[1]) is Some && hex_value(cs[2]) is Some {
            match percent_decode(cs.skip(3)) {
                Some(rest) => Some(
                    seq![(hex_value(cs[1]).unwrap() * 16 + hex_value(cs[2]).unwrap()) as u8] + rest,
                ),
                None => None,
            }
        } else {
            None
        }
    } else if (cs[0] as u32) < 128 {
        match percent_decode(cs.drop_first()) {
            Some(rest) => Some(seq![cs[0] as u32 as u8] + rest),
            None => None,
        }
    } else {
        None
    }
}

/// The number of characters that URL encoding writes for `bytes`: one for
/// an unreserved byte, three for any other.
pub open spec fn encoded_len(bytes: Seq<u8>) -> nat
    decreases bytes.len(),
{
    if bytes.len() == 0 {
        0
    } else {
        encoded_len(bytes.drop_last()) + if is_unreserved(bytes.last()) {
            1nat
        } else {
            3nat
        }
    }
}

proof fn lemma_percent_encode_concat(a: Seq<u8>, b: Seq<u8>)
    ensures
        percent_encode(a + b) == percent_encode(a) + percent_encode(b),
    decreases b.len(),
{
    if b.len() == 0 {
        assert(a + b =~= a);
        assert(percent_encode(a) + percent_encode(b) =~= percent_encode(a));
    } else {
        assert((a + b).drop_last() =~= a + b.drop_last());
        lemma_percent_encode_concat(a, b.drop_last());
        assert(percent_encode(a + b) =~= percent_encode(a) + percent_encode(b));
    }
}

proof fn lemma_hex_round_trip(d: u8)
    requires
        d < 16,
    ensures
        hex_value(hex_digit(d)) == Some(d),
{
    if d < 10 {
        assert(((48 + d) as char) as u32 == 48 + d);
    } else {
        assert(((55 + d) as char) as u32 == 55 + d);
    }
}

proof fn lemma_decode_one_byte(x: u8, rest: Seq<char>)
    ensures
        percent_decode(percent_encode_byte(x) + rest) == match percent_decode(rest) {
            Some(r) => Some(seq![x] + r),
            None => None,
        },
{
    let e = percent_encode_byte(x);
    let cs = e + rest;
    if is_unreserved(x) {
        assert((x as char) as u32 == x as u32);
        assert(cs[0] == x as char);
        assert(cs.drop_first() =~= rest);
    } else {
        lemma_hex_round_trip(x / 16);
        lemma_hex_round_trip(x % 16);
        assert(cs[0] == '%');
        assert(cs[1] == hex_digit(x / 16));
        assert(cs[2] == hex_digit(x % 16));
        assert(cs.skip(3) =~= rest);
        assert(((x / 16) * 16 + x % 16) as u8 == x);
    }
}

/// Percent-decoding the URL encoding of bytes gives the bytes back.
pub proof fn law_percent_decoding_inverts_encoding(bytes: Seq<u8>)
    ensures
        percent_decode(percent_encode(bytes)) == Some(bytes),
    decreases bytes.len(),
{
    if bytes.len() > 0 {
        let rest = bytes.drop_first();
        assert(bytes =~= seq![bytes[0]] + rest);
        lemma_percent_encode_concat(seq![bytes[0]], rest);
        assert(seq![bytes[0]].drop_last() =~= Seq::<u8>::empty());
        assert(seq![bytes[0]].last() == bytes[0]);
        assert(percent_encode(Seq::<u8>::empty()) =~= Seq::<char>::empty());
        assert(Seq::<char>::empty() + percent_encode_byte(bytes[0]) =~= percent_encode_byte(bytes[0]));
        assert(percent_encode(seq![bytes[0]]) =~= percent_encode_byte(bytes[0]));
        law_percent_decoding_inverts_encoding(rest);
        lemma_decode_one_byte(bytes[0], percent_encode(rest));
        assert(seq![bytes[0]] + rest =~= bytes);
    }
}

/// URL encoding writes one character per unreserved byte and three per
/// other byte.
pub proof fn law_percent_encoding_length(bytes: Seq<u8>)
    ensures
        percent_encode(bytes).len() == encoded_len(bytes),
    decreases bytes.len(),
{
    if bytes.len() > 0 {
        law_percent_encoding_length(bytes.drop_last());
    }
}

fn hex_char(d: u8) -> (r: char)
    requires
        d < 16,
    ensures
        r == hex_digit(d),
{
    if d < 10 {
        (48 + d) as char
    } else {
        (55 + d) as char
    }
}

/// URL-encodes the UTF-8 bytes of `input`.
pub fn urlencoding(input: &str) -> (encoded: String)
    ensures
        encoded@ == percent_encode(input.spec_bytes()),
{
    let bytes = input.as_bytes();
    let mut encoded = String::new();
    let mut i: usize = 0;
    while i < bytes.len()
        invariant
            i <= bytes@.len(),
            encoded@ == percent_encode(bytes@.take(i as int)),
        decreases bytes@.len() - i,
    {
        let b = bytes[i];
        assert(bytes@.take(i + 1).drop_last() =~= bytes@.take(i as int));
        if (97 <= b && b <= 122) || (65 <= b && b <= 90) || (48 <= b && b <= 57) || b == 45 || b
            == 95 || b == 46 || b == 126 {
            push_char(&mut encoded, b as char);
        } else {
            push_char(&mut encoded, '%');
            push_char(&mut encoded, hex_char(b / 16));
            push_char(&mut encoded, hex_char(b % 16));
        }
        assert(encoded@ =~= percent_encode(bytes@.take(i + 1)));
        i = i + 1;
    }
    assert(bytes@.take(bytes@.len() as int) =~= bytes@);
    encoded
}

} // verus!
