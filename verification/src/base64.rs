//! Lenient base64 / base64url decoding of JWT segments.
//!
//! Decoding reads characters up to the first `=`, skips every character
//! outside the alphabet, concatenates the 6-bit values of the rest and cuts the
//! bit stream into bytes; bits left over at the end are dropped.
use vstd::prelude::*;
use crate::text::push_char;

verus! {

broadcast use vstd::string::group_string_axioms;

/// The 6-bit value of `c` in the standard base64 alphabet
/// (`A`-`Z`, `a`-`z`, `0`-`9`, `+`, `/`), or `None` outside it.
pub open spec fn sextet_of(c: char) -> Option<u8> {
    let v = c as u32;
    if 65 <= v <= 90 {
        Some((v - 65) as u8)
    } else if 97 <= v <= 122 {
        Some((v - 71) as u8)
    } else if 48 <= v <= 57 {
        Some((v + 4) as u8)
    } else if v == 43 {
        Some(62u8)
    } else if v == 47 {
        Some(63u8)
    } else {
        None
    }
}

/// The 6-bit values that decoding reads from `cs`: characters before the first
/// `=`, skipping those outside the alphabet.
pub open spec fn sextets(cs: Seq<char>) -> Seq<u8>
    decreases cs.len(),
{
    if cs.len() == 0 {
        Seq::empty()
    } else if cs[0] == '=' {
        Seq::empty()
    } else {
        match sextet_of(cs[0]) {
            Some(v) => seq![v] + sextets(cs.drop_first()),
            None => sextets(cs.drop_first()),
        }
    }
}

/// Byte `k` of the bit stream made of the 6-bit values `v`: each group of four
/// values gives three bytes.
pub open spec fn stream_byte(v: Seq<u8>, k: int) -> u8 {
    let g = k / 3;
    if k % 3 == 0 {
        (v[4 * g] << 2u8) | (v[4 * g + 1] >> 4u8)
    } else if k % 3 == 1 {
        (v[4 * g + 1] << 4u8) | (v[4 * g + 2] >> 2u8)
    } else {
        (v[4 * g + 2] << 6u8) | v[4 * g + 3]
    }
}

/// The whole bytes of the bit stream made of the 6-bit values `v`.
pub open spec fn bytes_of_sextets(v: Seq<u8>) -> Seq<u8> {
    Seq::new((v.len() * 6 / 8) as nat, |k: int| stream_byte(v, k))
}

/// What decoding the standard-alphabet text `cs` gives.
pub open spec fn base64_decoded(cs: Seq<char>) -> Seq<u8> {
    bytes_of_sextets(sextets(cs))
}

/// `cs` with the base64url characters `-` and `_` replaced by `+` and `/`.
pub open spec fn url_to_standard(cs: Seq<char>) -> Seq<char> {
    cs.map_values(|c: char| if c == '-' { '+' } else if c == '_' { '/' } else { c })
}

/// What decoding the base64url text `cs` gives.
pub open spec fn base64url_decoded(cs: Seq<char>) -> Seq<u8> {
    base64_decoded(url_to_standard(cs))
}

/// The bits of the last, incomplete group of 6-bit values that have not yet
/// formed a byte, as `buf` and `bits` hold them while decoding.
spec fn pending_bits(consumed: Seq<u8>, buf: u32, bits: u32) -> bool {
    let m = consumed.len();
    &&& m % 4 == 0 ==> bits == 0
    &&& m % 4 == 1 ==> bits == 6 && buf & 0x3f == consumed[m - 1] as u32
    &&& m % 4 == 2 ==> bits == 4 && buf & 0xf == (consumed[m - 1] & 0xf) as u32
    &&& m % 4 == 3 ==> bits == 2 && buf & 0x3 == (consumed[m - 1] & 0x3) as u32
}

spec fn all_sextets(v: Seq<u8>) -> bool {
    forall|i: int| 0 <= i < v.len() ==> #[trigger] v[i] < 64
}

proof fn lemma_shift_in_first(buf: u32, x: u8)
    by (bit_vector)
    requires
        x < 64,
    ensures
        ((buf << 6u32) | (x as u32)) & 0x3f == x as u32,
{
}

proof fn lemma_shift_in_second(buf: u32, p: u8, x: u8)
    by (bit_vector)
    requires
        x < 64,
        buf & 0x3f == p as u32,
    ensures
        ((((buf << 6u32) | (x as u32)) >> 4u32) as u8) == ((p << 2u8) | (x >> 4u8)),
        ((buf << 6u32) | (x as u32)) & 0xf == (x & 0xf) as u32,
{
}

proof fn lemma_shift_in_third(buf: u32, p: u8, x: u8)
    by (bit_vector)
    requires
        x < 64,
        buf & 0xf == (p & 0xf) as u32,
    ensures
        ((((buf << 6u32) | (x as u32)) >> 2u32) as u8) == ((p << 4u8) | (x >> 2u8)),
        ((buf << 6u32) | (x as u32)) & 0x3 == (x & 0x3) as u32,
{
}

proof fn lemma_shift_in_fourth(buf: u32, p: u8, x: u8)
    by (bit_vector)
    requires
        x < 64,
        buf & 0x3 == (p & 0x3) as u32,
    ensures
        ((((buf << 6u32) | (x as u32)) >> 0u32) as u8) == ((p << 6u8) | x),
{
}

/// Appending one 6-bit value to the stream adds a byte exactly when it
/// completes one, and leaves the earlier bytes as they were.
proof fn lemma_bytes_push(v: Seq<u8>, x: u8)
    ensures
        v.len() % 4 == 0 ==> bytes_of_sextets(v.push(x)) == bytes_of_sextets(v),
        v.len() % 4 != 0 ==> bytes_of_sextets(v.push(x)) == bytes_of_sextets(v).push(
            stream_byte(v.push(x), (v.len() * 6 / 8) as int),
        ),
{
    let w = v.push(x);
    let m = v.len() as int;
    let g = m / 4;
    let r = m % 4;
    assert(m == 4 * g + r);
    assert(m * 6 / 8 == 3 * g + (if r == 0 { 0int } else if r == 1 { 0 } else if r == 2 { 1 } else { 2 }));
    assert((m + 1) * 6 / 8 == 3 * g + (if r == 0 { 0int } else if r == 1 { 1 } else if r == 2 { 2 } else { 3 }));
    assert forall|k: int| 0 <= k < m * 6 / 8 implies stream_byte(w, k) == stream_byte(v, k) by {
        let h = k / 3;
        assert(k == 3 * h + k % 3);
        assert(h <= g);
        if h == g {
            assert(k % 3 < (if r == 2 { 1int } else { 2 }));
        }
    }
    if r == 0 {
        assert(bytes_of_sextets(w) =~= bytes_of_sextets(v));
    } else {
        assert(bytes_of_sextets(w) =~= bytes_of_sextets(v).push(stream_byte(w, m * 6 / 8)));
    }
}

/// The 6-bit value of a standard-alphabet character, or 255 outside it.
fn sextet_value(c: char) -> (r: u8)
    ensures
        match sextet_of(c) {
            Some(v) => r == v && v < 64,
            None => r == 255,
        },
{
    let v = c as u32;
    if 65 <= v && v <= 90 {
        (v - 65) as u8
    } else if 97 <= v && v <= 122 {
        (v - 71) as u8
    } else if 48 <= v && v <= 57 {
        (v + 4) as u8
    } else if v == 43 {
        62
    } else if v == 47 {
        63
    } else {
        255
    }
}

/// Decodes standard-alphabet base64 text leniently: stops at the first `=`,
/// skips characters outside the alphabet and drops trailing bits. It never
/// fails.
pub fn base64_decode_internal(input: &str) -> (r: Result<Vec<u8>, String>)
    ensures
        r matches Ok(bytes) && bytes@ == base64_decoded(input@),
{
    let mut output: Vec<u8> = Vec::new();
    let mut buf: u32 = 0;
    let mut bits: u32 = 0;
    let ghost mut consumed: Seq<u8> = Seq::empty();
    let mut iter = input.chars();
    loop
        invariant_except_break
            sextets(input@) == consumed + sextets(
                vstd::std_specs::iter::IteratorSpec::remaining(&iter),
            ),
        invariant
            vstd::std_specs::iter::IteratorSpec::decrease(&iter) is Some,
            all_sextets(consumed),
            pending_bits(consumed, buf, bits),
            output@ == bytes_of_sextets(consumed),
        ensures
            sextets(input@) == consumed,
            output@ == bytes_of_sextets(consumed),
        decreases vstd::std_specs::iter::IteratorSpec::decrease(&iter)->0,
    {
        let ghost before = vstd::std_specs::iter::IteratorSpec::remaining(&iter);
        let next = iter.next();
        match next {
            None => {
                assert(sextets(before) =~= Seq::<u8>::empty());
                assert(consumed + Seq::<u8>::empty() =~= consumed);
                break;
            },
            Some(c) => {
                assert(before.drop_first() =~= vstd::std_specs::iter::IteratorSpec::remaining(&iter));
                if c == '=' {
                    assert(consumed + Seq::<u8>::empty() =~= consumed);
                    break;
                }
                let val = sextet_value(c);
                if val == 255 {
                    continue;
                }
                let ghost m = consumed.len();
                let ghost p: u8 = if m > 0 { consumed[m - 1] } else { 0 };
                proof {
                    if m % 4 == 0 {
                        lemma_shift_in_first(buf, val);
                    } else if m % 4 == 1 {
                        lemma_shift_in_second(buf, p, val);
                    } else if m % 4 == 2 {
                        lemma_shift_in_third(buf, p, val);
                    } else {
                        lemma_shift_in_fourth(buf, p, val);
                    }
                    lemma_bytes_push(consumed, val);
                }
                buf = (buf << 6u32) | (val as u32);
                bits = bits + 6;
                if bits >= 8 {
                    bits = bits - 8;
                    output.push(#[verifier::truncate] ((buf >> bits) as u8));
                }
                proof {
                    assert(seq![val] + sextets(before.drop_first()) == sextets(before));
                    assert(consumed.push(val) + sextets(before.drop_first()) =~= consumed + (
                    seq![val] + sextets(before.drop_first())));
                    consumed = consumed.push(val);
                    assert(consumed[consumed.len() - 1] == val);
                }
            },
        }
    }
    Ok(output)
}

/// Characters after the first `=` do not take part in decoding.
proof fn lemma_sextets_stop_at_pad(a: Seq<char>, b: Seq<char>)
    requires
        b.len() == 0 || b[0] == '=',
    ensures
        sextets(a + b) == sextets(a),
    decreases a.len(),
{
    if a.len() == 0 {
        assert(a + b =~= b);
    } else {
        assert((a + b)[0] == a[0]);
        assert((a + b).drop_first() =~= a.drop_first() + b);
        lemma_sextets_stop_at_pad(a.drop_first(), b);
    }
}

/// A character outside the alphabet, other than `=`, does not change what
/// text decodes to.
pub proof fn law_foreign_characters_ignored(a: Seq<char>, c: char, b: Seq<char>)
    requires
        sextet_of(c) is None,
        c != '=',
    ensures
        base64_decoded(a + seq![c] + b) == base64_decoded(a + b),
{
    lemma_sextets_skip_foreign(a, c, b);
}

proof fn lemma_sextets_skip_foreign(a: Seq<char>, c: char, b: Seq<char>)
    requires
        sextet_of(c) is None,
        c != '=',
    ensures
        sextets(a + seq![c] + b) == sextets(a + b),
    decreases a.len(),
{
    if a.len() == 0 {
        assert(a + seq![c] + b =~= seq![c] + b);
        assert((seq![c] + b).drop_first() =~= b);
        assert(a + b =~= b);
    } else {
        assert((a + seq![c] + b)[0] == a[0]);
        assert((a + b)[0] == a[0]);
        assert((a + seq![c] + b).drop_first() =~= a.drop_first() + seq![c] + b);
        assert((a + b).drop_first() =~= a.drop_first() + b);
        lemma_sextets_skip_foreign(a.drop_first(), c, b);
    }
}

/// Removing any characters outside the alphabet, other than `=`, does not
/// change what text decodes to: `keep` must keep every alphabet character and
/// every `=`.
pub proof fn law_removed_foreign_characters_ignored(cs: Seq<char>, keep: spec_fn(char) -> bool)
    requires
        forall|c: char| (sextet_of(c) is Some || c == '=') ==> #[trigger] keep(c),
    ensures
        base64_decoded(cs.filter(keep)) == base64_decoded(cs),
{
    lemma_sextets_filter(cs, keep);
}

proof fn lemma_sextets_filter(cs: Seq<char>, keep: spec_fn(char) -> bool)
    requires
        forall|c: char| (sextet_of(c) is Some || c == '=') ==> #[trigger] keep(c),
    ensures
        sextets(cs.filter(keep)) == sextets(cs),
    decreases cs.len(),
{
    reveal(Seq::filter);
    if cs.len() == 0 {
        assert(cs.filter(keep) =~= cs);
    } else {
        let c = cs[0];
        let rest = cs.drop_first();
        assert(cs =~= seq![c] + rest);
        Seq::filter_distributes_over_add(seq![c], rest, keep);
        assert(seq![c].drop_last() =~= Seq::<char>::empty());
        assert(seq![c].last() == c);
        assert(Seq::<char>::empty().filter(keep) =~= Seq::<char>::empty());
        lemma_sextets_filter(rest, keep);
        let f = cs.filter(keep);
        if keep(c) {
            assert(seq![c].filter(keep) =~= seq![c]);
            assert(f =~= seq![c] + rest.filter(keep));
            assert(f[0] == c);
            assert(f.drop_first() =~= rest.filter(keep));
        } else {
            assert(seq![c].filter(keep) =~= Seq::<char>::empty());
            assert(f =~= rest.filter(keep));
        }
    }
}

/// The base64url character (RFC 4648, section 5) for a 6-bit value.
pub open spec fn url_char(v: u8) -> char {
    if v < 26 {
        (65 + v) as char
    } else if v < 52 {
        (71 + v) as char
    } else if v < 62 {
        (v - 4) as char
    } else if v == 62 {
        '-'
    } else {
        '_'
    }
}

/// The 6-bit value at position `i` of the bit stream of `v`, the last group
/// filled up with zero bits.
pub open spec fn sextet_at(v: Seq<u8>, i: int) -> u8 {
    let g = i / 4;
    let a = v[3 * g];
    let b = if 3 * g + 1 < v.len() {
        v[3 * g + 1]
    } else {
        0u8
    };
    let c = if 3 * g + 2 < v.len() {
        v[3 * g + 2]
    } else {
        0u8
    };
    if i % 4 == 0 {
        a >> 2u8
    } else if i % 4 == 1 {
        ((a & 3u8) << 4u8) | (b >> 4u8)
    } else if i % 4 == 2 {
        ((b & 15u8) << 2u8) | (c >> 6u8)
    } else {
        c & 63u8
    }
}

/// The base64url encoding of `v` without padding: one character for every
/// six bits, the last one filled up with zero bits.
pub open spec fn base64url_encode(v: Seq<u8>) -> Seq<char> {
    Seq::new(((v.len() * 8 + 5) / 6) as nat, |i: int| url_char(sextet_at(v, i)))
}

/// The base64url encoding of `v` padded with `=` to a multiple of four
/// characters.
pub open spec fn base64url_encode_padded(v: Seq<u8>) -> Seq<char> {
    let e = base64url_encode(v);
    e + Seq::new(((4 - e.len() % 4) % 4) as nat, |i: int| '=')
}

proof fn lemma_regroup(a: u8, b: u8, c: u8)
    by (bit_vector)
    ensures
        ((a >> 2u8) << 2u8) | ((((a & 3u8) << 4u8) | (b >> 4u8)) >> 4u8) == a,
        ((((a & 3u8) << 4u8) | (b >> 4u8)) << 4u8) | ((((b & 15u8) << 2u8) | (c >> 6u8)) >> 2u8)
            == b,
        ((((b & 15u8) << 2u8) | (c >> 6u8)) << 6u8) | (c & 63u8) == c,
        a >> 2u8 < 64,
        ((a & 3u8) << 4u8) | (b >> 4u8) < 64,
        ((b & 15u8) << 2u8) | (c >> 6u8) < 64,
        c & 63u8 < 64,
{
}

proof fn lemma_url_char_value(v: u8)
    requires
        v < 64,
    ensures
        url_to_standard(seq![url_char(v)])[0] != '=',
        sextet_of(url_to_standard(seq![url_char(v)])[0]) == Some(v),
{
    if v < 26 {
        assert(((65 + v) as char) as u32 == 65 + v);
    } else if v < 52 {
        assert(((71 + v) as char) as u32 == 71 + v);
    } else if v < 62 {
        assert(((v - 4) as char) as u32 == v - 4);
    }
}

proof fn lemma_sextets_all_valid(cs: Seq<char>)
    requires
        forall|i: int| 0 <= i < cs.len() ==> #[trigger] sextet_of(cs[i]) is Some && cs[i] != '=',
    ensures
        sextets(cs) == Seq::new(cs.len(), |i: int| sextet_of(cs[i]).unwrap()),
    decreases cs.len(),
{
    if cs.len() > 0 {
        let rest = cs.drop_first();
        assert forall|i: int| 0 <= i < rest.len() implies #[trigger] sextet_of(rest[i]) is Some
            && rest[i] != '=' by {
            assert(rest[i] == cs[i + 1]);
        }
        lemma_sextets_all_valid(rest);
        assert(sextet_of(cs[0]) is Some);
        assert(sextets(cs) =~= Seq::new(cs.len(), |i: int| sextet_of(cs[i]).unwrap()));
    }
}

/// Decoding the base64url encoding of bytes gives the bytes back, with or
/// without padding.
pub proof fn law_base64url_round_trip(v: Seq<u8>)
    ensures
        base64url_decoded(base64url_encode(v)) == v,
        base64url_decoded(base64url_encode_padded(v)) == v,
{
    let n = v.len() as int;
    let e = base64url_encode(v);
    let m = e.len() as int;
    let cs = url_to_standard(e);
    let g0 = n / 3;
    let r = n % 3;
    assert(n == 3 * g0 + r);
    assert(m == 4 * g0 + (if r == 0 { 0int } else if r == 1 { 2 } else { 3 }));
    assert forall|i: int| 0 <= i < m implies sextet_at(v, i) < 64 by {
        let g = i / 4;
        lemma_regroup(
            v[3 * g],
            if 3 * g + 1 < n { v[3 * g + 1] } else { 0u8 },
            if 3 * g + 2 < n { v[3 * g + 2] } else { 0u8 },
        );
    }
    assert forall|i: int| 0 <= i < m implies #[trigger] sextet_of(cs[i]) is Some && cs[i] != '='
        && sextet_of(cs[i]) == Some(sextet_at(v, i)) by {
        lemma_url_char_value(sextet_at(v, i));
    }
    lemma_sextets_all_valid(cs);
    let st = sextets(cs);
    assert(st =~= Seq::new(m as nat, |i: int| sextet_at(v, i)));
    assert(m * 6 / 8 == n);
    assert forall|k: int| 0 <= k < n implies #[trigger] stream_byte(st, k) == v[k] by {
        let g = k / 3;
        let j = k % 3;
        assert(k == 3 * g + j);
        let a = v[3 * g];
        let b = if 3 * g + 1 < n { v[3 * g + 1] } else { 0u8 };
        let c = if 3 * g + 2 < n { v[3 * g + 2] } else { 0u8 };
        lemma_regroup(a, b, c);
        assert((4 * g) / 4 == g && (4 * g + 1) / 4 == g && (4 * g + 2) / 4 == g && (4 * g + 3) / 4 == g);
        assert(4 * g + 1 < m);
        if j >= 1 {
            assert(4 * g + 2 < m);
        }
        if j == 2 {
            assert(4 * g + 3 < m);
        }
    }
    assert(bytes_of_sextets(st) =~= v);
    let p = base64url_encode_padded(v);
    let pad = Seq::new(((4 - e.len() % 4) % 4) as nat, |i: int| '=');
    assert(url_to_standard(p) =~= cs + pad);
    lemma_sextets_stop_at_pad(cs, pad);
}

/// Decodes base64url text: `-` and `_` are read as `+` and `/`, the text is
/// padded with `=` to a multiple of four bytes, and the result is decoded as
/// `base64_decode_internal` does. It never fails.
pub fn decode_base64_url(input: &str) -> (r: Result<Vec<u8>, String>)
    ensures
        r matches Ok(bytes) && bytes@ == base64url_decoded(input@),
{
    let mut base64_str = String::new();
    let ghost mut seen: Seq<char> = Seq::empty();
    let mut iter = input.chars();
    loop
        invariant
            input@ == seen + vstd::std_specs::iter::IteratorSpec::remaining(&iter),
            base64_str@ == url_to_standard(seen),
            vstd::std_specs::iter::IteratorSpec::decrease(&iter) is Some,
        ensures
            input@ == seen,
            base64_str@ == url_to_standard(seen),
        decreases vstd::std_specs::iter::IteratorSpec::decrease(&iter)->0,
    {
        let ghost before = vstd::std_specs::iter::IteratorSpec::remaining(&iter);
        match iter.next() {
            None => {
                assert(seen + before =~= seen);
                break;
            },
            Some(c) => {
                let d = if c == '-' {
                    '+'
                } else if c == '_' {
                    '/'
                } else {
                    c
                };
                push_char(&mut base64_str, d);
                proof {
                    assert(url_to_standard(seen.push(c)) =~= url_to_standard(seen).push(d));
                    assert(seen.push(c) + vstd::std_specs::iter::IteratorSpec::remaining(&iter)
                        =~= seen + before);
                    seen = seen.push(c);
                }
            },
        }
    }
    let ghost standard = base64_str@;
    let ghost mut pad: Seq<char> = Seq::empty();
    // Pad with `=` up to a whole number of four-byte groups.
    let missing = (4 - base64_str.as_str().len() % 4) % 4;
    let mut added: usize = 0;
    while added < missing
        invariant
            base64_str@ == standard + pad,
            pad.len() == 0 || pad[0] == '=',
        decreases missing - added,
    {
        push_char(&mut base64_str, '=');
        proof {
            pad = pad.push('=');
            assert(base64_str@ =~= standard + pad);
        }
        added = added + 1;
    }
    proof {
        lemma_sextets_stop_at_pad(standard, pad);
    }
    base64_decode_internal(base64_str.as_str())
}

} // verus!
