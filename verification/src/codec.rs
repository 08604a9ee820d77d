//! Binary serialization of a [`Store`]: a deterministic, lossless,
//! self-describing layout.
//!
//! Layout: every string is a little-endian `u64` character count followed by
//! each character as a little-endian `u32` scalar value; an optional string is
//! a one-byte tag (`0` absent, `1` present) followed, when present, by a
//! string; an entry is its name and two optional fields; a store is its name,
//! a little-endian `u64` entry count, and the entries in order.
use vstd::prelude::*;
use vstd::string::StrSliceExecFns;
use vstd::utf8::char_is_scalar;
use vstd::utf8::char_u32_cast;
use vstd::utf8::is_scalar;

use crate::store::Entry;
use crate::store::EntryView;
use crate::store::Store;
use crate::store::StoreView;
use crate::store::entries_view;
use crate::store::opt_string_view;

verus! {

/// Relies on `char::from_u32`: it returns the character with the given scalar
/// value, and `None` exactly for surrogates and values above the Unicode
/// maximum.
pub assume_specification[ char::from_u32 ](v: u32) -> (r: Option<char>)
    ensures
        r is Some <==> is_scalar(v),
        r is Some ==> r.unwrap() as u32 == v,
;

/// Relies on `String::push`: it appends the given character.
pub assume_specification[ String::push ](s: &mut String, c: char)
    ensures
        final(s)@ == old(s)@.push(c),
;

// ---------------------------------------------------------------------------
// Specification of the encoding
// ---------------------------------------------------------------------------
/// The eight little-endian bytes of `n`.
pub open spec fn le_bytes_of_u64(n: u64) -> Seq<u8> {
    seq![
        (n & 0xff) as u8,
        ((n >> 8) & 0xff) as u8,
        ((n >> 16) & 0xff) as u8,
        ((n >> 24) & 0xff) as u8,
        ((n >> 32) & 0xff) as u8,
        ((n >> 40) & 0xff) as u8,
        ((n >> 48) & 0xff) as u8,
        ((n >> 56) & 0xff) as u8,
    ]
}

/// The `u64` read little-endian from the first eight bytes of `b`.
pub open spec fn u64_of_le_bytes(b: Seq<u8>) -> u64
    recommends
        b.len() >= 8,
{
    (b[0] as u64) | ((b[1] as u64) << 8) | ((b[2] as u64) << 16) | ((b[3] as u64) << 24) | ((
    b[4] as u64) << 32) | ((b[5] as u64) << 40) | ((b[6] as u64) << 48) | ((b[7] as u64) << 56)
}

/// The four little-endian bytes of `v`.
pub open spec fn le_bytes_of_u32(v: u32) -> Seq<u8> {
    seq![(v & 0xff) as u8, ((v >> 8) & 0xff) as u8, ((v >> 16) & 0xff) as u8, ((v >> 24) & 0xff) as u8]
}

/// The `u32` read little-endian from the first four bytes of `b`.
pub open spec fn u32_of_le_bytes(b: Seq<u8>) -> u32
    recommends
        b.len() >= 4,
{
    (b[0] as u32) | ((b[1] as u32) << 8) | ((b[2] as u32) << 16) | ((b[3] as u32) << 24)
}

/// The encoding of one character: its scalar value, little-endian.
pub open spec fn enc_char(c: char) -> Seq<u8> {
    le_bytes_of_u32(c as u32)
}

/// The encoding of a character sequence, character by character.
pub open spec fn enc_chars(s: Seq<char>) -> Seq<u8>
    decreases s.len(),
{
    if s.len() == 0 {
        Seq::empty()
    } else {
        enc_char(s[0]) + enc_chars(s.drop_first())
    }
}

/// The encoding of a string: its length, then its characters.
pub open spec fn enc_string(s: Seq<char>) -> Seq<u8> {
    le_bytes_of_u64(s.len() as u64) + enc_chars(s)
}

/// The encoding of an optional string: a presence tag, then the string.
pub open spec fn enc_opt_string(o: Option<Seq<char>>) -> Seq<u8> {
    match o {
        None => seq![0u8],
        Some(s) => seq![1u8] + enc_string(s),
    }
}

/// The encoding of one entry.
pub open spec fn enc_entry(e: EntryView) -> Seq<u8> {
    enc_string(e.name) + enc_opt_string(e.username) + enc_opt_string(e.password)
}

/// The encoding of a sequence of entries, entry by entry.
pub open spec fn enc_entries(es: Seq<EntryView>) -> Seq<u8>
    decreases es.len(),
{
    if es.len() == 0 {
        Seq::empty()
    } else {
        enc_entry(es[0]) + enc_entries(es.drop_first())
    }
}

/// The encoding of a whole store: its name, the entry count, the entries.
pub open spec fn enc_store(s: StoreView) -> Seq<u8> {
    enc_string(s.name) + le_bytes_of_u64(s.entries.len() as u64) + enc_entries(s.entries)
}

/// Whether a string's length fits the length prefix.
pub open spec fn string_encodable(s: Seq<char>) -> bool {
    s.len() <= u64::MAX
}

/// Whether an optional string fits its encoding.
pub open spec fn opt_string_encodable(o: Option<Seq<char>>) -> bool {
    match o {
        None => true,
        Some(s) => string_encodable(s),
    }
}

/// Whether every field of an entry fits its encoding.
pub open spec fn entry_encodable(e: EntryView) -> bool {
    string_encodable(e.name) && opt_string_encodable(e.username) && opt_string_encodable(
        e.password,
    )
}

/// Whether a store fits its encoding.
pub open spec fn store_encodable(s: StoreView) -> bool {
    &&& string_encodable(s.name)
    &&& s.entries.len() <= u64::MAX
    &&& forall|i: int| 0 <= i < s.entries.len() ==> entry_encodable(#[trigger] s.entries[i])
}

// ---------------------------------------------------------------------------
// Specification of the decoding
// ---------------------------------------------------------------------------
/// Reads a little-endian `u64`; yields the value and the remaining bytes.
pub open spec fn dec_u64(b: Seq<u8>) -> Option<(u64, Seq<u8>)> {
    if b.len() >= 8 {
        Some((u64_of_le_bytes(b.take(8)), b.skip(8)))
    } else {
        None
    }
}

/// Reads a little-endian `u32`; yields the value and the remaining bytes.
pub open spec fn dec_u32(b: Seq<u8>) -> Option<(u32, Seq<u8>)> {
    if b.len() >= 4 {
        Some((u32_of_le_bytes(b.take(4)), b.skip(4)))
    } else {
        None
    }
}

/// Reads one character; fails on values that are no Unicode scalar.
pub open spec fn dec_char(b: Seq<u8>) -> Option<(char, Seq<u8>)> {
    match dec_u32(b) {
        None => None,
        Some((v, rest)) => if is_scalar(v) {
            Some((v as char, rest))
        } else {
            None
        },
    }
}

/// Reads exactly `n` characters.
pub open spec fn dec_chars(b: Seq<u8>, n: nat) -> Option<(Seq<char>, Seq<u8>)>
    decreases n,
{
    if n == 0 {
        Some((Seq::empty(), b))
    } else {
        match dec_char(b) {
            None => None,
            Some((c, rest)) => match dec_chars(rest, (n - 1) as nat) {
                None => None,
                Some((s, rest2)) => Some((seq![c] + s, rest2)),
            },
        }
    }
}

/// Reads a length-prefixed string.
pub open spec fn dec_string(b: Seq<u8>) -> Option<(Seq<char>, Seq<u8>)> {
    match dec_u64(b) {
        None => None,
        Some((n, rest)) => dec_chars(rest, n as nat),
    }
}

/// Reads a tagged optional string.
pub open spec fn dec_opt_string(b: Seq<u8>) -> Option<(Option<Seq<char>>, Seq<u8>)> {
    if b.len() == 0 {
        None
    } else if b[0] == 0 {
        Some((None, b.drop_first()))
    } else if b[0] == 1 {
        match dec_string(b.drop_first()) {
            None => None,
            Some((s, rest)) => Some((Some(s), rest)),
        }
    } else {
        None
    }
}

/// Reads one entry.
pub open spec fn dec_entry(b: Seq<u8>) -> Option<(EntryView, Seq<u8>)> {
    match dec_string(b) {
        None => None,
        Some((name, b1)) => match dec_opt_string(b1) {
            None => None,
            Some((username, b2)) => match dec_opt_string(b2) {
                None => None,
                Some((password, b3)) => Some((EntryView { name, username, password }, b3)),
            },
        },
    }
}

/// Reads exactly `n` entries.
pub open spec fn dec_entries(b: Seq<u8>, n: nat) -> Option<(Seq<EntryView>, Seq<u8>)>
    decreases n,
{
    if n == 0 {
        Some((Seq::empty(), b))
    } else {
        match dec_entry(b) {
            None => None,
            Some((e, rest)) => match dec_entries(rest, (n - 1) as nat) {
                None => None,
                Some((es, rest2)) => Some((seq![e] + es, rest2)),
            },
        }
    }
}

/// Reads a store header and its entries.
pub open spec fn dec_store(b: Seq<u8>) -> Option<(StoreView, Seq<u8>)> {
    match dec_string(b) {
        None => None,
        Some((name, b1)) => match dec_u64(b1) {
            None => None,
            Some((n, b2)) => match dec_entries(b2, n as nat) {
                None => None,
                Some((es, b3)) => Some((StoreView { name, entries: es }, b3)),
            },
        },
    }
}

/// The store whose encoding is exactly `b`, if any: decoding must consume
/// every byte.
pub open spec fn dec_store_exact(b: Seq<u8>) -> Option<StoreView> {
    match dec_store(b) {
        None => None,
        Some((s, rest)) => if rest.len() == 0 {
            Some(s)
        } else {
            None
        },
    }
}

// ---------------------------------------------------------------------------
// The decoder inverts the encoder
// ---------------------------------------------------------------------------
proof fn lemma_u64_le_round_trip(n: u64)
    ensures
        u64_of_le_bytes(le_bytes_of_u64(n)) == n,
{
    let b = le_bytes_of_u64(n);
    assert(b[0] == (n & 0xff) as u8);
    assert(b[1] == ((n >> 8) & 0xff) as u8);
    assert(b[2] == ((n >> 16) & 0xff) as u8);
    assert(b[3] == ((n >> 24) & 0xff) as u8);
    assert(b[4] == ((n >> 32) & 0xff) as u8);
    assert(b[5] == ((n >> 40) & 0xff) as u8);
    assert(b[6] == ((n >> 48) & 0xff) as u8);
    assert(b[7] == ((n >> 56) & 0xff) as u8);
    assert((((n & 0xff) as u8) as u64) | ((((n >> 8) & 0xff) as u8) as u64) << 8 | ((((n >> 16)
        & 0xff) as u8) as u64) << 16 | ((((n >> 24) & 0xff) as u8) as u64) << 24 | ((((n >> 32)
        & 0xff) as u8) as u64) << 32 | ((((n >> 40) & 0xff) as u8) as u64) << 40 | ((((n >> 48)
        & 0xff) as u8) as u64) << 48 | ((((n >> 56) & 0xff) as u8) as u64) << 56 == n)
        by (bit_vector);
}

proof fn lemma_u32_le_round_trip(v: u32)
    ensures
        u32_of_le_bytes(le_bytes_of_u32(v)) == v,
{
    let b = le_bytes_of_u32(v);
    assert(b[0] == (v & 0xff) as u8);
    assert(b[1] == ((v >> 8) & 0xff) as u8);
    assert(b[2] == ((v >> 16) & 0xff) as u8);
    assert(b[3] == ((v >> 24) & 0xff) as u8);
    assert((((v & 0xff) as u8) as u32) | ((((v >> 8) & 0xff) as u8) as u32) << 8 | ((((v >> 16)
        & 0xff) as u8) as u32) << 16 | ((((v >> 24) & 0xff) as u8) as u32) << 24 == v)
        by (bit_vector);
}

proof fn lemma_dec_u64_enc(n: u64, rest: Seq<u8>)
    ensures
        dec_u64(le_bytes_of_u64(n) + rest) == Some((n, rest)),
{
    let b = le_bytes_of_u64(n) + rest;
    assert(b.take(8) =~= le_bytes_of_u64(n));
    assert(b.skip(8) =~= rest);
    lemma_u64_le_round_trip(n);
}

proof fn lemma_dec_char_enc(c: char, rest: Seq<u8>)
    ensures
        dec_char(enc_char(c) + rest) == Some((c, rest)),
{
    let b = enc_char(c) + rest;
    assert(b.take(4) =~= le_bytes_of_u32(c as u32));
    assert(b.skip(4) =~= rest);
    lemma_u32_le_round_trip(c as u32);
    char_is_scalar(c);
    char_u32_cast(c, c as u32);
}

proof fn lemma_dec_chars_enc(s: Seq<char>, rest: Seq<u8>)
    ensures
        dec_chars(enc_chars(s) + rest, s.len()) == Some((s, rest)),
    decreases s.len(),
{
    if s.len() == 0 {
        assert(enc_chars(s) + rest =~= rest);
        assert(Seq::<char>::empty() =~= s);
    } else {
        let tail = s.drop_first();
        assert(enc_chars(s) + rest =~= enc_char(s[0]) + (enc_chars(tail) + rest));
        lemma_dec_char_enc(s[0], enc_chars(tail) + rest);
        lemma_dec_chars_enc(tail, rest);
        assert(seq![s[0]] + tail =~= s);
    }
}

proof fn lemma_dec_string_enc(s: Seq<char>, rest: Seq<u8>)
    requires
        string_encodable(s),
    ensures
        dec_string(enc_string(s) + rest) == Some((s, rest)),
{
    assert(enc_string(s) + rest =~= le_bytes_of_u64(s.len() as u64) + (enc_chars(s) + rest));
    lemma_dec_u64_enc(s.len() as u64, enc_chars(s) + rest);
    assert((s.len() as u64) as nat == s.len());
    lemma_dec_chars_enc(s, rest);
}

proof fn lemma_dec_opt_string_enc(o: Option<Seq<char>>, rest: Seq<u8>)
    requires
        opt_string_encodable(o),
    ensures
        dec_opt_string(enc_opt_string(o) + rest) == Some((o, rest)),
{
    match o {
        None => {
            let b = seq![0u8] + rest;
            assert(b[0] == 0u8);
            assert(b.drop_first() =~= rest);
        },
        Some(s) => {
            let b = enc_opt_string(o) + rest;
            assert(b[0] == 1u8);
            assert(b.drop_first() =~= enc_string(s) + rest);
            lemma_dec_string_enc(s, rest);
        },
    }
}

proof fn lemma_dec_entry_enc(e: EntryView, rest: Seq<u8>)
    requires
        entry_encodable(e),
    ensures
        dec_entry(enc_entry(e) + rest) == Some((e, rest)),
{
    let r2 = enc_opt_string(e.password) + rest;
    let r1 = enc_opt_string(e.username) + r2;
    assert(enc_entry(e) + rest =~= enc_string(e.name) + r1);
    lemma_dec_string_enc(e.name, r1);
    lemma_dec_opt_string_enc(e.username, r2);
    lemma_dec_opt_string_enc(e.password, rest);
}

proof fn lemma_dec_entries_enc(es: Seq<EntryView>, rest: Seq<u8>)
    requires
        forall|i: int| 0 <= i < es.len() ==> entry_encodable(#[trigger] es[i]),
    ensures
        dec_entries(enc_entries(es) + rest, es.len()) == Some((es, rest)),
    decreases es.len(),
{
    if es.len() == 0 {
        assert(enc_entries(es) + rest =~= rest);
        assert(Seq::<EntryView>::empty() =~= es);
    } else {
        let tail = es.drop_first();
        assert(enc_entries(es) + rest =~= enc_entry(es[0]) + (enc_entries(tail) + rest));
        lemma_dec_entry_enc(es[0], enc_entries(tail) + rest);
        lemma_dec_entries_enc(tail, rest);
        assert(seq![es[0]] + tail =~= es);
    }
}

/// The codec loses nothing: decoding the encoding of any store that fits the
/// length prefixes gives back exactly that store.
pub proof fn lemma_codec_round_trip(s: StoreView)
    requires
        store_encodable(s),
    ensures
        dec_store_exact(enc_store(s)) == Some(s),
{
    let cnt = le_bytes_of_u64(s.entries.len() as u64);
    let rest = Seq::<u8>::empty();
    assert(enc_store(s) =~= enc_string(s.name) + (cnt + (enc_entries(s.entries) + rest)));
    lemma_dec_string_enc(s.name, cnt + (enc_entries(s.entries) + rest));
    lemma_dec_u64_enc(s.entries.len() as u64, enc_entries(s.entries) + rest);
    assert((s.entries.len() as u64) as nat == s.entries.len());
    lemma_dec_entries_enc(s.entries, rest);
}

// ---------------------------------------------------------------------------
// Executable encoder
// ---------------------------------------------------------------------------
proof fn lemma_enc_chars_push(s: Seq<char>, c: char)
    ensures
        enc_chars(s.push(c)) == enc_chars(s) + enc_char(c),
    decreases s.len(),
{
    if s.len() == 0 {
        assert(s.push(c)[0] == c);
        assert(s.push(c).drop_first() =~= Seq::<char>::empty());
        assert(enc_chars(s.push(c)) == enc_char(c) + enc_chars(Seq::<char>::empty()));
        assert(enc_char(c) + Seq::<u8>::empty() =~= Seq::<u8>::empty() + enc_char(c));
    } else {
        let t = s.drop_first();
        assert(s.push(c)[0] == s[0]);
        assert(s.push(c).drop_first() =~= t.push(c));
        lemma_enc_chars_push(t, c);
        assert(enc_chars(s.push(c)) == enc_char(s[0]) + (enc_chars(t) + enc_char(c)));
        assert(enc_char(s[0]) + (enc_chars(t) + enc_char(c)) =~= (enc_char(s[0]) + enc_chars(t))
            + enc_char(c));
    }
}

proof fn lemma_enc_entries_push(es: Seq<EntryView>, e: EntryView)
    ensures
        enc_entries(es.push(e)) == enc_entries(es) + enc_entry(e),
    decreases es.len(),
{
    if es.len() == 0 {
        assert(es.push(e)[0] == e);
        assert(es.push(e).drop_first() =~= Seq::<EntryView>::empty());
        assert(enc_entries(es.push(e)) == enc_entry(e) + enc_entries(Seq::<EntryView>::empty()));
        assert(enc_entry(e) + Seq::<u8>::empty() =~= Seq::<u8>::empty() + enc_entry(e));
    } else {
        let t = es.drop_first();
        assert(es.push(e)[0] == es[0]);
        assert(es.push(e).drop_first() =~= t.push(e));
        lemma_enc_entries_push(t, e);
        assert(enc_entries(es.push(e)) == enc_entry(es[0]) + (enc_entries(t) + enc_entry(e)));
        assert(enc_entry(es[0]) + (enc_entries(t) + enc_entry(e)) =~= (enc_entry(es[0])
            + enc_entries(t)) + enc_entry(e));
    }
}

fn push_u64(out: &mut Vec<u8>, n: u64)
    ensures
        final(out)@ == old(out)@ + le_bytes_of_u64(n),
{
    out.push((n & 0xff) as u8);
    out.push(((n >> 8) & 0xff) as u8);
    out.push(((n >> 16) & 0xff) as u8);
    out.push(((n >> 24) & 0xff) as u8);
    out.push(((n >> 32) & 0xff) as u8);
    out.push(((n >> 40) & 0xff) as u8);
    out.push(((n >> 48) & 0xff) as u8);
    out.push(((n >> 56) & 0xff) as u8);
    proof {
        assert(out@ =~= old(out)@ + le_bytes_of_u64(n));
    }
}

fn push_u32(out: &mut Vec<u8>, v: u32)
    ensures
        final(out)@ == old(out)@ + le_bytes_of_u32(v),
{
    out.push((v & 0xff) as u8);
    out.push(((v >> 8) & 0xff) as u8);
    out.push(((v >> 16) & 0xff) as u8);
    out.push(((v >> 24) & 0xff) as u8);
    proof {
        assert(out@ =~= old(out)@ + le_bytes_of_u32(v));
    }
}

fn push_string(out: &mut Vec<u8>, s: &str)
    ensures
        final(out)@ == old(out)@ + enc_string(s@),
        string_encodable(s@),
{
    let n = s.unicode_len();
    push_u64(out, n as u64);
    let mut i: usize = 0;
    while i < n
        invariant
            n == s@.len(),
            i <= n,
            out@ == old(out)@ + le_bytes_of_u64(s@.len() as u64) + enc_chars(s@.take(i as int)),
        decreases n - i,
    {
        let c = s.get_char(i);
        push_u32(out, c as u32);
        proof {
            assert(s@.take(i as int).push(c) =~= s@.take(i as int + 1));
            lemma_enc_chars_push(s@.take(i as int), c);
            assert(out@ =~= old(out)@ + le_bytes_of_u64(s@.len() as u64) + enc_chars(
                s@.take(i as int + 1),
            ));
        }
        i += 1;
    }
    proof {
        assert(s@.take(n as int) =~= s@);
        assert(out@ =~= old(out)@ + enc_string(s@));
    }
}

fn push_opt_string(out: &mut Vec<u8>, o: &Option<String>)
    ensures
        final(out)@ == old(out)@ + enc_opt_string(opt_string_view(*o)),
        opt_string_encodable(opt_string_view(*o)),
{
    match o {
        None => {
            out.push(0u8);
            proof {
                assert(out@ =~= old(out)@ + enc_opt_string(opt_string_view(*o)));
            }
        },
        Some(s) => {
            out.push(1u8);
            push_string(out, s.as_str());
            proof {
                assert(out@ =~= old(out)@ + enc_opt_string(opt_string_view(*o)));
            }
        },
    }
}

fn push_entry(out: &mut Vec<u8>, e: &Entry)
    ensures
        final(out)@ == old(out)@ + enc_entry(e@),
        entry_encodable(e@),
{
    push_string(out, e.name.as_str());
    push_opt_string(out, &e.username);
    push_opt_string(out, &e.password);
    proof {
        assert(out@ =~= old(out)@ + enc_entry(e@));
    }
}

/// Serialize a store into the byte layout described above.
pub fn encode_store(s: &Store) -> (r: Vec<u8>)
    ensures
        r@ == enc_store(s@),
        store_encodable(s@),
{
    let mut out: Vec<u8> = Vec::new();
    push_string(&mut out, s.name.as_str());
    let n = s.entries.len();
    push_u64(&mut out, n as u64);
    let ghost header = enc_string(s@.name) + le_bytes_of_u64(s@.entries.len() as u64);
    proof {
        assert(out@ =~= header + enc_entries(s@.entries.take(0)));
    }
    let mut i: usize = 0;
    while i < n
        invariant
            n == s.entries.len(),
            i <= n,
            header == enc_string(s@.name) + le_bytes_of_u64(s@.entries.len() as u64),
            s@.entries == entries_view(s.entries@),
            out@ == header + enc_entries(s@.entries.take(i as int)),
            string_encodable(s@.name),
            forall|j: int| 0 <= j < i ==> entry_encodable(#[trigger] s@.entries[j]),
        decreases n - i,
    {
        push_entry(&mut out, &s.entries[i]);
        proof {
            assert(s@.entries[i as int] == s.entries@[i as int]@);
            assert(s@.entries.take(i as int).push(s@.entries[i as int]) =~= s@.entries.take(
                i as int + 1,
            ));
            lemma_enc_entries_push(s@.entries.take(i as int), s@.entries[i as int]);
            assert(out@ =~= header + enc_entries(s@.entries.take(i as int + 1)));
        }
        i += 1;
    }
    proof {
        assert(s@.entries.take(n as int) =~= s@.entries);
        assert(out@ =~= enc_store(s@));
    }
    out
}

// ---------------------------------------------------------------------------
// Executable decoder
// ---------------------------------------------------------------------------
/// `o` with the characters `a` prepended to a successful result.
spec fn prepend_chars(a: Seq<char>, o: Option<(Seq<char>, Seq<u8>)>) -> Option<
    (Seq<char>, Seq<u8>),
> {
    match o {
        None => None,
        Some((s, rest)) => Some((a + s, rest)),
    }
}

/// `o` with the entries `a` prepended to a successful result.
spec fn prepend_entries(a: Seq<EntryView>, o: Option<(Seq<EntryView>, Seq<u8>)>) -> Option<
    (Seq<EntryView>, Seq<u8>),
> {
    match o {
        None => None,
        Some((es, rest)) => Some((a + es, rest)),
    }
}

fn read_u64(data: &[u8], pos: usize) -> (r: Option<(u64, usize)>)
    requires
        pos <= data@.len(),
    ensures
        match r {
            Some(vp) => vp.1 == pos + 8 && vp.1 <= data@.len() && dec_u64(data@.skip(pos as int))
                == Some((vp.0, data@.skip(vp.1 as int))),
            None => dec_u64(data@.skip(pos as int)) is None,
        },
{
    if data.len() - pos >= 8 {
        let v: u64 = (data[pos] as u64) | ((data[pos + 1] as u64) << 8) | ((data[pos
            + 2] as u64) << 16) | ((data[pos + 3] as u64) << 24) | ((data[pos + 4] as u64) << 32)
            | ((data[pos + 5] as u64) << 40) | ((data[pos + 6] as u64) << 48) | ((data[pos
            + 7] as u64) << 56);
        proof {
            let b = data@.skip(pos as int);
            assert(b.take(8)[0] == data@[pos as int]);
            assert(b.take(8)[1] == data@[pos as int + 1]);
            assert(b.take(8)[2] == data@[pos as int + 2]);
            assert(b.take(8)[3] == data@[pos as int + 3]);
            assert(b.take(8)[4] == data@[pos as int + 4]);
            assert(b.take(8)[5] == data@[pos as int + 5]);
            assert(b.take(8)[6] == data@[pos as int + 6]);
            assert(b.take(8)[7] == data@[pos as int + 7]);
            assert(u64_of_le_bytes(b.take(8)) == v);
            assert(b.skip(8) =~= data@.skip(pos as int + 8));
        }
        Some((v, pos + 8))
    } else {
        None
    }
}

fn read_char(data: &[u8], pos: usize) -> (r: Option<(char, usize)>)
    requires
        pos <= data@.len(),
    ensures
        match r {
            Some(cp) => cp.1 == pos + 4 && cp.1 <= data@.len() && dec_char(data@.skip(pos as int))
                == Some((cp.0, data@.skip(cp.1 as int))),
            None => dec_char(data@.skip(pos as int)) is None,
        },
{
    if data.len() - pos >= 4 {
        let v: u32 = (data[pos] as u32) | ((data[pos + 1] as u32) << 8) | ((data[pos
            + 2] as u32) << 16) | ((data[pos + 3] as u32) << 24);
        proof {
            let b = data@.skip(pos as int);
            assert(b.take(4)[0] == data@[pos as int]);
            assert(b.take(4)[1] == data@[pos as int + 1]);
            assert(b.take(4)[2] == data@[pos as int + 2]);
            assert(b.take(4)[3] == data@[pos as int + 3]);
            assert(u32_of_le_bytes(b.take(4)) == v);
            assert(b.skip(4) =~= data@.skip(pos as int + 4));
        }
        match char::from_u32(v) {
            Some(c) => {
                proof {
                    char_u32_cast(c, v);
                }
                Some((c, pos + 4))
            },
            None => None,
        }
    } else {
        None
    }
}

fn read_string(data: &[u8], pos: usize) -> (r: Option<(String, usize)>)
    requires
        pos <= data@.len(),
    ensures
        match r {
            Some(sp) => sp.1 <= data@.len() && dec_string(data@.skip(pos as int)) == Some(
                (sp.0@, data@.skip(sp.1 as int)),
            ),
            None => dec_string(data@.skip(pos as int)) is None,
        },
{
    match read_u64(data, pos) {
        None => None,
        Some((n, start)) => {
            let mut s = String::new();
            let mut p: usize = start;
            let mut i: u64 = 0;
            while i < n
                invariant
                    i <= n,
                    p <= data@.len(),
                    dec_string(data@.skip(pos as int)) == dec_chars(
                        data@.skip(start as int),
                        n as nat,
                    ),
                    dec_chars(data@.skip(start as int), n as nat) == prepend_chars(
                        s@,
                        dec_chars(data@.skip(p as int), (n - i) as nat),
                    ),
                decreases n - i,
            {
                match read_char(data, p) {
                    None => {
                        proof {
                            assert(dec_chars(data@.skip(p as int), (n - i) as nat) is None);
                        }
                        return None;
                    },
                    Some((c, p2)) => {
                        proof {
                            let k = (n - i) as nat;
                            let inner = dec_chars(data@.skip(p2 as int), (k - 1) as nat);
                            if inner is Some {
                                let (s2, r2) = inner.unwrap();
                                assert(dec_chars(data@.skip(p as int), k) == Some(
                                    (seq![c] + s2, r2),
                                ));
                                assert(s@ + (seq![c] + s2) =~= s@.push(c) + s2);
                            } else {
                                assert(dec_chars(data@.skip(p as int), k) is None);
                            }
                        }
                        s.push(c);
                        p = p2;
                        i = i + 1;
                    },
                }
            }
            proof {
                assert(dec_chars(data@.skip(p as int), 0) == Some(
                    (Seq::<char>::empty(), data@.skip(p as int)),
                ));
                assert(s@ + Seq::<char>::empty() =~= s@);
            }
            Some((s, p))
        },
    }
}

fn read_opt_string(data: &[u8], pos: usize) -> (r: Option<(Option<String>, usize)>)
    requires
        pos <= data@.len(),
    ensures
        match r {
            Some(op) => op.1 <= data@.len() && dec_opt_string(data@.skip(pos as int)) == Some(
                (opt_string_view(op.0), data@.skip(op.1 as int)),
            ),
            None => dec_opt_string(data@.skip(pos as int)) is None,
        },
{
    if pos >= data.len() {
        return None;
    }
    let tag = data[pos];
    proof {
        assert(data@.skip(pos as int)[0] == data@[pos as int]);
        assert(data@.skip(pos as int).drop_first() =~= data@.skip(pos as int + 1));
    }
    if tag == 0 {
        Some((None, pos + 1))
    } else if tag == 1 {
        match read_string(data, pos + 1) {
            None => None,
            Some((s, p2)) => Some((Some(s), p2)),
        }
    } else {
        None
    }
}

fn read_entry(data: &[u8], pos: usize) -> (r: Option<(Entry, usize)>)
    requires
        pos <= data@.len(),
    ensures
        match r {
            Some(ep) => ep.1 <= data@.len() && dec_entry(data@.skip(pos as int)) == Some(
                (ep.0@, data@.skip(ep.1 as int)),
            ),
            None => dec_entry(data@.skip(pos as int)) is None,
        },
{
    match read_string(data, pos) {
        None => None,
        Some((name, p1)) => match read_opt_string(data, p1) {
            None => None,
            Some((username, p2)) => match read_opt_string(data, p2) {
                None => None,
                Some((password, p3)) => {
                    let e = Entry { name, username, password };
                    Some((e, p3))
                },
            },
        },
    }
}

/// Parse a store from the byte layout described above; `None` reports a
/// malformed payload (truncated input, an invalid character or tag, or
/// trailing bytes).
pub fn decode_store(data: &[u8]) -> (r: Option<Store>)
    ensures
        match r {
            Some(s) => dec_store_exact(data@) == Some(s@),
            None => dec_store_exact(data@) is None,
        },
{
    proof {
        assert(data@.skip(0) =~= data@);
    }
    match read_string(data, 0) {
        None => None,
        Some((name, p1)) => match read_u64(data, p1) {
            None => None,
            Some((cnt, start)) => {
                let mut entries: Vec<Entry> = Vec::new();
                let mut p: usize = start;
                let mut i: u64 = 0;
                proof {
                    assert(entries_view(entries@) =~= Seq::<EntryView>::empty());
                }
                while i < cnt
                    invariant
                        i <= cnt,
                        p <= data@.len(),
                        p1 <= data@.len(),
                        dec_string(data@) == Some((name@, data@.skip(p1 as int))),
                        dec_u64(data@.skip(p1 as int)) == Some((cnt, data@.skip(start as int))),
                        dec_entries(data@.skip(start as int), cnt as nat) == prepend_entries(
                            entries_view(entries@),
                            dec_entries(data@.skip(p as int), (cnt - i) as nat),
                        ),
                    decreases cnt - i,
                {
                    match read_entry(data, p) {
                        None => {
                            proof {
                                assert(dec_entries(data@.skip(p as int), (cnt - i) as nat) is None);
                            }
                            return None;
                        },
                        Some((e, p2)) => {
                            proof {
                                let k = (cnt - i) as nat;
                                let inner = dec_entries(data@.skip(p2 as int), (k - 1) as nat);
                                if inner is Some {
                                    let (es2, r2) = inner.unwrap();
                                    assert(dec_entries(data@.skip(p as int), k) == Some(
                                        (seq![e@] + es2, r2),
                                    ));
                                    assert(entries_view(entries@) + (seq![e@] + es2)
                                        =~= entries_view(entries@).push(e@) + es2);
                                } else {
                                    assert(dec_entries(data@.skip(p as int), k) is None);
                                }
                                assert(entries_view(entries@.push(e)) =~= entries_view(
                                    entries@,
                                ).push(e@));
                            }
                            entries.push(e);
                            p = p2;
                            i = i + 1;
                        },
                    }
                }
                proof {
                    assert(dec_entries(data@.skip(p as int), 0) == Some(
                        (Seq::<EntryView>::empty(), data@.skip(p as int)),
                    ));
                    assert(entries_view(entries@) + Seq::<EntryView>::empty() =~= entries_view(
                        entries@,
                    ));
                }
                if p == data.len() {
                    proof {
                        assert(data@.skip(p as int).len() == 0);
                    }
                    let s = Store { name, entries };
                    Some(s)
                } else {
                    None
                }
            },
        },
    }
}

} // verus!
