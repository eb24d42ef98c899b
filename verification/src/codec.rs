//! The byte encodings of effect arguments and results, as produced by
//! `bincode` 1.3 with its default (little-endian, fixed-width) settings.
//!
//! Each encoding is stated as a spec function; the trusted items below call
//! bincode and claim exactly these bytes. Decoders are stated as "take"
//! functions that report the value and the number of bytes consumed;
//! trailing bytes are ignored, as bincode's `deserialize` ignores them.
use vstd::prelude::*;
use vstd::utf8::*;

verus! {

#[verifier::external_type_specification]
#[verifier::external_body]
pub struct ExBincodeErrorKind(bincode::ErrorKind);

// ---------------------------------------------------------------------------
// encodings

pub open spec fn enc_u64(v: u64) -> Seq<u8> {
    seq![
        v as u8,
        (v >> 8u64) as u8,
        (v >> 16u64) as u8,
        (v >> 24u64) as u8,
        (v >> 32u64) as u8,
        (v >> 40u64) as u8,
        (v >> 48u64) as u8,
        (v >> 56u64) as u8,
    ]
}

pub open spec fn enc_u32(v: u32) -> Seq<u8> {
    seq![v as u8, (v >> 8u32) as u8, (v >> 16u32) as u8, (v >> 24u32) as u8]
}

/// a byte sequence: its length as a u64, then the bytes.
pub open spec fn enc_bytes(b: Seq<u8>) -> Seq<u8> {
    enc_u64(b.len() as u64) + b
}

/// a string: its UTF-8 bytes, framed like a byte sequence.
pub open spec fn enc_str(s: Seq<char>) -> Seq<u8> {
    enc_bytes(encode_utf8(s))
}

pub open spec fn enc_opt_str(o: Option<Seq<char>>) -> Seq<u8> {
    match o {
        None => seq![0u8],
        Some(s) => seq![1u8] + enc_str(s),
    }
}

pub open spec fn enc_res_bytes(r: Result<Seq<u8>, Seq<char>>) -> Seq<u8> {
    match r {
        Ok(b) => enc_u32(0) + enc_bytes(b),
        Err(s) => enc_u32(1) + enc_str(s),
    }
}

pub open spec fn enc_res_u64(r: Result<u64, Seq<char>>) -> Seq<u8> {
    match r {
        Ok(v) => enc_u32(0) + enc_u64(v),
        Err(s) => enc_u32(1) + enc_str(s),
    }
}

pub open spec fn enc_str_bytes(s: Seq<char>, b: Seq<u8>) -> Seq<u8> {
    enc_str(s) + enc_bytes(b)
}

pub open spec fn enc_str_items(v: Seq<Seq<char>>) -> Seq<u8>
    decreases v.len(),
{
    if v.len() == 0 {
        Seq::empty()
    } else {
        enc_str_items(v.drop_last()) + enc_str(v.last())
    }
}

/// a list of strings: the count as a u64, then each string.
pub open spec fn enc_strs(v: Seq<Seq<char>>) -> Seq<u8> {
    enc_u64(v.len() as u64) + enc_str_items(v)
}

// ---------------------------------------------------------------------------
// decodings

pub open spec fn le_u64(b: Seq<u8>) -> u64
    recommends
        b.len() >= 8,
{
    (b[0] as u64) | ((b[1] as u64) << 8u64) | ((b[2] as u64) << 16u64) | ((b[3] as u64)
        << 24u64) | ((b[4] as u64) << 32u64) | ((b[5] as u64) << 40u64) | ((b[6] as u64)
        << 48u64) | ((b[7] as u64) << 56u64)
}

pub open spec fn le_u32(b: Seq<u8>) -> u32
    recommends
        b.len() >= 4,
{
    (b[0] as u32) | ((b[1] as u32) << 8u32) | ((b[2] as u32) << 16u32) | ((b[3] as u32)
        << 24u32)
}

pub open spec fn take_u64(b: Seq<u8>) -> Option<(u64, int)> {
    if b.len() >= 8 {
        Some((le_u64(b), 8))
    } else {
        None
    }
}

pub open spec fn take_u32(b: Seq<u8>) -> Option<(u32, int)> {
    if b.len() >= 4 {
        Some((le_u32(b), 4))
    } else {
        None
    }
}

pub open spec fn take_bytes(b: Seq<u8>) -> Option<(Seq<u8>, int)> {
    match take_u64(b) {
        Some((n, k)) => if n <= usize::MAX && n <= b.len() - k {
            Some((b.subrange(k, k + n), k + n))
        } else {
            None
        },
        None => None,
    }
}

pub open spec fn take_str(b: Seq<u8>) -> Option<(Seq<char>, int)> {
    match take_bytes(b) {
        Some((bytes, k)) => if valid_utf8(bytes) {
            Some((decode_utf8(bytes), k))
        } else {
            None
        },
        None => None,
    }
}

pub open spec fn take_opt_str(b: Seq<u8>) -> Option<(Option<Seq<char>>, int)> {
    if b.len() == 0 {
        None
    } else if b[0] == 0 {
        Some((None, 1))
    } else if b[0] == 1 {
        match take_str(b.skip(1)) {
            Some((s, k)) => Some((Some(s), k + 1)),
            None => None,
        }
    } else {
        None
    }
}

pub open spec fn take_res_bytes(b: Seq<u8>) -> Option<(Result<Seq<u8>, Seq<char>>, int)> {
    match take_u32(b) {
        Some((tag, k)) => if tag == 0 {
            match take_bytes(b.skip(k)) {
                Some((v, j)) => Some((Ok(v), k + j)),
                None => None,
            }
        } else if tag == 1 {
            match take_str(b.skip(k)) {
                Some((s, j)) => Some((Err(s), k + j)),
                None => None,
            }
        } else {
            None
        },
        None => None,
    }
}

pub open spec fn take_res_u64(b: Seq<u8>) -> Option<(Result<u64, Seq<char>>, int)> {
    match take_u32(b) {
        Some((tag, k)) => if tag == 0 {
            match take_u64(b.skip(k)) {
                Some((v, j)) => Some((Ok(v), k + j)),
                None => None,
            }
        } else if tag == 1 {
            match take_str(b.skip(k)) {
                Some((s, j)) => Some((Err(s), k + j)),
                None => None,
            }
        } else {
            None
        },
        None => None,
    }
}

pub open spec fn take_str_bytes(b: Seq<u8>) -> Option<((Seq<char>, Seq<u8>), int)> {
    match take_str(b) {
        Some((s, k)) => match take_bytes(b.skip(k)) {
            Some((v, j)) => Some(((s, v), k + j)),
            None => None,
        },
        None => None,
    }
}

/// `n` strings, one after the other.
pub open spec fn take_str_items(b: Seq<u8>, n: nat) -> Option<(Seq<Seq<char>>, int)>
    decreases n,
{
    if n == 0 {
        Some((Seq::empty(), 0))
    } else {
        match take_str_items(b, (n - 1) as nat) {
            Some((items, k)) => if 0 <= k <= b.len() {
                match take_str(b.skip(k)) {
                    Some((s, j)) => Some((items.push(s), k + j)),
                    None => None,
                }
            } else {
                None
            },
            None => None,
        }
    }
}

pub open spec fn take_strs(b: Seq<u8>) -> Option<(Seq<Seq<char>>, int)> {
    match take_u64(b) {
        Some((n, k)) => if n <= usize::MAX {
            match take_str_items(b.skip(k), n as nat) {
                Some((items, j)) => Some((items, k + j)),
                None => None,
            }
        } else {
            None
        },
        None => None,
    }
}

/// the value a decoder yields, ignoring what it consumed.
pub open spec fn value_of<T>(r: Option<(T, int)>) -> Option<T> {
    match r {
        Some((v, _)) => Some(v),
        None => None,
    }
}

// ---------------------------------------------------------------------------
// views of the plain values that cross the codec

pub open spec fn strings_view(v: Seq<String>) -> Seq<Seq<char>> {
    v.map_values(|s: String| s@)
}

pub open spec fn res_bytes_view(r: Result<Vec<u8>, String>) -> Result<Seq<u8>, Seq<char>> {
    match r {
        Ok(b) => Ok(b@),
        Err(s) => Err(s@),
    }
}

pub open spec fn res_u64_view(r: Result<u64, String>) -> Result<u64, Seq<char>> {
    match r {
        Ok(v) => Ok(v),
        Err(s) => Err(s@),
    }
}

pub open spec fn opt_str_view(o: Option<String>) -> Option<Seq<char>> {
    match o {
        Some(s) => Some(s@),
        None => None,
    }
}

// ---------------------------------------------------------------------------
// trusted items: bincode's serialize and deserialize on the types the runtime
// records. serializing into a Vec has no failure path for these types (no size
// limit, every length is known), so each encoder promises Ok.

/// `bincode::serialize::<u64>`: the eight little-endian bytes of the value.
#[verifier::external_body]
pub(crate) fn encode_u64(v: u64) -> (r: Result<Vec<u8>, bincode::Error>)
    ensures
        match r {
            Ok(b) => b@ == enc_u64(v),
            Err(_) => false,
        },
{
    bincode::serialize(&v)
}

/// `bincode::serialize::<Vec<u8>>`: the length as a little-endian u64, then the bytes.
#[verifier::external_body]
pub(crate) fn encode_bytes(v: &[u8]) -> (r: Result<Vec<u8>, bincode::Error>)
    ensures
        match r {
            Ok(b) => b@ == enc_bytes(v@),
            Err(_) => false,
        },
{
    bincode::serialize(&v.to_vec())
}

/// `bincode::serialize::<String>`: the UTF-8 bytes framed by their length.
#[verifier::external_body]
pub(crate) fn encode_str(s: &str) -> (r: Result<Vec<u8>, bincode::Error>)
    ensures
        match r {
            Ok(b) => b@ == enc_str(s@),
            Err(_) => false,
        },
{
    bincode::serialize(&s.to_string())
}

/// `bincode::serialize::<(String, Vec<u8>)>`: the two encodings one after the other.
#[verifier::external_body]
pub(crate) fn encode_str_bytes(s: &str, v: &[u8]) -> (r: Result<Vec<u8>, bincode::Error>)
    ensures
        match r {
            Ok(b) => b@ == enc_str_bytes(s@, v@),
            Err(_) => false,
        },
{
    bincode::serialize(&(s.to_string(), v.to_vec()))
}

/// `bincode::serialize::<Option<String>>`: a tag byte (0 none, 1 some), then the string.
#[verifier::external_body]
pub(crate) fn encode_opt_str(o: &Option<String>) -> (r: Result<Vec<u8>, bincode::Error>)
    ensures
        match r {
            Ok(b) => b@ == enc_opt_str(opt_str_view(*o)),
            Err(_) => false,
        },
{
    bincode::serialize(o)
}

/// `bincode::serialize::<Result<Vec<u8>, String>>`: the variant index as a
/// little-endian u32, then the payload.
#[verifier::external_body]
pub(crate) fn encode_res_bytes(v: &Result<Vec<u8>, String>) -> (r: Result<Vec<u8>, bincode::Error>)
    ensures
        match r {
            Ok(b) => b@ == enc_res_bytes(res_bytes_view(*v)),
            Err(_) => false,
        },
{
    bincode::serialize(v)
}

/// `bincode::serialize::<Result<u64, String>>`: the variant index as a
/// little-endian u32, then the payload.
#[verifier::external_body]
pub(crate) fn encode_res_u64(v: &Result<u64, String>) -> (r: Result<Vec<u8>, bincode::Error>)
    ensures
        match r {
            Ok(b) => b@ == enc_res_u64(res_u64_view(*v)),
            Err(_) => false,
        },
{
    bincode::serialize(v)
}

/// `bincode::serialize::<Vec<String>>`: the count as a little-endian u64, then each string.
#[verifier::external_body]
pub(crate) fn encode_strs(v: &Vec<String>) -> (r: Result<Vec<u8>, bincode::Error>)
    ensures
        match r {
            Ok(b) => b@ == enc_strs(strings_view(v@)),
            Err(_) => false,
        },
{
    bincode::serialize(v)
}

/// `bincode::deserialize::<u64>`: succeeds exactly when eight bytes are there.
#[verifier::external_body]
pub(crate) fn decode_u64(b: &[u8]) -> (r: Result<u64, bincode::Error>)
    ensures
        match r {
            Ok(v) => value_of(take_u64(b@)) == Some(v),
            Err(_) => take_u64(b@) is None,
        },
{
    bincode::deserialize::<u64>(b)
}

/// `bincode::deserialize::<Vec<u8>>`: a length-framed byte sequence.
#[verifier::external_body]
pub(crate) fn decode_bytes(b: &[u8]) -> (r: Result<Vec<u8>, bincode::Error>)
    ensures
        match r {
            Ok(v) => value_of(take_bytes(b@)) == Some(v@),
            Err(_) => take_bytes(b@) is None,
        },
{
    bincode::deserialize::<Vec<u8>>(b)
}

/// `bincode::deserialize::<String>`: a length-framed byte sequence that must be UTF-8.
#[verifier::external_body]
pub(crate) fn decode_str(b: &[u8]) -> (r: Result<String, bincode::Error>)
    ensures
        match r {
            Ok(s) => value_of(take_str(b@)) == Some(s@),
            Err(_) => take_str(b@) is None,
        },
{
    bincode::deserialize::<String>(b)
}

/// `bincode::deserialize::<(String, Vec<u8>)>`.
#[verifier::external_body]
pub(crate) fn decode_str_bytes(b: &[u8]) -> (r: Result<(String, Vec<u8>), bincode::Error>)
    ensures
        match r {
            Ok(p) => value_of(take_str_bytes(b@)) == Some((p.0@, p.1@)),
            Err(_) => take_str_bytes(b@) is None,
        },
{
    bincode::deserialize::<(String, Vec<u8>)>(b)
}

/// `bincode::deserialize::<Option<String>>`.
#[verifier::external_body]
pub(crate) fn decode_opt_str(b: &[u8]) -> (r: Result<Option<String>, bincode::Error>)
    ensures
        match r {
            Ok(o) => value_of(take_opt_str(b@)) == Some(opt_str_view(o)),
            Err(_) => take_opt_str(b@) is None,
        },
{
    bincode::deserialize::<Option<String>>(b)
}

/// `bincode::deserialize::<Result<Vec<u8>, String>>`.
#[verifier::external_body]
pub(crate) fn decode_res_bytes(b: &[u8]) -> (r: Result<Result<Vec<u8>, String>, bincode::Error>)
    ensures
        match r {
            Ok(v) => value_of(take_res_bytes(b@)) == Some(res_bytes_view(v)),
            Err(_) => take_res_bytes(b@) is None,
        },
{
    bincode::deserialize::<Result<Vec<u8>, String>>(b)
}

/// `bincode::deserialize::<Result<u64, String>>`.
#[verifier::external_body]
pub(crate) fn decode_res_u64(b: &[u8]) -> (r: Result<Result<u64, String>, bincode::Error>)
    ensures
        match r {
            Ok(v) => value_of(take_res_u64(b@)) == Some(res_u64_view(v)),
            Err(_) => take_res_u64(b@) is None,
        },
{
    bincode::deserialize::<Result<u64, String>>(b)
}

/// `bincode::deserialize::<Vec<String>>`.
#[verifier::external_body]
pub(crate) fn decode_strs(b: &[u8]) -> (r: Result<Vec<String>, bincode::Error>)
    ensures
        match r {
            Ok(v) => value_of(take_strs(b@)) == Some(strings_view(v@)),
            Err(_) => take_strs(b@) is None,
        },
{
    bincode::deserialize::<Vec<String>>(b)
}

// ---------------------------------------------------------------------------
// round trips: every decoder gives back what its encoder wrote, whatever follows.

pub proof fn lemma_le_u64_enc(v: u64)
    ensures
        le_u64(enc_u64(v)) == v,
        enc_u64(v).len() == 8,
{
    let b = enc_u64(v);
    assert(b[0] == v as u8 && b[1] == (v >> 8u64) as u8 && b[2] == (v >> 16u64) as u8 && b[3]
        == (v >> 24u64) as u8 && b[4] == (v >> 32u64) as u8 && b[5] == (v >> 40u64) as u8 && b[6]
        == (v >> 48u64) as u8 && b[7] == (v >> 56u64) as u8);
    assert(((v as u8) as u64) | ((((v >> 8u64) as u8) as u64) << 8u64) | ((((v >> 16u64) as u8)
        as u64) << 16u64) | ((((v >> 24u64) as u8) as u64) << 24u64) | ((((v >> 32u64) as u8)
        as u64) << 32u64) | ((((v >> 40u64) as u8) as u64) << 40u64) | ((((v >> 48u64) as u8)
        as u64) << 48u64) | ((((v >> 56u64) as u8) as u64) << 56u64) == v) by (bit_vector);
}

pub proof fn lemma_le_u32_enc(v: u32)
    ensures
        le_u32(enc_u32(v)) == v,
        enc_u32(v).len() == 4,
{
    let b = enc_u32(v);
    assert(b[0] == v as u8 && b[1] == (v >> 8u32) as u8 && b[2] == (v >> 16u32) as u8 && b[3]
        == (v >> 24u32) as u8);
    assert(((v as u8) as u32) | ((((v >> 8u32) as u8) as u32) << 8u32) | ((((v >> 16u32) as u8)
        as u32) << 16u32) | ((((v >> 24u32) as u8) as u32) << 24u32) == v) by (bit_vector);
}

proof fn lemma_prefix_index(a: Seq<u8>, rest: Seq<u8>)
    ensures
        forall|i: int| 0 <= i < a.len() ==> #[trigger] (a + rest)[i] == a[i],
{
}

pub proof fn lemma_u64_roundtrip(v: u64, rest: Seq<u8>)
    ensures
        take_u64(enc_u64(v) + rest) == Some((v, 8int)),
{
    lemma_le_u64_enc(v);
    let b = enc_u64(v) + rest;
    lemma_prefix_index(enc_u64(v), rest);
    assert(le_u64(b) == le_u64(enc_u64(v)));
}

pub proof fn lemma_u32_roundtrip(v: u32, rest: Seq<u8>)
    ensures
        take_u32(enc_u32(v) + rest) == Some((v, 4int)),
{
    lemma_le_u32_enc(v);
    let b = enc_u32(v) + rest;
    lemma_prefix_index(enc_u32(v), rest);
    assert(le_u32(b) == le_u32(enc_u32(v)));
}

pub proof fn lemma_bytes_roundtrip(v: Seq<u8>, rest: Seq<u8>)
    requires
        v.len() <= usize::MAX,
    ensures
        take_bytes(enc_bytes(v) + rest) == Some((v, 8 + v.len() as int)),
        enc_bytes(v).len() == 8 + v.len(),
{
    lemma_le_u64_enc(v.len() as u64);
    let b = enc_bytes(v) + rest;
    assert(b == enc_u64(v.len() as u64) + (v + rest));
    lemma_u64_roundtrip(v.len() as u64, v + rest);
    assert(b.subrange(8, 8 + v.len() as int) =~= v);
}

pub proof fn lemma_str_roundtrip(s: Seq<char>, rest: Seq<u8>)
    requires
        encode_utf8(s).len() <= usize::MAX,
    ensures
        take_str(enc_str(s) + rest) == Some((s, enc_str(s).len() as int)),
{
    lemma_bytes_roundtrip(encode_utf8(s), rest);
    encode_utf8_valid_utf8(s);
    encode_utf8_decode_utf8(s);
}

pub proof fn lemma_opt_str_roundtrip(o: Option<Seq<char>>, rest: Seq<u8>)
    requires
        o matches Some(s) ==> encode_utf8(s).len() <= usize::MAX,
    ensures
        take_opt_str(enc_opt_str(o) + rest) == Some((o, enc_opt_str(o).len() as int)),
{
    match o {
        None => {},
        Some(s) => {
            let b = enc_opt_str(o) + rest;
            assert(b.skip(1) =~= enc_str(s) + rest);
            lemma_str_roundtrip(s, rest);
        },
    }
}

pub proof fn lemma_res_bytes_roundtrip(r: Result<Seq<u8>, Seq<char>>, rest: Seq<u8>)
    requires
        r matches Ok(v) ==> v.len() <= usize::MAX,
        r matches Err(s) ==> encode_utf8(s).len() <= usize::MAX,
    ensures
        take_res_bytes(enc_res_bytes(r) + rest) == Some((r, enc_res_bytes(r).len() as int)),
{
    match r {
        Ok(v) => {
            let b = enc_res_bytes(r) + rest;
            assert(b =~= enc_u32(0) + (enc_bytes(v) + rest));
            lemma_u32_roundtrip(0, enc_bytes(v) + rest);
            lemma_le_u32_enc(0);
            assert(b.skip(4) =~= enc_bytes(v) + rest);
            lemma_bytes_roundtrip(v, rest);
        },
        Err(s) => {
            let b = enc_res_bytes(r) + rest;
            assert(b =~= enc_u32(1) + (enc_str(s) + rest));
            lemma_u32_roundtrip(1, enc_str(s) + rest);
            lemma_le_u32_enc(1);
            assert(b.skip(4) =~= enc_str(s) + rest);
            lemma_str_roundtrip(s, rest);
        },
    }
}

pub proof fn lemma_res_u64_roundtrip(r: Result<u64, Seq<char>>, rest: Seq<u8>)
    requires
        r matches Err(s) ==> encode_utf8(s).len() <= usize::MAX,
    ensures
        take_res_u64(enc_res_u64(r) + rest) == Some((r, enc_res_u64(r).len() as int)),
{
    match r {
        Ok(v) => {
            let b = enc_res_u64(r) + rest;
            assert(b =~= enc_u32(0) + (enc_u64(v) + rest));
            lemma_u32_roundtrip(0, enc_u64(v) + rest);
            lemma_le_u32_enc(0);
            assert(b.skip(4) =~= enc_u64(v) + rest);
            lemma_u64_roundtrip(v, rest);
            lemma_le_u64_enc(v);
        },
        Err(s) => {
            let b = enc_res_u64(r) + rest;
            assert(b =~= enc_u32(1) + (enc_str(s) + rest));
            lemma_u32_roundtrip(1, enc_str(s) + rest);
            lemma_le_u32_enc(1);
            assert(b.skip(4) =~= enc_str(s) + rest);
            lemma_str_roundtrip(s, rest);
        },
    }
}

} // verus!

verus! {

// ---------------------------------------------------------------------------
// the encoders, with their (impossible) failure folded away.

pub fn u64_bytes(v: u64) -> (b: Vec<u8>)
    ensures
        b@ == enc_u64(v),
{
    match encode_u64(v) {
        Ok(b) => b,
        Err(_) => {
            proof {
                assert(false);
            }
            Vec::new()
        },
    }
}

pub fn framed_bytes(v: &[u8]) -> (b: Vec<u8>)
    ensures
        b@ == enc_bytes(v@),
{
    match encode_bytes(v) {
        Ok(b) => b,
        Err(_) => {
            proof {
                assert(false);
            }
            Vec::new()
        },
    }
}

pub fn str_bytes(s: &str) -> (b: Vec<u8>)
    ensures
        b@ == enc_str(s@),
{
    match encode_str(s) {
        Ok(b) => b,
        Err(_) => {
            proof {
                assert(false);
            }
            Vec::new()
        },
    }
}

pub fn str_and_bytes(s: &str, v: &[u8]) -> (b: Vec<u8>)
    ensures
        b@ == enc_str_bytes(s@, v@),
{
    match encode_str_bytes(s, v) {
        Ok(b) => b,
        Err(_) => {
            proof {
                assert(false);
            }
            Vec::new()
        },
    }
}

pub fn opt_str_bytes(o: &Option<String>) -> (b: Vec<u8>)
    ensures
        b@ == enc_opt_str(opt_str_view(*o)),
{
    match encode_opt_str(o) {
        Ok(b) => b,
        Err(_) => {
            proof {
                assert(false);
            }
            Vec::new()
        },
    }
}

pub fn res_bytes_bytes(v: &Result<Vec<u8>, String>) -> (b: Vec<u8>)
    ensures
        b@ == enc_res_bytes(res_bytes_view(*v)),
{
    match encode_res_bytes(v) {
        Ok(b) => b,
        Err(_) => {
            proof {
                assert(false);
            }
            Vec::new()
        },
    }
}

pub fn res_u64_bytes(v: &Result<u64, String>) -> (b: Vec<u8>)
    ensures
        b@ == enc_res_u64(res_u64_view(*v)),
{
    match encode_res_u64(v) {
        Ok(b) => b,
        Err(_) => {
            proof {
                assert(false);
            }
            Vec::new()
        },
    }
}

pub fn strs_bytes(v: &Vec<String>) -> (b: Vec<u8>)
    ensures
        b@ == enc_strs(strings_view(v@)),
{
    match encode_strs(v) {
        Ok(b) => b,
        Err(_) => {
            proof {
                assert(false);
            }
            Vec::new()
        },
    }
}

} // verus!

verus! {

/// The number of bytes in the UTF-8 encoding of `s`.
pub fn utf8_len(s: &str) -> (n: usize)
    ensures
        n == encode_utf8(s@).len(),
{
    s.as_bytes().len()
}

proof fn lemma_str_items_roundtrip(v: Seq<Seq<char>>, rest: Seq<u8>)
    requires
        forall|i: int| 0 <= i < v.len() ==> encode_utf8(#[trigger] v[i]).len() <= usize::MAX,
    ensures
        take_str_items(enc_str_items(v) + rest, v.len()) == Some((v, enc_str_items(v).len() as int)),
    decreases v.len(),
{
    if v.len() > 0 {
        let init = v.drop_last();
        let last = v.last();
        let b = enc_str_items(v) + rest;
        assert(b =~= enc_str_items(init) + (enc_str(last) + rest));
        assert forall|i: int| 0 <= i < init.len() implies encode_utf8(#[trigger] init[i]).len()
            <= usize::MAX by {
            assert(init[i] == v[i]);
        }
        lemma_str_items_roundtrip(init, enc_str(last) + rest);
        let k = enc_str_items(init).len() as int;
        assert(b.skip(k) =~= enc_str(last) + rest);
        assert(encode_utf8(v[v.len() - 1]).len() <= usize::MAX);
        lemma_str_roundtrip(last, rest);
        assert(init.push(last) =~= v);
    }
}

pub proof fn lemma_strs_roundtrip(v: Seq<Seq<char>>, rest: Seq<u8>)
    requires
        v.len() <= usize::MAX,
        forall|i: int| 0 <= i < v.len() ==> encode_utf8(#[trigger] v[i]).len() <= usize::MAX,
    ensures
        take_strs(enc_strs(v) + rest) == Some((v, enc_strs(v).len() as int)),
{
    let b = enc_strs(v) + rest;
    assert(b =~= enc_u64(v.len() as u64) + (enc_str_items(v) + rest));
    lemma_u64_roundtrip(v.len() as u64, enc_str_items(v) + rest);
    lemma_le_u64_enc(v.len() as u64);
    assert(b.skip(8) =~= enc_str_items(v) + rest);
    lemma_str_items_roundtrip(v, rest);
}

} // verus!
