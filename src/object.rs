//! Object framing, digests and decoding of stored objects.
use vstd::prelude::*;
use vstd::utf8::{valid_utf8, decode_utf8, encode_utf8};
use crate::errors::NyxError;
use crate::object_type::NyxObjectType;
use sha1::Digest;
use vstd::slice::slice_subrange;

verus! {

/// The SHA-1 digest of a byte sequence.
pub uninterp spec fn sha1_of(b: Seq<u8>) -> Seq<u8>;

/// Relies on sha1's `Sha1::digest`: the 20-byte SHA-1 digest of the input.
#[verifier::external_body]
fn sha1_digest(b: &[u8]) -> (r: Vec<u8>)
    ensures
        r@ == sha1_of(b@),
        r@.len() == 20,
{
    sha1::Sha1::digest(b).to_vec()
}

/// Lowercase hexadecimal digits.
pub open spec fn hex_digit(n: u8) -> char {
    seq!['0', '1', '2', '3', '4', '5', '6', '7', '8', '9', 'a', 'b', 'c', 'd', 'e', 'f'][(n
        % 16) as int]
}

/// Two lowercase hexadecimal digits for each byte, high nibble first.
pub open spec fn hex_spec(b: Seq<u8>) -> Seq<char>
    decreases b.len(),
{
    if b.len() == 0 {
        Seq::<char>::empty()
    } else {
        hex_spec(b.drop_last()).push(hex_digit(b.last() / 16)).push(hex_digit(b.last() % 16))
    }
}

proof fn lemma_hex_len(b: Seq<u8>)
    ensures
        hex_spec(b).len() == 2 * b.len(),
    decreases b.len(),
{
    if b.len() > 0 {
        lemma_hex_len(b.drop_last());
    }
}

/// Relies on `hex::encode`: two lowercase hexadecimal digits per byte, in order.
#[verifier::external_body]
fn hex_encode(b: &[u8]) -> (r: String)
    ensures
        r@ == hex_spec(b@),
{
    hex::encode(b)
}

/// Relies on `String::from_utf8`: succeeds exactly on valid UTF-8, with the decoded text.
#[verifier::external_body]
fn utf8_string(b: Vec<u8>) -> (r: Option<String>)
    ensures
        r is Some <==> valid_utf8(b@),
        r matches Some(s) ==> s@ == decode_utf8(b@),
{
    String::from_utf8(b).ok()
}

/// Decimal digits of `n`, most significant first, without leading zeros.
pub open spec fn decimal(n: nat) -> Seq<u8>
    decreases n,
{
    if n < 10 {
        seq![(48 + n) as u8]
    } else {
        decimal(n / 10).push((48 + n % 10) as u8)
    }
}

/// The lowercase name of an object type as bytes.
pub open spec fn kind_bytes(t: NyxObjectType) -> Seq<u8> {
    match t {
        NyxObjectType::Commit => seq![99u8, 111u8, 109u8, 109u8, 105u8, 116u8],
        NyxObjectType::Tree => seq![116u8, 114u8, 101u8, 101u8],
        NyxObjectType::Blob => seq![98u8, 108u8, 111u8, 98u8],
    }
}

/// `"{type} {length}\0{content}"`.
pub open spec fn frame(t: NyxObjectType, c: Seq<u8>) -> Seq<u8> {
    kind_bytes(t) + seq![32u8] + decimal(c.len()) + seq![0u8] + c
}

/// The hex digest under which `(t, c)` is stored.
pub open spec fn object_hash_of(t: NyxObjectType, c: Seq<u8>) -> Seq<char> {
    hex_spec(sha1_of(frame(t, c)))
}

/// The logical content of a framed object: everything after its first NUL byte.
pub open spec fn after_first_nul(raw: Seq<u8>) -> Option<Seq<u8>>
    decreases raw.len(),
{
    if raw.len() == 0 {
        None
    } else if raw[0] == 0 {
        Some(raw.drop_first())
    } else {
        after_first_nul(raw.drop_first())
    }
}

/// What reading a stored object yields: its content as text, or why it cannot.
pub open spec fn decoded_content(raw: Seq<u8>) -> Result<Seq<char>, NyxError> {
    match after_first_nul(raw) {
        None => Err(NyxError::EncodingError),
        Some(c) => if valid_utf8(c) {
            Ok(decode_utf8(c))
        } else {
            Err(NyxError::EncodingError)
        },
    }
}

fn push_bytes(v: &mut Vec<u8>, b: &[u8])
    ensures
        final(v)@ == old(v)@ + b@,
{
    let mut i: usize = 0;
    while i < b.len()
        invariant
            i <= b@.len(),
            v@ == old(v)@ + b@.take(i as int),
        decreases b@.len() - i,
    {
        v.push(b[i]);
        proof {
            assert(b@.take(i + 1) == b@.take(i as int).push(b@[i as int]));
        }
        i = i + 1;
    }
    proof {
        assert(b@.take(b@.len() as int) == b@);
    }
}

fn decimal_bytes(n: usize) -> (r: Vec<u8>)
    ensures
        r@ == decimal(n as nat),
    decreases n,
{
    if n < 10 {
        vec![(48 + n) as u8]
    } else {
        let mut r = decimal_bytes(n / 10);
        r.push((48 + n % 10) as u8);
        r
    }
}

fn kind_bytes_of(t: NyxObjectType) -> (r: Vec<u8>)
    ensures
        r@ == kind_bytes(t),
{
    let r = match t {
        NyxObjectType::Commit => vec![99u8, 111u8, 109u8, 109u8, 105u8, 116u8],
        NyxObjectType::Tree => vec![116u8, 114u8, 101u8, 101u8],
        NyxObjectType::Blob => vec![98u8, 108u8, 111u8, 98u8],
    };
    proof {
        assert(r@ == kind_bytes(t));
    }
    r
}

/// Frames `content` as an object of type `object_type`.
pub fn append_object_header(content: &[u8], object_type: NyxObjectType) -> (r: Vec<u8>)
    ensures
        r@ == frame(object_type, content@),
{
    let mut r = kind_bytes_of(object_type);
    r.push(32u8);
    let digits = decimal_bytes(content.len());
    push_bytes(&mut r, digits.as_slice());
    r.push(0u8);
    push_bytes(&mut r, content);
    r
}

/// Lowercase hex SHA-1 digest of `content`.
pub fn calculate_sha1(content: &[u8]) -> (r: String)
    ensures
        r@ == hex_spec(sha1_of(content@)),
        r@.len() == 40,
{
    let digest = sha1_digest(content);
    proof {
        lemma_hex_len(digest@);
    }
    hex_encode(digest.as_slice())
}

/// The digest under which `content` is stored as an object of type `object_type`.
pub fn object_hash(content: &[u8], object_type: NyxObjectType) -> (r: String)
    ensures
        r@ == object_hash_of(object_type, content@),
        r@.len() == 40,
{
    let framed = append_object_header(content, object_type);
    calculate_sha1(framed.as_slice())
}

/// Decodes a stored (framed) object: the text after the first NUL byte.
pub fn read_object_data(raw: &[u8]) -> (r: Result<String, NyxError>)
    ensures
        r matches Ok(s) ==> decoded_content(raw@) == Ok::<Seq<char>, NyxError>(s@),
        r matches Err(e) ==> decoded_content(raw@) == Err::<Seq<char>, NyxError>(e),
{
    let mut i: usize = 0;
    proof {
        assert(raw@.skip(0) == raw@);
    }
    while i < raw.len()
        invariant
            i <= raw@.len(),
            after_first_nul(raw@) == after_first_nul(raw@.skip(i as int)),
        decreases raw@.len() - i,
    {
        proof {
            assert(raw@.skip(i as int).drop_first() == raw@.skip(i + 1));
        }
        if raw[i] == 0 {
            let mut rest: Vec<u8> = Vec::new();
            push_bytes(&mut rest, slice_subrange(raw, i + 1, raw.len()));
            proof {
                assert(rest@ == raw@.skip(i + 1));
            }
            return match utf8_string(rest) {
                Some(s) => Ok(s),
                None => Err(NyxError::EncodingError),
            };
        }
        i = i + 1;
    }
    proof {
        assert(raw@.skip(raw@.len() as int).len() == 0);
    }
    Err(NyxError::EncodingError)
}

proof fn lemma_decimal_digits(n: nat)
    ensures
        decimal(n).len() >= 1,
        forall|i: int| 0 <= i < decimal(n).len() ==> 48 <= #[trigger] decimal(n)[i] <= 57,
    decreases n,
{
    if n >= 10 {
        lemma_decimal_digits(n / 10);
    }
}

proof fn lemma_after_nul_prefix(p: Seq<u8>, b: Seq<u8>)
    requires
        forall|i: int| 0 <= i < p.len() ==> #[trigger] p[i] != 0,
    ensures
        after_first_nul(p + seq![0u8] + b) == Some(b),
    decreases p.len(),
{
    let s = p + seq![0u8] + b;
    if p.len() == 0 {
        assert(s.drop_first() == b);
    } else {
        assert(s.drop_first() == p.drop_first() + seq![0u8] + b);
        lemma_after_nul_prefix(p.drop_first(), b);
    }
}

/// The header of a frame holds no NUL byte, so its content is all that follows the first one.
pub proof fn lemma_frame_content(t: NyxObjectType, c: Seq<u8>)
    ensures
        after_first_nul(frame(t, c)) == Some(c),
{
    let p = kind_bytes(t) + seq![32u8] + decimal(c.len());
    lemma_decimal_digits(c.len());
    assert forall|i: int| 0 <= i < p.len() implies #[trigger] p[i] != 0 by {
        if i >= kind_bytes(t).len() + 1 {
            assert(p[i] == decimal(c.len())[i - kind_bytes(t).len() - 1]);
        }
    }
    assert(frame(t, c) == p + seq![0u8] + c);
    lemma_after_nul_prefix(p, c);
}

/// Content addressing: equal type and content give equal digests, and distinct
/// `(type, content)` pairs are framed as distinct byte sequences, so only a
/// collision of the digest itself can give them the same hash.
pub proof fn lemma_content_addressing(t1: NyxObjectType, c1: Seq<u8>, t2: NyxObjectType, c2: Seq<u8>)
    ensures
        t1 == t2 && c1 == c2 ==> object_hash_of(t1, c1) == object_hash_of(t2, c2),
        frame(t1, c1) == frame(t2, c2) ==> t1 == t2 && c1 == c2,
{
    if frame(t1, c1) == frame(t2, c2) {
        let f = frame(t1, c1);
        assert(f[0] == kind_bytes(t1)[0]);
        assert(frame(t2, c2)[0] == kind_bytes(t2)[0]);
        assert(t1 == t2);
        lemma_frame_content(t1, c1);
        lemma_frame_content(t2, c2);
    }
}

/// Reading back text written as an object of any type gives that text.
pub proof fn lemma_read_text(t: NyxObjectType, c: Seq<char>)
    ensures
        decoded_content(frame(t, encode_utf8(c))) == Ok::<Seq<char>, NyxError>(c),
{
    lemma_frame_content(t, encode_utf8(c));
    vstd::utf8::encode_utf8_valid_utf8(c);
    vstd::utf8::encode_utf8_decode_utf8(c);
}

/// Reading back what was written as a blob gives the text that was written.
pub proof fn lemma_read_after_write(c: Seq<char>)
    ensures
        decoded_content(frame(NyxObjectType::Blob, encode_utf8(c))) == Ok::<Seq<char>, NyxError>(c),
{
    lemma_frame_content(NyxObjectType::Blob, encode_utf8(c));
    vstd::utf8::encode_utf8_valid_utf8(c);
    vstd::utf8::encode_utf8_decode_utf8(c);
}

} // verus!
