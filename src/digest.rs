//! Content-addressed keys: the SHA-256 digest of a chunk's text followed by its
//! path, written as lowercase hexadecimal.
use sha2::Digest;
use vstd::prelude::*;
use vstd::utf8::{encode_utf8, encode_utf8_decode_utf8};

verus! {

/// The SHA-256 digest of a byte string.
pub uninterp spec fn sha256_of(data: Seq<u8>) -> Seq<u8>;

/// Relies on sha2's `Sha256::digest`: the SHA-256 digest of `data`.
#[verifier::external_body]
fn sha256(data: &[u8]) -> (r: Vec<u8>)
    ensures
        r@ == sha256_of(data@),
{
    sha2::Sha256::digest(data).to_vec()
}

/// The lowercase hexadecimal digit of a value below 16.
pub open spec fn hex_digit(v: int) -> char {
    if v < 10 {
        (('0' as int) + v) as char
    } else {
        (('a' as int) + v - 10) as char
    }
}

/// Two lowercase hexadecimal digits per byte, high half first.
pub open spec fn hex_of(b: Seq<u8>) -> Seq<char>
    decreases b.len(),
{
    if b.len() == 0 {
        Seq::empty()
    } else {
        hex_of(b.drop_last()) + seq![hex_digit(b.last() as int / 16), hex_digit(b.last() as int % 16)]
    }
}

/// The bytes that are hashed for a chunk: its text, then its path, in UTF-8.
pub open spec fn key_input(text: Seq<char>, file_path: Seq<char>) -> Seq<u8> {
    encode_utf8(text) + encode_utf8(file_path)
}

/// The cache key of a chunk.
pub open spec fn digest_key(text: Seq<char>, file_path: Seq<char>) -> Seq<char> {
    hex_of(sha256_of(key_input(text, file_path)))
}

fn hex_digit_char(v: u8) -> (c: char)
    requires
        v < 16,
    ensures
        c == hex_digit(v as int),
{
    if v < 10 {
        (48 + v) as char
    } else {
        (87 + v) as char
    }
}

/// Lowercase hexadecimal of `bytes`.
pub fn to_hex(bytes: &Vec<u8>) -> (r: String)
    ensures
        r@ == hex_of(bytes@),
{
    let mut out = String::new();
    let mut i: usize = 0;
    while i < bytes.len()
        invariant
            i <= bytes.len(),
            out@ == hex_of(bytes@.take(i as int)),
        decreases bytes.len() - i,
    {
        let b = bytes[i];
        out.push(hex_digit_char(b / 16));
        out.push(hex_digit_char(b % 16));
        assert(bytes@.take(i + 1).drop_last() =~= bytes@.take(i as int));
        assert(out@ =~= hex_of(bytes@.take(i + 1)));
        i = i + 1;
    }
    assert(bytes@.take(bytes.len() as int) =~= bytes@);
    out
}

/// The cache key of a chunk: the SHA-256 digest of its text bytes followed by
/// its path bytes, with no separator, in lowercase hexadecimal.
pub fn hash_chunk(text: &str, file_path: &str) -> (r: String)
    ensures
        r@ == digest_key(text@, file_path@),
{
    let mut data = text.as_bytes_vec();
    let mut tail = file_path.as_bytes_vec();
    data.append(&mut tail);
    let d = sha256(data.as_slice());
    to_hex(&d)
}

proof fn lemma_hex_injective(a: Seq<u8>, b: Seq<u8>)
    requires
        hex_of(a) == hex_of(b),
    ensures
        a == b,
    decreases a.len(),
{
    lemma_hex_len(a);
    lemma_hex_len(b);
    if a.len() > 0 {
        let ha = hex_of(a.drop_last());
        let hb = hex_of(b.drop_last());
        lemma_hex_len(a.drop_last());
        lemma_hex_len(b.drop_last());
        let x = a.last() as int;
        let y = b.last() as int;
        assert(hex_of(a)[ha.len() as int] == hex_digit(x / 16));
        assert(hex_of(b)[hb.len() as int] == hex_digit(y / 16));
        assert(hex_of(a)[ha.len() as int + 1] == hex_digit(x % 16));
        assert(hex_of(b)[hb.len() as int + 1] == hex_digit(y % 16));
        assert(x / 16 == y / 16 && x % 16 == y % 16);
        assert(x == y);
        assert(ha =~= hex_of(a).take(ha.len() as int));
        assert(hb =~= hex_of(b).take(hb.len() as int));
        lemma_hex_injective(a.drop_last(), b.drop_last());
        assert(a =~= a.drop_last().push(a.last()));
        assert(b =~= b.drop_last().push(b.last()));
    }
}

proof fn lemma_hex_len(a: Seq<u8>)
    ensures
        hex_of(a).len() == 2 * a.len(),
    decreases a.len(),
{
    if a.len() > 0 {
        lemma_hex_len(a.drop_last());
    }
}

/// The key is a function of the text and the path alone. Under one path,
/// different texts are hashed from different bytes, and two chunks share a
/// key only where the SHA-256 digests of their bytes are equal.
pub proof fn lemma_digest_stable(text1: Seq<char>, path1: Seq<char>, text2: Seq<char>, path2: Seq<char>)
    ensures
        text1 == text2 && path1 == path2 ==> digest_key(text1, path1) == digest_key(text2, path2),
        path1 == path2 && text1 != text2 ==> key_input(text1, path1) != key_input(text2, path2),
        digest_key(text1, path1) == digest_key(text2, path2) ==> sha256_of(key_input(text1, path1)) == sha256_of(
            key_input(text2, path2),
        ),
{
    if path1 == path2 && key_input(text1, path1) == key_input(text2, path2) {
        let e1 = encode_utf8(text1);
        let e2 = encode_utf8(text2);
        let ep = encode_utf8(path1);
        assert(key_input(text1, path1).len() == e1.len() + ep.len());
        assert(key_input(text2, path2).len() == e2.len() + ep.len());
        assert(e1.len() == e2.len());
        assert(e1 =~= key_input(text1, path1).take(e1.len() as int));
        assert(e2 =~= key_input(text2, path2).take(e2.len() as int));
        encode_utf8_decode_utf8(text1);
        encode_utf8_decode_utf8(text2);
    }
    if digest_key(text1, path1) == digest_key(text2, path2) {
        lemma_hex_injective(sha256_of(key_input(text1, path1)), sha256_of(key_input(text2, path2)));
    }
}

} // verus!
