//! Hexadecimal encoding and the SHA-256 digest of file contents.

use vstd::prelude::*;

use crate::text::chars_to_string;

verus! {

/// The lowercase hexadecimal digit of a value below 16.
pub open spec fn hex_digit(v: u8) -> char {
    if v < 10 {
        (v + 48) as char
    } else {
        (v + 87) as char
    }
}

/// Each byte as two lowercase hexadecimal digits, high half first.
pub open spec fn hex_lower(bs: Seq<u8>) -> Seq<char>
    decreases bs.len(),
{
    if bs.len() == 0 {
        seq![]
    } else {
        hex_lower(bs.drop_last()) + seq![hex_digit(bs.last() / 16), hex_digit(bs.last() % 16)]
    }
}

fn hex_char(v: u8) -> (c: char)
    requires
        v < 16,
    ensures
        c == hex_digit(v),
{
    if v < 10 {
        (v + 48) as char
    } else {
        (v + 87) as char
    }
}

/// The lowercase hexadecimal text of the bytes.
pub fn to_hex_lower(bs: &[u8]) -> (r: String)
    ensures
        r@ == hex_lower(bs@),
{
    let mut out: Vec<char> = Vec::new();
    let mut i: usize = 0;
    assert(bs@.take(0) =~= Seq::<u8>::empty());
    while i < bs.len()
        invariant
            i <= bs.len(),
            out@ == hex_lower(bs@.take(i as int)),
        decreases bs.len() - i,
    {
        let b = bs[i];
        out.push(hex_char(b / 16));
        out.push(hex_char(b % 16));
        assert(bs@.take(i + 1).drop_last() =~= bs@.take(i as int));
        assert(bs@.take(i + 1).last() == b);
        assert(out@ =~= hex_lower(bs@.take(i + 1)));
        i = i + 1;
    }
    assert(bs@.take(bs.len() as int) =~= bs@);
    chars_to_string(&out)
}

/// What `sha2::Sha256::digest` returns for these bytes.
pub uninterp spec fn sha256_spec(data: Seq<u8>) -> Seq<u8>;

/// `sha2::Sha256::digest`: the SHA-256 digest of the bytes, named by
/// `sha256_spec`; it is 32 bytes long (the output size of SHA-256).
#[verifier::external_body]
fn sha256_digest(data: &[u8]) -> (r: Vec<u8>)
    ensures
        r@ == sha256_spec(data@),
        r@.len() == 32,
{
    <sha2::Sha256 as sha2::Digest>::digest(data).to_vec()
}

/// The SHA-256 digest of the bytes as 64 lowercase hexadecimal digits, as
/// the tool shows the integrity of its files.
pub fn sha256_hex(data: &[u8]) -> (r: String)
    ensures
        r@ == hex_lower(sha256_spec(data@)),
        r@.len() == 64,
{
    let d = sha256_digest(data);
    proof {
        lemma_hex_lower_len(d@);
    }
    to_hex_lower(d.as_slice())
}

pub proof fn lemma_hex_lower_len(bs: Seq<u8>)
    ensures
        hex_lower(bs).len() == 2 * bs.len(),
    decreases bs.len(),
{
    if bs.len() > 0 {
        lemma_hex_lower_len(bs.drop_last());
    }
}

} // verus!
