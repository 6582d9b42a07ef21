use crate::text::{lemma_class_allows, lemma_first_outside, chars_of, class_allows, find_outside, first_where, outside_class, CharClass};
use crate::parse::{byte_len_capped, utf8_len};
use sha2::{Digest, Sha256};
use vstd::string::StringSliceAdditionalSpecFns;
use vstd::prelude::*;

verus! {

/// The SHA-256 digest of a byte sequence.
pub uninterp spec fn sha256_digest(data: Seq<u8>) -> Seq<u8>;

/// `Sha256::digest` (sha2) hashes the bytes; its output is the 32 bytes of
/// the digest.
#[verifier::external_body]
fn sha256(data: &[u8]) -> (r: Vec<u8>)
    ensures
        r@ == sha256_digest(data@),
        r@.len() == 32,
{
    Sha256::digest(data).to_vec()
}

/// The lowercase hexadecimal digit of a value below 16.
pub open spec fn hex_digit(d: int) -> char {
    if d < 10 {
        (d + '0' as int) as char
    } else {
        (d - 10 + 'a' as int) as char
    }
}

/// Bytes in lowercase hexadecimal, two digits each, as `{:x}` writes a digest.
pub open spec fn hex_bytes(b: Seq<u8>) -> Seq<char>
    decreases b.len(),
{
    if b.len() == 0 {
        seq![]
    } else {
        hex_bytes(b.drop_last()) + seq![hex_digit((b.last() / 16) as int), hex_digit((b.last() % 16) as int)]
    }
}

fn hex_of(d: u8) -> (c: char)
    requires
        d < 16,
    ensures
        c == hex_digit(d as int),
{
    if d < 10 {
        (d + 48) as char
    } else {
        (d - 10 + 97) as char
    }
}

fn hex_string(b: &Vec<u8>) -> (s: String)
    ensures
        s@ == hex_bytes(b@),
{
    let mut s = String::new();
    let mut i: usize = 0;
    while i < b.len()
        invariant
            i <= b.len(),
            s@ == hex_bytes(b@.take(i as int)),
        decreases b.len() - i,
    {
        let x = b[i];
        s.push(hex_of(x / 16));
        s.push(hex_of(x % 16));
        assert(b@.take(i + 1).drop_last() =~= b@.take(i as int));
        i = i + 1;
    }
    assert(b@.take(b.len() as int) =~= b@);
    s
}

/// The SHA-256 digest of a text's bytes, in lowercase hexadecimal.
pub fn sha256_hex(s: &str) -> (r: String)
    ensures
        r@ == hex_bytes(sha256_digest(s.spec_bytes())),
        r@.len() == 64,
{
    let digest = sha256(s.as_bytes());
    proof {
        lemma_hex_bytes_shape(digest@);
    }
    hex_string(&digest)
}

/// The SHA-256 digest of bytes in lowercase hexadecimal.
pub fn sha256_hex_bytes(b: &[u8]) -> (r: String)
    ensures
        r@ == hex_bytes(sha256_digest(b@)),
        r@.len() == 64,
{
    let digest = sha256(b);
    proof {
        lemma_hex_bytes_shape(digest@);
    }
    hex_string(&digest)
}

proof fn lemma_hex_bytes_shape(b: Seq<u8>)
    ensures
        hex_bytes(b).len() == 2 * b.len(),
        forall|i: int| 0 <= i < hex_bytes(b).len() ==> class_allows(CharClass::ApiKey, #[trigger] hex_bytes(b)[i]),
    decreases b.len(),
{
    if b.len() > 0 {
        lemma_hex_bytes_shape(b.drop_last());
        let h = hex_bytes(b.drop_last());
        let t = seq![hex_digit((b.last() / 16) as int), hex_digit((b.last() % 16) as int)];
        assert(hex_bytes(b) == h + t);
        assert forall|i: int| 0 <= i < hex_bytes(b).len() implies class_allows(CharClass::ApiKey, #[trigger] hex_bytes(b)[i]) by {
            if i < h.len() {
                assert(hex_bytes(b)[i] == h[i]);
            } else {
                assert(hex_bytes(b)[i] == t[i - h.len()]);
            }
        }
    }
}

/// The message for a key hash whose length is not that of a SHA-256 hash.
pub open spec fn api_key_length_message() -> Seq<char> {
    "API key hash has invalid length, must be a sha256 hash of exactly 64 hexadecimal characters"@
}

/// Whether a text is a valid API key hash: 64 bytes long, made of lowercase
/// letters and hexadecimal digits; else the message that refuses it.
pub open spec fn api_key_check(len: nat, s: Seq<char>) -> Result<(), Seq<char>> {
    if len != 64 {
        Err(api_key_length_message())
    } else {
        match first_where(s, outside_class(CharClass::ApiKey)) {
            Some(i) => Err("API key hash contains an unexpected character <"@ + seq![s[i]]
                + ">, sha256 hash must be formatted in lowercased hexdigits"@),
            None => Ok(()),
        }
    }
}

/// A key hash is accepted exactly when it is 64 bytes long and made of the
/// digits and the lowercase letters `a` to `f`.
pub proof fn lemma_api_key(len: nat, s: Seq<char>)
    ensures
        api_key_check(len, s) is Ok <==> (len == 64
            && forall|i: int| 0 <= i < s.len() ==> (('0' <= #[trigger] s[i] <= '9') || ('a' <= s[i] <= 'f'))),
        len != 64 ==> api_key_check(len, s) == Err::<(), Seq<char>>(api_key_length_message()),
{
    lemma_first_outside(s, CharClass::ApiKey);
    assert forall|i: int| 0 <= i < s.len() implies class_allows(CharClass::ApiKey, #[trigger] s[i])
        == (('0' <= s[i] <= '9') || ('a' <= s[i] <= 'f')) by {
        lemma_class_allows(s[i]);
    }
}

/// The SHA-256 hash of a client's API key, in lowercase hexadecimal.
pub struct ApiKey(String);

impl View for ApiKey {
    type V = Seq<char>;

    closed spec fn view(&self) -> Seq<char> {
        self.0@
    }
}

impl Clone for ApiKey {
    fn clone(&self) -> (r: Self)
        ensures
            r@ == self@,
    {
        ApiKey(self.0.clone())
    }
}

impl ApiKey {
    /// Parses the hash of an API key.
    pub fn from_str(s: &str) -> (r: Result<ApiKey, String>)
        ensures
            r is Ok <==> api_key_check(utf8_len(s@) as nat, s@) is Ok,
            r matches Ok(k) ==> k@ == s@,
            r matches Err(m) ==> m@ == api_key_check(utf8_len(s@) as nat, s@)->Err_0,
    {
        if byte_len_capped(s, 65) != 64 {
            return Err(
                "API key hash has invalid length, must be a sha256 hash of exactly 64 hexadecimal characters".to_owned(),
            );
        }
        let cs = chars_of(s);
        match find_outside(&cs, CharClass::ApiKey) {
            Some(c) => Err(crate::text::around_char(
                "API key hash contains an unexpected character <",
                c,
                ">, sha256 hash must be formatted in lowercased hexdigits",
            )),
            None => Ok(ApiKey(s.to_owned())),
        }
    }

    /// The hash of a key as clients send it: the SHA-256 digest of its
    /// bytes, in lowercase hexadecimal.
    pub fn encrypt(s: &str) -> (r: ApiKey)
        ensures
            r@ == hex_bytes(sha256_digest(s.spec_bytes())),
            r@.len() == 64,
            first_where(r@, outside_class(CharClass::ApiKey)) is None,
    {
        let h = sha256_hex(s);
        proof {
            lemma_hex_bytes_shape(sha256_digest(s.spec_bytes()));
            crate::text::lemma_first_where_none(h@, outside_class(CharClass::ApiKey));
        }
        ApiKey(h)
    }

    pub fn as_str(&self) -> (r: &str)
        ensures
            r@ == self@,
    {
        self.0.as_str()
    }

    /// Whether the two hashes are the same.
    pub fn eq(&self, other: &ApiKey) -> (r: bool)
        ensures
            r == (self@ == other@),
    {
        crate::text::str_eq(self.0.as_str(), other.0.as_str())
    }
}

} // verus!
