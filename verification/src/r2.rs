//! Cloudflare R2 (S3-compatible) request signing with AWS Signature V4:
//! URI and query canonicalisation, the signing-key chain and the
//! `Authorization` header, plus the key and public-URL rules of the client.
use hmac::{KeyInit, Mac};
use sha2::Digest;
use vstd::prelude::*;
use vstd::relations::{sorted_by, total_ordering};
use vstd::seq_lib::{lemma_multiset_commutative, lemma_sorted_unique};
use vstd::utf8::{encode_scalar, encode_utf8, has_width_1_encoding, leading_byte_width_1,
    leading_byte_width_2, leading_byte_width_3, leading_byte_width_4};

use crate::config::R2Config;
use crate::error::AppError;
use crate::model::R2Object;
use crate::text::{chars_of, compare_chars, extend_chars, extend_with_str, is_blank, is_blank_str,
    lemma_seq_lt_asymmetric, lemma_seq_lt_irreflexive, lemma_seq_lt_total,
    lemma_seq_lt_transitive, push_chars, seq_lt, string_from_chars, strip_leading,
    strip_leading_chars, strip_trailing, strip_trailing_chars, Order};

verus! {

// ---------------------------------------------------------------------------
// Hexadecimal
// ---------------------------------------------------------------------------

/// Upper-case hexadecimal digit of `d < 16`.
pub open spec fn hex_upper(d: nat) -> char {
    if d < 10 {
        (('0' as u32) + d) as char
    } else {
        (('A' as u32) + d - 10) as char
    }
}

/// Lower-case hexadecimal digit of `d < 16`.
pub open spec fn hex_lower_digit(d: nat) -> char {
    if d < 10 {
        (('0' as u32) + d) as char
    } else {
        (('a' as u32) + d - 10) as char
    }
}

/// The two lower-case hexadecimal digits of a byte.
pub open spec fn hex_byte_lower(b: u8) -> Seq<char> {
    seq![hex_lower_digit((b / 16) as nat), hex_lower_digit((b % 16) as nat)]
}

/// Lower-case hexadecimal text of a byte string, two digits per byte.
pub open spec fn hex_lower(bytes: Seq<u8>) -> Seq<char> {
    bytes.map_values(|b: u8| hex_byte_lower(b)).flatten()
}

pub(crate) fn hex_upper_char(d: u8) -> (c: char)
    requires
        d < 16,
    ensures
        c == hex_upper(d as nat),
{
    if d < 10 {
        let b = 48 + d;
        let c = b as char;
        assert(c as u32 == 48 + d);
        c
    } else {
        let b = 55 + d;
        let c = b as char;
        assert(c as u32 == 65 + d - 10);
        c
    }
}

/// `hex::encode`: the lower-case hexadecimal text of `data`.
#[verifier::external_body]
fn hex_encode(data: &[u8]) -> (r: String)
    ensures
        r@ == hex_lower(data@),
{
    hex::encode(data)
}

// ---------------------------------------------------------------------------
// SHA-256 and HMAC-SHA256
// ---------------------------------------------------------------------------

/// The SHA-256 digest of a byte string.
pub uninterp spec fn sha256(data: Seq<u8>) -> Seq<u8>;

/// The HMAC-SHA256 of `data` under `key`.
pub uninterp spec fn hmac_sha256(key: Seq<u8>, data: Seq<u8>) -> Seq<u8>;

/// `Sha256::digest` from the `sha2` crate: the SHA-256 digest of `data`,
/// 32 bytes long.
#[verifier::external_body]
fn sha256_digest(data: &[u8]) -> (r: Vec<u8>)
    ensures
        r@ == sha256(data@),
        r@.len() == 32,
{
    sha2::Sha256::digest(data).to_vec()
}

/// `Hmac::<Sha256>::new_from_slice` followed by `update` and `finalize` from
/// the `hmac` crate. HMAC accepts keys of any length, so the key is never
/// refused; the result is the HMAC-SHA256 of `data` under `key`.
#[verifier::external_body]
fn hmac_sha256_digest(key: &[u8], data: &[u8]) -> (r: Result<Vec<u8>, hmac::digest::InvalidLength>)
    ensures
        r is Ok,
        r->Ok_0@ == hmac_sha256(key@, data@),
{
    match <hmac::Hmac<sha2::Sha256> as KeyInit>::new_from_slice(key) {
        Ok(mut mac) => {
            mac.update(data);
            Ok(mac.finalize().into_bytes().to_vec())
        },
        Err(e) => Err(e),
    }
}

#[verifier::external_type_specification]
#[verifier::external_body]
pub struct ExInvalidLength(hmac::digest::InvalidLength);

/// The text of an HMAC key-length error (its `Display`).
#[verifier::external_body]
fn invalid_length_text(e: &hmac::digest::InvalidLength) -> String {
    e.to_string()
}

/// The lower-case hexadecimal SHA-256 digest of `data`.
pub fn sha256_hex(data: &[u8]) -> (r: String)
    ensures
        r@ == hex_lower(sha256(data@)),
{
    let d = sha256_digest(data);
    hex_encode(d.as_slice())
}

#[verifier::external_type_specification]
#[verifier::external_body]
pub struct ExSha256Hasher(sha2::Sha256);

/// The bytes a `sha2::Sha256` hasher has taken in so far, in order.
pub uninterp spec fn sha256_absorbed(h: sha2::Sha256) -> Seq<u8>;

/// `Sha256::new()` from `sha2`: a hasher that has taken in nothing.
#[verifier::external_body]
fn sha256_start() -> (h: sha2::Sha256)
    ensures
        sha256_absorbed(h) == Seq::<u8>::empty(),
{
    <sha2::Sha256 as Digest>::new()
}

/// `Digest::update` from `sha2`: the hasher takes in `chunk` after what it
/// already holds.
#[verifier::external_body]
fn sha256_absorb(h: &mut sha2::Sha256, chunk: &[u8])
    ensures
        sha256_absorbed(*final(h)) == sha256_absorbed(*old(h)) + chunk@,
{
    Digest::update(h, chunk)
}

/// `Digest::finalize` from `sha2`: the SHA-256 digest of everything the
/// hasher has taken in, 32 bytes long (the same as `Sha256::digest` of those
/// bytes at once).
#[verifier::external_body]
fn sha256_finish(h: sha2::Sha256) -> (r: Vec<u8>)
    ensures
        r@ == sha256(sha256_absorbed(h)),
        r@.len() == 32,
{
    Digest::finalize(h).to_vec()
}

/// A SHA-256 hash of a body read piece by piece, as an upload streams its
/// file.
pub struct PayloadHasher {
    hasher: sha2::Sha256,
}

impl PayloadHasher {
    /// The bytes taken in so far, in order.
    pub closed spec fn absorbed(&self) -> Seq<u8> {
        sha256_absorbed(self.hasher)
    }

    /// A hasher that has taken in nothing.
    pub fn new() -> (r: PayloadHasher)
        ensures
            r.absorbed() == Seq::<u8>::empty(),
    {
        PayloadHasher { hasher: sha256_start() }
    }

    /// Takes in the next piece of the body.
    pub fn update(&mut self, chunk: &[u8])
        ensures
            final(self).absorbed() == old(self).absorbed() + chunk@,
    {
        sha256_absorb(&mut self.hasher, chunk);
    }

    /// The lower-case hexadecimal SHA-256 of the whole body taken in.
    pub fn finish_hex(self) -> (r: String)
        ensures
            r@ == hex_lower(sha256(self.absorbed())),
    {
        let d = sha256_finish(self.hasher);
        hex_encode(d.as_slice())
    }
}

/// The HMAC-SHA256 of `data` under `key`.
pub fn hmac_bytes(key: &[u8], data: &[u8]) -> (r: Result<Vec<u8>, AppError>)
    ensures
        r matches Ok(v) && v@ == hmac_sha256(key@, data@),
{
    match hmac_sha256_digest(key, data) {
        Ok(v) => Ok(v),
        Err(e) => {
            let mut message = String::new();
            message.append("HMAC key error: ");
            message.append(invalid_length_text(&e).as_str());
            Err(AppError::Message(message))
        },
    }
}

/// The lower-case hexadecimal HMAC-SHA256 of `data` under `key`.
pub fn hmac_hex(key: &[u8], data: &[u8]) -> (r: Result<String, AppError>)
    ensures
        r matches Ok(h) && h@ == hex_lower(hmac_sha256(key@, data@)),
{
    let v = hmac_bytes(key, data)?;
    Ok(hex_encode(v.as_slice()))
}

/// The SigV4 signing key for an R2 secret on a given day:
/// HMAC chain over the date, the region `auto`, the service `s3` and
/// `aws4_request`, starting from the key `AWS4` followed by the secret.
pub open spec fn spec_signing_key(secret: Seq<char>, date_stamp: Seq<char>) -> Seq<u8> {
    let date_key = hmac_sha256(encode_utf8("AWS4"@ + secret), encode_utf8(date_stamp));
    let region_key = hmac_sha256(date_key, encode_utf8("auto"@));
    let service_key = hmac_sha256(region_key, encode_utf8("s3"@));
    hmac_sha256(service_key, encode_utf8("aws4_request"@))
}

/// The SigV4 signing key for `secret` on the day `date_stamp` (`YYYYMMDD`).
pub fn signing_key(secret: &str, date_stamp: &str) -> (r: Result<Vec<u8>, AppError>)
    ensures
        r matches Ok(k) && k@ == spec_signing_key(secret@, date_stamp@),
{
    let mut seed = String::new();
    seed.append("AWS4");
    seed.append(secret);
    let date_key = hmac_bytes(seed.as_str().as_bytes(), date_stamp.as_bytes())?;
    let region_key = hmac_bytes(date_key.as_slice(), "auto".as_bytes())?;
    let service_key = hmac_bytes(region_key.as_slice(), "s3".as_bytes())?;
    hmac_bytes(service_key.as_slice(), "aws4_request".as_bytes())
}

// ---------------------------------------------------------------------------
// URI encoding
// ---------------------------------------------------------------------------

/// The bytes that SigV4 leaves unencoded: ASCII letters, digits and `-_.~`.
pub open spec fn is_unreserved(b: u8) -> bool {
    ||| 65 <= b <= 90
    ||| 97 <= b <= 122
    ||| 48 <= b <= 57
    ||| b == 45
    ||| b == 95
    ||| b == 46
    ||| b == 126
}

/// One byte, URI-encoded: unreserved bytes stand for themselves, every other
/// byte becomes `%` and two upper-case hexadecimal digits.
pub open spec fn encode_byte(b: u8) -> Seq<char> {
    if is_unreserved(b) {
        seq![b as char]
    } else {
        seq!['%', hex_upper((b / 16) as nat), hex_upper((b % 16) as nat)]
    }
}

/// URI encoding of a byte string.
pub open spec fn aws_encode_bytes(bytes: Seq<u8>) -> Seq<char> {
    bytes.map_values(|b: u8| encode_byte(b)).flatten()
}

/// URI encoding of the UTF-8 bytes of a string.
pub open spec fn spec_aws_encode(s: Seq<char>) -> Seq<char> {
    aws_encode_bytes(encode_utf8(s))
}

/// URI encoding of an object key: like `aws_encode_bytes`, except that the
/// path separator `/` is kept, so that each segment is encoded on its own.
pub open spec fn encode_key_byte(b: u8) -> Seq<char> {
    if b == 47 {
        seq!['/']
    } else {
        encode_byte(b)
    }
}

/// URI encoding of an object key, keeping its `/` separators.
pub open spec fn key_path_encode(bytes: Seq<u8>) -> Seq<char> {
    bytes.map_values(|b: u8| encode_key_byte(b)).flatten()
}

fn encode_byte_into(out: &mut Vec<char>, b: u8)
    ensures
        final(out)@ == old(out)@ + encode_byte(b),
{
    if (65 <= b && b <= 90) || (97 <= b && b <= 122) || (48 <= b && b <= 57) || b == 45 || b
        == 95 || b == 46 || b == 126 {
        out.push(b as char);
        assert(out@ =~= old(out)@ + seq![b as char]);
    } else {
        out.push('%');
        out.push(hex_upper_char(b / 16));
        out.push(hex_upper_char(b % 16));
        assert(out@ =~= old(out)@ + encode_byte(b));
    }
}

pub(crate) proof fn lemma_map_flatten_step<A>(s: Seq<A>, f: spec_fn(A) -> Seq<char>, i: int)
    requires
        0 <= i < s.len(),
    ensures
        s.take(i + 1).map_values(f).flatten() == s.take(i).map_values(f).flatten() + f(s[i]),
{
    assert(s.take(i + 1).map_values(f) =~= s.take(i).map_values(f).push(f(s[i])));
    s.take(i).map_values(f).lemma_flatten_push(f(s[i]));
}

/// Appends the URI encoding of `bytes` to `out`; with `keep_slash`, the
/// path separator is kept.
fn encode_bytes_into(out: &mut Vec<char>, bytes: &[u8], keep_slash: bool)
    ensures
        final(out)@ == old(out)@ + (if keep_slash {
            key_path_encode(bytes@)
        } else {
            aws_encode_bytes(bytes@)
        }),
{
    let ghost f = if keep_slash {
        |b: u8| encode_key_byte(b)
    } else {
        |b: u8| encode_byte(b)
    };
    let n = bytes.len();
    for i in 0..n
        invariant
            n == bytes@.len(),
            f == (if keep_slash {
                |b: u8| encode_key_byte(b)
            } else {
                |b: u8| encode_byte(b)
            }),
            out@ == old(out)@ + bytes@.take(i as int).map_values(f).flatten(),
    {
        let b = bytes[i];
        if keep_slash && b == 47 {
            out.push('/');
        } else {
            encode_byte_into(out, b);
        }
        proof {
            lemma_map_flatten_step(bytes@, f, i as int);
        }
        assert(out@ =~= old(out)@ + bytes@.take(i + 1).map_values(f).flatten());
    }
    assert(bytes@.take(n as int) =~= bytes@);
}

/// URI-encodes the UTF-8 bytes of `value` as SigV4 requires: unreserved
/// bytes are kept, every other byte becomes `%XX`.
pub fn aws_encode(value: &str) -> (r: String)
    ensures
        r@ == spec_aws_encode(value@),
{
    let mut out: Vec<char> = Vec::new();
    encode_bytes_into(&mut out, value.as_bytes(), false);
    string_from_chars(out.as_slice())
}

fn aws_encode_chars(value: &str) -> (r: Vec<char>)
    ensures
        r@ == spec_aws_encode(value@),
{
    let mut out: Vec<char> = Vec::new();
    encode_bytes_into(&mut out, value.as_bytes(), false);
    out
}

/// The canonical URI of an object: `/bucket` for the bucket itself,
/// `/bucket/key` otherwise, every part URI-encoded except the `/` separators.
pub open spec fn spec_canonical_object_uri(bucket: Seq<char>, key: Seq<char>) -> Seq<char> {
    if key.len() == 0 {
        seq!['/'] + spec_aws_encode(bucket)
    } else {
        seq!['/'] + spec_aws_encode(bucket) + seq!['/'] + key_path_encode(encode_utf8(key))
    }
}

/// The canonical URI of object `key` in `bucket`.
pub fn canonical_object_uri(bucket: &str, key: &str) -> (r: String)
    ensures
        r@ == spec_canonical_object_uri(bucket@, key@),
{
    let mut out: Vec<char> = Vec::new();
    out.push('/');
    encode_bytes_into(&mut out, bucket.as_bytes(), false);
    if !key.is_empty() {
        out.push('/');
        encode_bytes_into(&mut out, key.as_bytes(), true);
    }
    assert(out@ =~= spec_canonical_object_uri(bucket@, key@));
    string_from_chars(out.as_slice())
}

// ---------------------------------------------------------------------------
// Canonical query string
// ---------------------------------------------------------------------------

/// A query parameter as text.
pub type QueryPair = (Seq<char>, Seq<char>);

/// The order of `(String, String)` tuples: by name, then by value.
pub open spec fn pair_leq(a: QueryPair, b: QueryPair) -> bool {
    ||| seq_lt(a.0, b.0)
    ||| (a.0 == b.0 && (seq_lt(a.1, b.1) || a.1 == b.1))
}

/// `pair_leq` as a relation.
pub open spec fn pair_order() -> spec_fn(QueryPair, QueryPair) -> bool {
    |a: QueryPair, b: QueryPair| pair_leq(a, b)
}

/// The parameters with their names and values URI-encoded.
pub open spec fn encoded_pairs(params: Seq<QueryPair>) -> Seq<QueryPair> {
    params.map_values(|p: QueryPair| (spec_aws_encode(p.0), spec_aws_encode(p.1)))
}

/// `name=value`.
pub open spec fn query_item(p: QueryPair) -> Seq<char> {
    p.0 + seq!['='] + p.1
}

/// The items joined with `&`.
pub open spec fn query_string(pairs: Seq<QueryPair>) -> Seq<char>
    decreases pairs.len(),
{
    if pairs.len() == 0 {
        Seq::empty()
    } else if pairs.len() == 1 {
        query_item(pairs[0])
    } else {
        query_string(pairs.drop_last()) + seq!['&'] + query_item(pairs.last())
    }
}

/// The canonical query string of SigV4: the encoded parameters in sorted
/// order, as `name=value` items joined with `&`.
pub open spec fn spec_canonical_query(params: Seq<QueryPair>) -> Seq<char> {
    query_string(encoded_pairs(params).sort_by(pair_order()))
}

/// The views of borrowed query parameters.
pub open spec fn param_views(params: Seq<(&str, &str)>) -> Seq<QueryPair> {
    params.map_values(|p: (&str, &str)| (p.0@, p.1@))
}

/// `pair_leq` is a total order.
pub proof fn lemma_pair_order_total()
    ensures
        total_ordering(pair_order()),
{
    let r = pair_order();
    assert forall|a: QueryPair| #[trigger] r(a, a) by {}
    assert forall|a: QueryPair, b: QueryPair| #[trigger] r(a, b) && #[trigger] r(b, a) implies a
        == b by {
        lemma_seq_lt_asymmetric(a.0, b.0);
        lemma_seq_lt_irreflexive(a.0);
        lemma_seq_lt_asymmetric(a.1, b.1);
        lemma_seq_lt_irreflexive(a.1);
        if a.0 == b.0 {
            lemma_seq_lt_irreflexive(a.0);
        }
    }
    assert forall|a: QueryPair, b: QueryPair, c: QueryPair| #[trigger] r(a, b) && #[trigger] r(
        b,
        c,
    ) implies r(a, c) by {
        if seq_lt(a.0, b.0) && seq_lt(b.0, c.0) {
            lemma_seq_lt_transitive(a.0, b.0, c.0);
        }
        if seq_lt(a.1, b.1) && seq_lt(b.1, c.1) {
            lemma_seq_lt_transitive(a.1, b.1, c.1);
        }
    }
    assert forall|a: QueryPair, b: QueryPair| #[trigger] r(a, b) || #[trigger] r(b, a) by {
        lemma_seq_lt_total(a.0, b.0);
        lemma_seq_lt_total(a.1, b.1);
    }
}

fn pair_leq_exec(a: &(Vec<char>, Vec<char>), b: &(Vec<char>, Vec<char>)) -> (r: bool)
    ensures
        r == pair_leq((a.0@, a.1@), (b.0@, b.1@)),
{
    match compare_chars(a.0.as_slice(), b.0.as_slice()) {
        Order::Less => true,
        Order::Greater => {
            proof {
                lemma_seq_lt_asymmetric(a.0@, b.0@);
                if a.0@ == b.0@ {
                    lemma_seq_lt_irreflexive(a.0@);
                }
            }
            false
        },
        Order::Equal => {
            proof {
                lemma_seq_lt_irreflexive(a.0@);
            }
            match compare_chars(a.1.as_slice(), b.1.as_slice()) {
                Order::Greater => {
                    proof {
                        lemma_seq_lt_asymmetric(a.1@, b.1@);
                        if a.1@ == b.1@ {
                            lemma_seq_lt_irreflexive(a.1@);
                        }
                    }
                    false
                },
                _ => true,
            }
        },
    }
}

/// The views of a vector of character-vector pairs.
pub open spec fn vec_pair_views(v: Seq<(Vec<char>, Vec<char>)>) -> Seq<QueryPair> {
    v.map_values(|p: (Vec<char>, Vec<char>)| (p.0@, p.1@))
}

proof fn lemma_insert_multiset<A>(s: Seq<A>, i: int, x: A)
    requires
        0 <= i <= s.len(),
    ensures
        s.insert(i, x).to_multiset() =~= s.to_multiset().insert(x),
{
    broadcast use vstd::multiset::group_multiset_axioms;
    let a = s.subrange(0, i);
    let b = s.subrange(i, s.len() as int);
    assert(s =~= a + b);
    assert(s.insert(i, x) =~= a.push(x) + b);
    lemma_multiset_commutative(a, b);
    lemma_multiset_commutative(a.push(x), b);
    a.to_multiset_ensures();
}

/// Sorts the pairs by `pair_leq` (insertion sort).
fn sort_pairs(v: Vec<(Vec<char>, Vec<char>)>) -> (r: Vec<(Vec<char>, Vec<char>)>)
    ensures
        sorted_by(vec_pair_views(r@), pair_order()),
        vec_pair_views(r@).to_multiset() == vec_pair_views(v@).to_multiset(),
{
    proof {
        lemma_pair_order_total();
    }
    let mut sorted: Vec<(Vec<char>, Vec<char>)> = Vec::new();
    let n = v.len();
    let mut rest = v;
    let ghost orig = vec_pair_views(rest@);
    let mut k: usize = 0;
    assert(vec_pair_views(sorted@) =~= orig.take(0));
    while k < n
        invariant
            n == orig.len(),
            k <= n,
            rest@.len() == n - k,
            vec_pair_views(rest@) == orig.skip(k as int),
            total_ordering(pair_order()),
            sorted_by(vec_pair_views(sorted@), pair_order()),
            vec_pair_views(sorted@).to_multiset() == orig.take(k as int).to_multiset(),
        decreases n - k,
    {
        let ghost rest_before = rest@;
        let x = rest.remove(0);
        let ghost xv = (x.0@, x.1@);
        assert(xv == orig[k as int]) by {
            assert(x == rest_before[0]);
            assert(vec_pair_views(rest_before)[0] == xv);
            assert(orig.skip(k as int)[0] == orig[k as int]);
        }
        assert(vec_pair_views(rest@) =~= orig.skip(k as int).drop_first()) by {
            assert(rest@ =~= rest_before.remove(0));
        }
        let ghost sv = vec_pair_views(sorted@);
        let m = sorted.len();
        let mut pos: usize = 0;
        while pos < m
            invariant
                m == sorted@.len(),
                sv == vec_pair_views(sorted@),
                xv == (x.0@, x.1@),
                pos <= m,
                forall|j: int| 0 <= j < pos ==> pair_leq(#[trigger] sv[j], xv),
            ensures
                pos <= m,
                forall|j: int| 0 <= j < pos ==> pair_leq(#[trigger] sv[j], xv),
                pos < m ==> !pair_leq(sv[pos as int], xv),
            decreases m - pos,
        {
            assert(sv[pos as int] == (sorted@[pos as int].0@, sorted@[pos as int].1@));
            if !pair_leq_exec(&sorted[pos], &x) {
                break;
            }
            pos = pos + 1;
        }
        let ghost before = vec_pair_views(sorted@);
        sorted.insert(pos, x);
        let ghost after = vec_pair_views(sorted@);
        assert(after =~= before.insert(pos as int, xv));
        proof {
            let r = pair_order();
            assert forall|a: int, b: int| 0 <= a < b < after.len() implies r(
                after[a],
                after[b],
            ) by {
                if pos < m {
                    assert(!pair_leq(before[pos as int], xv));
                    assert(r(xv, before[pos as int]) || r(before[pos as int], xv));
                    assert(r(xv, before[pos as int]));
                }
                if b < pos {
                    assert(after[a] == before[a] && after[b] == before[b]);
                } else if b == pos {
                    assert(after[a] == before[a]);
                } else if a == pos {
                    assert(after[b] == before[b - 1]);
                    if b - 1 > pos {
                        assert(r(before[pos as int], before[b - 1]));
                    }
                } else if a < pos {
                    assert(after[a] == before[a] && after[b] == before[b - 1]);
                } else {
                    assert(after[a] == before[a - 1] && after[b] == before[b - 1]);
                }
            }
            lemma_insert_multiset(before, pos as int, xv);
            assert(orig.take(k + 1) =~= orig.take(k as int).push(orig[k as int]));
            orig.take(k as int).to_multiset_ensures();
            assert(vec_pair_views(rest@) =~= orig.skip(k + 1));
        }
        k = k + 1;
    }
    assert(orig.take(n as int) =~= orig);
    sorted
}

fn query_item_into(out: &mut Vec<char>, p: &(Vec<char>, Vec<char>))
    ensures
        final(out)@ == old(out)@ + query_item((p.0@, p.1@)),
{
    extend_chars(out, p.0.as_slice());
    out.push('=');
    extend_chars(out, p.1.as_slice());
    assert(out@ =~= old(out)@ + query_item((p.0@, p.1@)));
}

/// The canonical query string of `params`: each name and value URI-encoded,
/// the pairs sorted, and joined as `name=value&name=value`.
pub fn canonical_query(params: &[(&str, &str)]) -> (r: String)
    ensures
        r@ == spec_canonical_query(param_views(params@)),
{
    let mut pairs: Vec<(Vec<char>, Vec<char>)> = Vec::new();
    let n = params.len();
    let ghost enc = encoded_pairs(param_views(params@));
    for i in 0..n
        invariant
            n == params@.len(),
            enc == encoded_pairs(param_views(params@)),
            vec_pair_views(pairs@) == enc.take(i as int),
    {
        let (key, value) = params[i];
        assert(param_views(params@)[i as int] == (key@, value@));
        let k = aws_encode_chars(key);
        let v = aws_encode_chars(value);
        assert(enc[i as int] == (k@, v@));
        let ghost before = pairs@;
        pairs.push((k, v));
        assert(vec_pair_views(pairs@) =~= vec_pair_views(before).push(enc[i as int]));
        assert(vec_pair_views(pairs@) =~= enc.take(i + 1));
    }
    assert(enc.take(n as int) =~= enc);
    let sorted = sort_pairs(pairs);
    let ghost sv = vec_pair_views(sorted@);
    proof {
        lemma_pair_order_total();
        enc.lemma_sort_by_ensures(pair_order());
        lemma_sorted_unique(sv, enc.sort_by(pair_order()), pair_order());
    }
    let mut out: Vec<char> = Vec::new();
    let m = sorted.len();
    for i in 0..m
        invariant
            m == sorted@.len(),
            sv == vec_pair_views(sorted@),
            out@ == query_string(sv.take(i as int)),
    {
        let ghost prev = out@;
        if i > 0 {
            out.push('&');
        }
        query_item_into(&mut out, &sorted[i]);
        proof {
            assert(sv.take(i + 1).drop_last() =~= sv.take(i as int));
            if i == 0 {
                assert(sv.take(1).len() == 1);
                assert(out@ =~= query_string(sv.take(1)));
            } else {
                assert(out@ =~= prev + seq!['&'] + query_item(sv[i as int]));
            }
        }
    }
    assert(sv.take(m as int) =~= sv);
    string_from_chars(out.as_slice())
}

// ---------------------------------------------------------------------------
// Signature V4
// ---------------------------------------------------------------------------

/// The headers of a signed request.
#[derive(Clone, Debug, PartialEq, Eq)]
pub struct SignedHeaders {
    pub authorization: String,
    pub amz_date: String,
    pub payload_hash: String,
    pub host: String,
}

/// The first missing credential of an R2 configuration, in the order account
/// id, bucket, access key id, secret access key; `None` when all are given.
pub open spec fn missing_credential(c: R2Config) -> Option<Seq<char>> {
    if is_blank(c.account_id@) {
        Some("R2 account id"@)
    } else if is_blank(c.bucket@) {
        Some("R2 bucket"@)
    } else if is_blank(c.access_key_id@) {
        Some("R2 access key id"@)
    } else if is_blank(c.secret_access_key@) {
        Some("R2 secret access key"@)
    } else {
        None
    }
}

/// Checks that the account id, bucket, access key id and secret access key
/// are not blank.
pub fn validate_config(config: &R2Config) -> (r: Result<(), AppError>)
    ensures
        r is Ok <==> missing_credential(*config) is None,
        r matches Err(e) ==> e matches AppError::Missing(m) && m@ == missing_credential(
            *config,
        )->0,
{
    if is_blank_str(config.account_id.as_str()) {
        return Err(AppError::Missing("R2 account id".to_owned()));
    }
    if is_blank_str(config.bucket.as_str()) {
        return Err(AppError::Missing("R2 bucket".to_owned()));
    }
    if is_blank_str(config.access_key_id.as_str()) {
        return Err(AppError::Missing("R2 access key id".to_owned()));
    }
    if is_blank_str(config.secret_access_key.as_str()) {
        return Err(AppError::Missing("R2 secret access key".to_owned()));
    }
    Ok(())
}

/// The headers that are signed, in order.
pub open spec fn signed_header_names() -> Seq<char> {
    "host;x-amz-content-sha256;x-amz-date"@
}

/// The R2 endpoint host of an account.
pub open spec fn r2_host(account_id: Seq<char>) -> Seq<char> {
    account_id + ".r2.cloudflarestorage.com"@
}

/// The payload hash that is signed: the given one, or the hash of an empty
/// body when none is given.
pub open spec fn effective_payload_hash(payload_hash: Seq<char>) -> Seq<char> {
    if payload_hash.len() == 0 {
        hex_lower(sha256(Seq::empty()))
    } else {
        payload_hash
    }
}

/// The canonical request of SigV4.
pub open spec fn canonical_request(
    method: Seq<char>,
    uri: Seq<char>,
    query: Seq<char>,
    host: Seq<char>,
    payload: Seq<char>,
    amz_date: Seq<char>,
) -> Seq<char> {
    method + "\n"@ + uri + "\n"@ + query + "\n"@ + "host:"@ + host + "\nx-amz-content-sha256:"@
        + payload + "\nx-amz-date:"@ + amz_date + "\n"@ + "\n"@ + signed_header_names() + "\n"@
        + payload
}

/// The credential scope: day, region `auto`, service `s3`.
pub open spec fn credential_scope(date_stamp: Seq<char>) -> Seq<char> {
    date_stamp + "/auto/s3/aws4_request"@
}

/// The string to sign.
pub open spec fn string_to_sign(amz_date: Seq<char>, scope: Seq<char>, request: Seq<char>) -> Seq<
    char,
> {
    "AWS4-HMAC-SHA256\n"@ + amz_date + "\n"@ + scope + "\n"@ + hex_lower(
        sha256(encode_utf8(request)),
    )
}

/// The `Authorization` header value.
pub open spec fn authorization_value(
    access_key_id: Seq<char>,
    scope: Seq<char>,
    signature: Seq<char>,
) -> Seq<char> {
    "AWS4-HMAC-SHA256 Credential="@ + access_key_id + "/"@ + scope + ", SignedHeaders="@
        + signed_header_names() + ", Signature="@ + signature
}

/// The signed headers of a request, for a configuration with all credentials.
pub open spec fn spec_signed_headers(
    config: R2Config,
    method: Seq<char>,
    uri: Seq<char>,
    query: Seq<char>,
    payload_hash: Seq<char>,
    amz_date: Seq<char>,
    date_stamp: Seq<char>,
) -> (Seq<char>, Seq<char>, Seq<char>, Seq<char>) {
    let payload = effective_payload_hash(payload_hash);
    let host = r2_host(config.account_id@);
    let request = canonical_request(method, uri, query, host, payload, amz_date);
    let scope = credential_scope(date_stamp);
    let sts = string_to_sign(amz_date, scope, request);
    let signature = hex_lower(
        hmac_sha256(spec_signing_key(config.secret_access_key@, date_stamp), encode_utf8(sts)),
    );
    (authorization_value(config.access_key_id@, scope, signature), amz_date, payload, host)
}

/// Whether `h` holds the four values of `spec`.
pub open spec fn headers_match(h: SignedHeaders, spec: (Seq<char>, Seq<char>, Seq<char>, Seq<char>)) -> bool {
    &&& h.authorization@ == spec.0
    &&& h.amz_date@ == spec.1
    &&& h.payload_hash@ == spec.2
    &&& h.host@ == spec.3
}

/// Signs a request to R2 with AWS Signature V4. `amz_date` is the request
/// time as `YYYYMMDDTHHMMSSZ` and `date_stamp` its day as `YYYYMMDD`; an
/// empty `payload_hash` stands for an empty body.
pub fn build_authorization(
    config: &R2Config,
    method: &str,
    canonical_uri: &str,
    canonical_query: &str,
    payload_hash: &str,
    amz_date: &str,
    date_stamp: &str,
) -> (r: Result<SignedHeaders, AppError>)
    ensures
        r is Err <==> missing_credential(*config) is Some,
        r matches Err(e) ==> e matches AppError::Missing(m) && m@ == missing_credential(
            *config,
        )->0,
        r matches Ok(h) ==> headers_match(
            h,
            spec_signed_headers(
                *config,
                method@,
                canonical_uri@,
                canonical_query@,
                payload_hash@,
                amz_date@,
                date_stamp@,
            ),
        ),
{
    validate_config(config)?;
    let payload = if payload_hash.is_empty() {
        let empty: [u8; 0] = [];
        let h = sha256_hex(&empty);
        assert(empty@ =~= Seq::<u8>::empty());
        h
    } else {
        payload_hash.to_owned()
    };
    let mut host = config.account_id.clone();
    host.append(".r2.cloudflarestorage.com");

    let mut req: Vec<char> = Vec::new();
    extend_with_str(&mut req, method);
    extend_with_str(&mut req, "\n");
    extend_with_str(&mut req, canonical_uri);
    extend_with_str(&mut req, "\n");
    extend_with_str(&mut req, canonical_query);
    extend_with_str(&mut req, "\n");
    extend_with_str(&mut req, "host:");
    extend_with_str(&mut req, host.as_str());
    extend_with_str(&mut req, "\nx-amz-content-sha256:");
    extend_with_str(&mut req, payload.as_str());
    extend_with_str(&mut req, "\nx-amz-date:");
    extend_with_str(&mut req, amz_date);
    extend_with_str(&mut req, "\n");
    extend_with_str(&mut req, "\n");
    extend_with_str(&mut req, "host;x-amz-content-sha256;x-amz-date");
    extend_with_str(&mut req, "\n");
    extend_with_str(&mut req, payload.as_str());
    let request = string_from_chars(req.as_slice());

    let mut scope = date_stamp.to_owned();
    scope.append("/auto/s3/aws4_request");

    let request_hash = sha256_hex(request.as_str().as_bytes());
    let mut sts = String::new();
    sts.append("AWS4-HMAC-SHA256\n");
    sts.append(amz_date);
    sts.append("\n");
    sts.append(scope.as_str());
    sts.append("\n");
    sts.append(request_hash.as_str());

    let key = signing_key(config.secret_access_key.as_str(), date_stamp)?;
    let signature = hmac_hex(key.as_slice(), sts.as_str().as_bytes())?;

    let mut authorization = String::new();
    authorization.append("AWS4-HMAC-SHA256 Credential=");
    authorization.append(config.access_key_id.as_str());
    authorization.append("/");
    authorization.append(scope.as_str());
    authorization.append(", SignedHeaders=");
    authorization.append("host;x-amz-content-sha256;x-amz-date");
    authorization.append(", Signature=");
    authorization.append(signature.as_str());
    proof {
        let spec = spec_signed_headers(
            *config,
            method@,
            canonical_uri@,
            canonical_query@,
            payload_hash@,
            amz_date@,
            date_stamp@,
        );
        assert(payload@ == effective_payload_hash(payload_hash@));
        assert(req@ =~= canonical_request(
            method@,
            canonical_uri@,
            canonical_query@,
            host@,
            payload@,
            amz_date@,
        ));
        assert(sts@ =~= string_to_sign(amz_date@, scope@, request@));
        assert(authorization@ =~= authorization_value(
            config.access_key_id@,
            scope@,
            signature@,
        ));
    }
    Ok(SignedHeaders { authorization, amz_date: amz_date.to_owned(), payload_hash: payload, host })
}

// ---------------------------------------------------------------------------
// Request time stamps
// ---------------------------------------------------------------------------

/// The `chrono` pattern of a SigV4 request time: `YYYYMMDDTHHMMSSZ`.
pub const AMZ_DATE_FORMAT: &'static str = "%Y%m%dT%H%M%SZ";

/// The `chrono` pattern of a SigV4 credential day: `YYYYMMDD`.
pub const DATE_STAMP_FORMAT: &'static str = "%Y%m%d";

/// The UTC time `secs` seconds after the Unix epoch, written with the
/// `chrono` pattern `pattern`.
pub uninterp spec fn utc_text(secs: int, pattern: Seq<char>) -> Seq<char>;

/// The last second of the year 9999, in seconds after the Unix epoch.
pub const LAST_SECOND_OF_9999: i64 = 253402300799;

/// `DateTime::<Utc>::from_timestamp(secs, 0)` from `chrono`, written with
/// `format(pattern)`. It is `None` exactly when `chrono` cannot represent the
/// moment. `chrono` builds the moment from the day number
/// `secs.div_euclid(86400)`, which must fit an `i32` and name a date within
/// its year range of about 262 thousand years either side of year 0, and
/// from the second of that day, which is always below 86400; so every moment
/// from the epoch to the end of the year 9999 is represented, and the claim
/// says so. Past that the exact bound is not stated. Only the two SigV4
/// patterns are admitted: the formatting of a malformed pattern panics.
#[verifier::external_body]
fn format_utc(secs: i64, pattern: &str) -> (r: Option<String>)
    requires
        pattern@ == AMZ_DATE_FORMAT@ || pattern@ == DATE_STAMP_FORMAT@,
    ensures
        0 <= secs <= LAST_SECOND_OF_9999 ==> r is Some,
        r matches Some(t) ==> t@ == utc_text(secs as int, pattern@),
{
    match chrono::DateTime::<chrono::Utc>::from_timestamp(secs, 0) {
        Some(t) => Some(t.format(pattern).to_string()),
        None => None,
    }
}

/// The SigV4 time stamps of the moment `when_secs` seconds after the Unix
/// epoch: the request time and the credential day, both in UTC; `None` when
/// the moment is outside what `chrono` represents, which never happens from
/// the epoch to the end of the year 9999.
pub fn sigv4_timestamps(when_secs: i64) -> (r: Option<(String, String)>)
    ensures
        0 <= when_secs <= LAST_SECOND_OF_9999 ==> r is Some,
        r matches Some(p) ==> p.0@ == utc_text(when_secs as int, AMZ_DATE_FORMAT@) && p.1@
            == utc_text(when_secs as int, DATE_STAMP_FORMAT@),
{
    let amz_date = format_utc(when_secs, AMZ_DATE_FORMAT)?;
    let date_stamp = format_utc(when_secs, DATE_STAMP_FORMAT)?;
    Some((amz_date, date_stamp))
}

// ---------------------------------------------------------------------------
// The client
// ---------------------------------------------------------------------------

#[verifier::external_type_specification]
#[verifier::external_body]
pub struct ExHttpClient(reqwest::blocking::Client);

#[verifier::external_type_specification]
#[verifier::external_body]
pub struct ExHttpError(reqwest::Error);

/// `reqwest::blocking::Client::builder().use_rustls_tls().build()`: an HTTP
/// client with the rustls TLS back end. Whether it can be built depends on
/// the machine; nothing is promised of the outcome. `reqwest` panics when a
/// blocking client is built inside an async runtime; this library never runs
/// one, and its callers must not call it from one either.
#[verifier::external_body]
fn build_http_client() -> (r: Result<reqwest::blocking::Client, reqwest::Error>) {
    reqwest::blocking::Client::builder().use_rustls_tls().build()
}

/// The text of an HTTP error (its `Display`).
#[verifier::external_body]
fn http_error_text(e: &reqwest::Error) -> String {
    e.to_string()
}

/// A client for one R2 bucket.
pub struct R2Client {
    config: R2Config,
    http: reqwest::blocking::Client,
}

/// The public URL of `key` under the base URL `base`: the base without its
/// trailing `/`, a `/`, then the key URI-encoded segment by segment; empty
/// when no base URL is configured.
pub open spec fn spec_public_url(base: Seq<char>, key: Seq<char>) -> Seq<char> {
    let b = strip_trailing(base, '/');
    if b.len() == 0 {
        Seq::empty()
    } else {
        b + seq!['/'] + key_path_encode(encode_utf8(key))
    }
}

/// The object key of a file name under the configured prefix: the prefix
/// without surrounding `/`, a `/`, then the name without leading `/`.
pub open spec fn spec_key_for_filename(prefix: Seq<char>, filename: Seq<char>) -> Seq<char> {
    let p = strip_trailing(strip_leading(prefix, '/'), '/');
    let f = strip_leading(filename, '/');
    if p.len() == 0 {
        f
    } else {
        p + seq!['/'] + f
    }
}

/// The URL of a request: `https://host` followed by the URI, and by `?` and
/// the query when there is one.
pub open spec fn request_url(host: Seq<char>, uri: Seq<char>, query: Seq<char>) -> Seq<char> {
    if query.len() == 0 {
        "https://"@ + host + uri
    } else {
        "https://"@ + host + uri + seq!['?'] + query
    }
}

/// The query of a bucket listing: `list-type=2` and the configured prefix.
pub open spec fn list_query(prefix: Seq<char>) -> Seq<char> {
    spec_canonical_query(seq![("list-type"@, "2"@), ("prefix"@, prefix)])
}

impl R2Client {
    /// The configuration of this client.
    pub closed spec fn spec_config(&self) -> R2Config {
        self.config
    }

    /// A client for the bucket of `config`, which must name the account,
    /// bucket and both keys.
    pub fn new(config: R2Config) -> (r: Result<R2Client, AppError>)
        ensures
            missing_credential(config) is Some ==> (r matches Err(AppError::Missing(m)) && m@
                == missing_credential(config)->0),
            missing_credential(config) is None ==> ((r matches Ok(c) && c.spec_config() == config)
                || r matches Err(AppError::Http(_))),
    {
        validate_config(&config)?;
        match build_http_client() {
            Ok(http) => Ok(R2Client { config, http }),
            Err(e) => Err(AppError::Http(http_error_text(&e))),
        }
    }

    /// The configuration of this client.
    pub fn config(&self) -> (c: &R2Config)
        ensures
            *c == self.spec_config(),
    {
        &self.config
    }

    /// The HTTP client of this client.
    pub closed spec fn spec_http(&self) -> reqwest::blocking::Client {
        self.http
    }

    /// The HTTP client that sends this client's requests: the one it holds.
    pub fn http(&self) -> (h: &reqwest::blocking::Client)
        ensures
            *h == self.spec_http(),
    {
        &self.http
    }

    /// The public URL of `key`, or an empty string without a public base URL.
    pub fn public_url(&self, key: &str) -> (r: String)
        ensures
            r@ == spec_public_url(self.spec_config().public_base_url@, key@),
    {
        let base_chars = chars_of(self.config.public_base_url.as_str());
        let base = strip_trailing_chars(base_chars.as_slice(), '/');
        if base.len() == 0 {
            return String::new();
        }
        let mut out = base;
        out.push('/');
        encode_bytes_into(&mut out, key.as_bytes(), true);
        string_from_chars(out.as_slice())
    }

    /// The object key for `filename` under the configured prefix.
    pub fn key_for_filename(&self, filename: &str) -> (r: String)
        ensures
            r@ == spec_key_for_filename(self.spec_config().prefix@, filename@),
    {
        let prefix_chars = chars_of(self.config.prefix.as_str());
        let lead = strip_leading_chars(prefix_chars.as_slice(), '/');
        let prefix = strip_trailing_chars(lead.as_slice(), '/');
        let name_chars = chars_of(filename);
        let name = strip_leading_chars(name_chars.as_slice(), '/');
        if prefix.len() == 0 {
            string_from_chars(name.as_slice())
        } else {
            let mut out = prefix;
            out.push('/');
            extend_chars(&mut out, name.as_slice());
            string_from_chars(out.as_slice())
        }
    }

    /// The URL and signed headers of a listing of the bucket under the
    /// configured prefix, at the time `amz_date` of the day `date_stamp`.
    pub fn list_objects_request(&self, amz_date: &str, date_stamp: &str) -> (r: Result<
        (String, SignedHeaders),
        AppError,
    >)
        ensures
            r is Err <==> missing_credential(self.spec_config()) is Some,
            r matches Err(e) ==> e matches AppError::Missing(m) && m@ == missing_credential(
                self.spec_config(),
            )->0,
            r matches Ok(p) ==> {
                let c = self.spec_config();
                let uri = spec_canonical_object_uri(c.bucket@, Seq::empty());
                let query = list_query(c.prefix@);
                let expected = spec_signed_headers(
                    c,
                    "GET"@,
                    uri,
                    query,
                    Seq::empty(),
                    amz_date@,
                    date_stamp@,
                );
                &&& headers_match(p.1, expected)
                &&& p.0@ == request_url(expected.3, uri, query)
            },
    {
        proof {
            reveal_strlit("");
        }
        let uri = canonical_object_uri(self.config.bucket.as_str(), "");
        let params: [(&str, &str); 2] = [("list-type", "2"), ("prefix", self.config.prefix.as_str())];
        let query = canonical_query(params.as_slice());
        assert(param_views(params@) =~= seq![("list-type"@, "2"@), ("prefix"@, self.config.prefix@)]);
        let signed = build_authorization(
            &self.config,
            "GET",
            uri.as_str(),
            query.as_str(),
            "",
            amz_date,
            date_stamp,
        )?;
        let url = request_url_string(signed.host.as_str(), uri.as_str(), query.as_str());
        Ok((url, signed))
    }

    /// Fails unless a public base URL is configured, without which uploaded
    /// files would have no usable URL.
    pub fn require_public_base_url(&self) -> (r: Result<(), AppError>)
        ensures
            r is Ok <==> !is_blank(self.spec_config().public_base_url@),
            r matches Err(e) ==> e matches AppError::Missing(m) && m@
                == "R2 public base URL (needed to write usable URLs to data.json)"@,
    {
        if is_blank_str(self.config.public_base_url.as_str()) {
            Err(
                AppError::Missing(
                    "R2 public base URL (needed to write usable URLs to data.json)".to_owned(),
                ),
            )
        } else {
            Ok(())
        }
    }

    /// The URL and signed headers of an upload of a body whose SHA-256 is
    /// `payload_hash` to `key`.
    pub fn upload_request(
        &self,
        key: &str,
        payload_hash: &str,
        amz_date: &str,
        date_stamp: &str,
    ) -> (r: Result<(String, SignedHeaders), AppError>)
        ensures
            r is Err <==> missing_credential(self.spec_config()) is Some,
            r matches Err(e) ==> e matches AppError::Missing(m) && m@ == missing_credential(
                self.spec_config(),
            )->0,
            r matches Ok(p) ==> {
                let c = self.spec_config();
                let uri = spec_canonical_object_uri(c.bucket@, key@);
                let expected = spec_signed_headers(
                    c,
                    "PUT"@,
                    uri,
                    Seq::empty(),
                    payload_hash@,
                    amz_date@,
                    date_stamp@,
                );
                &&& headers_match(p.1, expected)
                &&& p.0@ == request_url(expected.3, uri, Seq::empty())
            },
    {
        proof {
            reveal_strlit("");
        }
        let uri = canonical_object_uri(self.config.bucket.as_str(), key);
        let signed = build_authorization(
            &self.config,
            "PUT",
            uri.as_str(),
            "",
            payload_hash,
            amz_date,
            date_stamp,
        )?;
        let url = request_url_string(signed.host.as_str(), uri.as_str(), "");
        Ok((url, signed))
    }

    /// The listed object `key`, with its public URL.
    pub fn listed_object(&self, key: String, size: u64, last_modified: String) -> (o: R2Object)
        ensures
            o.key == key,
            o.size == size,
            o.last_modified == last_modified,
            o.public_url@ == spec_public_url(self.spec_config().public_base_url@, key@),
    {
        let public_url = self.public_url(key.as_str());
        R2Object { key, size, last_modified, public_url }
    }
}

fn request_url_string(host: &str, uri: &str, query: &str) -> (r: String)
    ensures
        r@ == request_url(host@, uri@, query@),
{
    let mut out = String::new();
    out.append("https://");
    out.append(host);
    out.append(uri);
    if !query.is_empty() {
        let mut q: Vec<char> = Vec::new();
        q.push('?');
        extend_with_str(&mut q, query);
        let qs = string_from_chars(q.as_slice());
        out.append(qs.as_str());
    }
    out
}

// ---------------------------------------------------------------------------
// Laws
// ---------------------------------------------------------------------------

/// The value of a hexadecimal digit (either case); 0 for other characters.
pub open spec fn hex_value(c: char) -> int {
    let u = c as u32;
    if 48 <= u <= 57 {
        u - 48
    } else if 65 <= u <= 70 {
        u - 55
    } else if 97 <= u <= 102 {
        u - 87
    } else {
        0
    }
}

/// Percent-decoding: `%XY` stands for the byte `0xXY`, any other character
/// for its own code.
pub open spec fn percent_decode(s: Seq<char>) -> Seq<u8>
    decreases s.len(),
{
    if s.len() == 0 {
        Seq::empty()
    } else if s[0] == '%' && s.len() >= 3 {
        seq![(hex_value(s[1]) * 16 + hex_value(s[2])) as u8] + percent_decode(s.skip(3))
    } else {
        seq![s[0] as u8] + percent_decode(s.drop_first())
    }
}

/// URI encoding loses nothing: percent-decoding the encoding of any byte
/// string gives the bytes back.
pub proof fn law_aws_encode_round_trip(bytes: Seq<u8>)
    ensures
        percent_decode(aws_encode_bytes(bytes)) == bytes,
    decreases bytes.len(),
{
    let f = |b: u8| encode_byte(b);
    if bytes.len() > 0 {
        let b = bytes[0];
        let rest = bytes.drop_first();
        assert(bytes.map_values(f).drop_first() =~= rest.map_values(f));
        assert(aws_encode_bytes(bytes) == encode_byte(b) + aws_encode_bytes(rest));
        law_aws_encode_round_trip(rest);
        let e = encode_byte(b);
        let all = e + aws_encode_bytes(rest);
        if is_unreserved(b) {
            assert(all[0] == b as char);
            assert(all.drop_first() =~= aws_encode_bytes(rest));
            assert((b as char) as u8 == b);
        } else {
            assert(all.skip(3) =~= aws_encode_bytes(rest));
            assert(all[0] == '%');
            let hi = (b / 16) as nat;
            let lo = (b % 16) as nat;
            assert(hex_value(hex_upper(hi)) == hi);
            assert(hex_value(hex_upper(lo)) == lo);
            assert((hi * 16 + lo) as u8 == b);
        }
        assert(percent_decode(all) =~= bytes);
    } else {
        assert(bytes.map_values(f) =~= Seq::<Seq<char>>::empty());
    }
}

/// Whether every byte of `bytes` is one that URI encoding leaves alone.
pub open spec fn all_unreserved(bytes: Seq<u8>) -> bool {
    forall|i: int| 0 <= i < bytes.len() ==> is_unreserved(#[trigger] bytes[i])
}

/// The characters that stand for the bytes `bytes`, one each.
pub open spec fn byte_chars(bytes: Seq<u8>) -> Seq<char> {
    bytes.map_values(|b: u8| b as char)
}

proof fn lemma_aws_encode_bytes_len(bytes: Seq<u8>)
    ensures
        aws_encode_bytes(bytes).len() >= bytes.len(),
        aws_encode_bytes(bytes).len() == bytes.len() <==> all_unreserved(bytes),
        all_unreserved(bytes) ==> aws_encode_bytes(bytes) == byte_chars(bytes),
    decreases bytes.len(),
{
    let f = |b: u8| encode_byte(b);
    if bytes.len() > 0 {
        let b = bytes[0];
        let rest = bytes.drop_first();
        assert(bytes.map_values(f).drop_first() =~= rest.map_values(f));
        assert(aws_encode_bytes(bytes) == encode_byte(b) + aws_encode_bytes(rest));
        lemma_aws_encode_bytes_len(rest);
        assert(all_unreserved(bytes) <==> is_unreserved(b) && all_unreserved(rest)) by {
            if all_unreserved(bytes) {
                assert forall|i: int| 0 <= i < rest.len() implies is_unreserved(#[trigger] rest[i]) by {
                    assert(rest[i] == bytes[i + 1]);
                }
                assert(is_unreserved(bytes[0]));
            }
            if is_unreserved(b) && all_unreserved(rest) {
                assert forall|i: int| 0 <= i < bytes.len() implies is_unreserved(#[trigger] bytes[i]) by {
                    if i > 0 {
                        assert(bytes[i] == rest[i - 1]);
                    }
                }
            }
        }
        if all_unreserved(bytes) {
            assert(byte_chars(bytes) =~= seq![b as char] + byte_chars(rest));
        }
    } else {
        assert(bytes.map_values(f) =~= Seq::<Seq<char>>::empty());
        assert(byte_chars(bytes) =~= Seq::<char>::empty());
    }
}

proof fn lemma_leading_bytes_high(v: u32)
    ensures
        leading_byte_width_2(v) >= 0xC0,
        leading_byte_width_3(v) >= 0xC0,
        leading_byte_width_4(v) >= 0xC0,
        v <= 0x7F ==> leading_byte_width_1(v) == v,
{
    assert((0xC0u8 | ((v >> 6u32) & 0x1Fu32) as u8) >= 0xC0u8) by (bit_vector);
    assert((0xE0u8 | ((v >> 12u32) & 0x0Fu32) as u8) >= 0xC0u8) by (bit_vector);
    assert((0xF0u8 | ((v >> 18u32) & 0x7u32) as u8) >= 0xC0u8) by (bit_vector);
    assert(v <= 0x7Fu32 ==> ((v & 0x7Fu32) as u8) as u32 == v) by (bit_vector);
}

proof fn lemma_utf8_unreserved(s: Seq<char>)
    ensures
        encode_utf8(s).len() >= s.len(),
        all_unreserved(encode_utf8(s)) ==> byte_chars(encode_utf8(s)) == s,
    decreases s.len(),
{
    if s.len() > 0 {
        let c = s[0];
        let u = c as u32;
        let rest = s.drop_first();
        let head = encode_scalar(u);
        let e = encode_utf8(s);
        assert(e == head + encode_utf8(rest));
        lemma_utf8_unreserved(rest);
        lemma_leading_bytes_high(u);
        assert(head.len() >= 1);
        if all_unreserved(e) {
            assert(is_unreserved(e[0]));
            assert(e[0] == head[0]);
            assert(has_width_1_encoding(u));
            assert(head =~= seq![leading_byte_width_1(u)]);
            let b = leading_byte_width_1(u);
            assert(b as u32 == u);
            vstd::utf8::char_u32_cast(c, u);
            assert((b as char) == c);
            assert forall|i: int| 0 <= i < encode_utf8(rest).len() implies is_unreserved(
                #[trigger] encode_utf8(rest)[i],
            ) by {
                assert(encode_utf8(rest)[i] == e[i + 1]);
            }
            assert(byte_chars(e) =~= seq![b as char] + byte_chars(encode_utf8(rest)));
            assert(byte_chars(e) =~= s);
        }
    }
}

/// URI encoding leaves a string unchanged exactly when every byte of its
/// UTF-8 encoding is unreserved (ASCII letters, digits, `-`, `_`, `.`, `~`).
pub proof fn law_aws_encode_unchanged_iff_unreserved(value: Seq<char>)
    ensures
        spec_aws_encode(value) == value <==> all_unreserved(encode_utf8(value)),
{
    let bytes = encode_utf8(value);
    lemma_aws_encode_bytes_len(bytes);
    lemma_utf8_unreserved(value);
    if spec_aws_encode(value) == value {
        assert(aws_encode_bytes(bytes).len() == bytes.len());
    }
    if all_unreserved(bytes) {
        assert(byte_chars(bytes).len() == bytes.len());
    }
}

/// Two strings with the same URI encoding are equal.
pub proof fn law_aws_encode_injective(a: Seq<char>, b: Seq<char>)
    requires
        spec_aws_encode(a) == spec_aws_encode(b),
    ensures
        a == b,
{
    law_aws_encode_round_trip(encode_utf8(a));
    law_aws_encode_round_trip(encode_utf8(b));
    vstd::utf8::encode_utf8_decode_utf8(a);
    vstd::utf8::encode_utf8_decode_utf8(b);
}

proof fn lemma_map_values_multiset<A, B>(p: Seq<A>, q: Seq<A>, f: spec_fn(A) -> B)
    requires
        p.to_multiset() == q.to_multiset(),
    ensures
        p.map_values(f).to_multiset() == q.map_values(f).to_multiset(),
    decreases p.len(),
{
    broadcast use vstd::multiset::group_multiset_axioms;
    broadcast use vstd::seq_lib::group_to_multiset_ensures;

    if p.len() == 0 {
        assert(q.to_multiset().len() == 0);
        assert(q.len() == 0);
        assert(p.map_values(f) =~= q.map_values(f));
    } else {
        let x = p[0];
        assert(p.to_multiset().count(x) > 0) by {
            assert(p.contains(x));
        }
        assert(q.contains(x));
        let i = choose|i: int| 0 <= i < q.len() && q[i] == x;
        assert(p.drop_first() =~= p.remove(0));
        assert(p.drop_first().to_multiset() =~= p.to_multiset().remove(x));
        assert(q.remove(i).to_multiset() =~= q.to_multiset().remove(x));
        lemma_map_values_multiset(p.drop_first(), q.remove(i), f);
        let mp = p.map_values(f);
        let mq = q.map_values(f);
        assert(mp.remove(0) =~= p.drop_first().map_values(f));
        assert(mq.remove(i) =~= q.remove(i).map_values(f));
        assert(mp.remove(0).to_multiset() =~= mp.to_multiset().remove(f(x)));
        assert(mq.remove(i).to_multiset() =~= mq.to_multiset().remove(f(x)));
        assert(mp.to_multiset().count(f(x)) > 0) by {
            assert(mp.contains(f(x))) by {
                assert(mp[0] == f(x));
            }
        }
        assert(mq.to_multiset().count(f(x)) > 0) by {
            assert(mq.contains(f(x))) by {
                assert(mq[i] == f(x));
            }
        }
        assert(mp.to_multiset() =~= mp.to_multiset().remove(f(x)).insert(f(x)));
        assert(mq.to_multiset() =~= mq.to_multiset().remove(f(x)).insert(f(x)));
    }
}

/// The canonical query does not depend on the order of the parameters: any
/// rearrangement of the same parameters gives the same query string.
pub proof fn law_canonical_query_order_independent(p: Seq<QueryPair>, q: Seq<QueryPair>)
    requires
        p.to_multiset() == q.to_multiset(),
    ensures
        spec_canonical_query(p) == spec_canonical_query(q),
{
    lemma_pair_order_total();
    let f = |x: QueryPair| (spec_aws_encode(x.0), spec_aws_encode(x.1));
    assert(encoded_pairs(p).to_multiset() == encoded_pairs(q).to_multiset()) by {
        lemma_map_values_multiset(p, q, f);
    }
    encoded_pairs(p).lemma_sort_by_ensures(pair_order());
    encoded_pairs(q).lemma_sort_by_ensures(pair_order());
    lemma_sorted_unique(
        encoded_pairs(p).sort_by(pair_order()),
        encoded_pairs(q).sort_by(pair_order()),
        pair_order(),
    );
}

/// The canonical query lists its parameters by name: it joins the encoded
/// parameters, each once, with the names in increasing order; the value
/// only breaks a tie between equal names.
pub proof fn law_canonical_query_sorted_by_name(params: Seq<QueryPair>)
    ensures
        exists|s: Seq<QueryPair>|
            {
                &&& s.to_multiset() == encoded_pairs(params).to_multiset()
                &&& #[trigger] query_string(s) == spec_canonical_query(params)
                &&& forall|i: int, j: int|
                    #![trigger s[i], s[j]]
                    0 <= i < j < s.len() ==> seq_lt(s[i].0, s[j].0) || s[i].0 == s[j].0
                &&& forall|i: int, j: int|
                    #![trigger s[i], s[j]]
                    0 <= i < j < s.len() && s[i].0 == s[j].0 ==> !seq_lt(s[j].1, s[i].1)
            },
{
    lemma_pair_order_total();
    let e = encoded_pairs(params);
    e.lemma_sort_by_ensures(pair_order());
    let s = e.sort_by(pair_order());
    assert forall|i: int, j: int| 0 <= i < j < s.len() implies seq_lt(s[i].0, s[j].0) || s[i].0
        == s[j].0 by {
        assert(pair_order()(s[i], s[j]));
    }
    assert forall|i: int, j: int| 0 <= i < j < s.len() && s[i].0 == s[j].0 implies !seq_lt(
        s[j].1,
        s[i].1,
    ) by {
        assert(pair_order()(s[i], s[j]));
        lemma_seq_lt_asymmetric(s[i].1, s[j].1);
        lemma_seq_lt_irreflexive(s[i].0);
        lemma_seq_lt_irreflexive(s[i].1);
    }
    assert(query_string(s) == spec_canonical_query(params));
}

/// The signature of a signed request covers the request time that is sent:
/// whatever `build_authorization` returns as `h`, its `Authorization` header
/// ends in the HMAC, under the signing key of the day, of the string
/// `AWS4-HMAC-SHA256`, the `x-amz-date` value of `h`, the credential scope
/// and the SHA-256 of the canonical request, one per line; and the canonical
/// request names `h`'s host, payload hash and `x-amz-date`.
pub proof fn law_signature_covers_request_time(
    config: R2Config,
    method: Seq<char>,
    uri: Seq<char>,
    query: Seq<char>,
    payload_hash: Seq<char>,
    amz_date: Seq<char>,
    date_stamp: Seq<char>,
    h: SignedHeaders,
)
    requires
        headers_match(
            h,
            spec_signed_headers(config, method, uri, query, payload_hash, amz_date, date_stamp),
        ),
    ensures
        h.amz_date@ == amz_date,
        ({
            let scope = date_stamp + "/auto/s3/aws4_request"@;
            let request = method + "\n"@ + uri + "\n"@ + query + "\nhost:"@ + h.host@
                + "\nx-amz-content-sha256:"@ + h.payload_hash@ + "\nx-amz-date:"@ + h.amz_date@
                + "\n\nhost;x-amz-content-sha256;x-amz-date\n"@ + h.payload_hash@;
            let signed = "AWS4-HMAC-SHA256\n"@ + h.amz_date@ + "\n"@ + scope + "\n"@ + hex_lower(
                sha256(encode_utf8(request)),
            );
            h.authorization@ == "AWS4-HMAC-SHA256 Credential="@ + config.access_key_id@ + "/"@
                + scope + ", SignedHeaders=host;x-amz-content-sha256;x-amz-date, Signature="@
                + hex_lower(
                hmac_sha256(spec_signing_key(config.secret_access_key@, date_stamp), encode_utf8(signed)),
            )
        }),
{
    let scope = date_stamp + "/auto/s3/aws4_request"@;
    let request = method + "\n"@ + uri + "\n"@ + query + "\nhost:"@ + h.host@
        + "\nx-amz-content-sha256:"@ + h.payload_hash@ + "\nx-amz-date:"@ + h.amz_date@
        + "\n\nhost;x-amz-content-sha256;x-amz-date\n"@ + h.payload_hash@;
    reveal_strlit("\n");
    reveal_strlit("\nhost:");
    reveal_strlit("host:");
    reveal_strlit("\n\nhost;x-amz-content-sha256;x-amz-date\n");
    reveal_strlit("host;x-amz-content-sha256;x-amz-date");
    reveal_strlit(", SignedHeaders=host;x-amz-content-sha256;x-amz-date, Signature=");
    reveal_strlit(", SignedHeaders=");
    reveal_strlit(", Signature=");
    assert(request =~= canonical_request(method, uri, query, h.host@, h.payload_hash@, h.amz_date@));
    assert(scope == credential_scope(date_stamp));
    let signed = "AWS4-HMAC-SHA256\n"@ + h.amz_date@ + "\n"@ + scope + "\n"@ + hex_lower(
        sha256(encode_utf8(request)),
    );
    assert(signed == string_to_sign(amz_date, scope, request));
    let sig = hex_lower(
        hmac_sha256(spec_signing_key(config.secret_access_key@, date_stamp), encode_utf8(signed)),
    );
    assert(h.authorization@ =~= "AWS4-HMAC-SHA256 Credential="@ + config.access_key_id@ + "/"@
        + scope + ", SignedHeaders=host;x-amz-content-sha256;x-amz-date, Signature="@ + sig);
}

/// Percent-decoding an encoded object key gives the key's bytes back.
proof fn lemma_key_path_round_trip(bytes: Seq<u8>)
    ensures
        percent_decode(key_path_encode(bytes)) == bytes,
    decreases bytes.len(),
{
    let f = |b: u8| encode_key_byte(b);
    if bytes.len() > 0 {
        let b = bytes[0];
        let rest = bytes.drop_first();
        assert(bytes.map_values(f).drop_first() =~= rest.map_values(f));
        assert(key_path_encode(bytes) == encode_key_byte(b) + key_path_encode(rest));
        lemma_key_path_round_trip(rest);
        let e = encode_key_byte(b);
        let all = e + key_path_encode(rest);
        if b == 47 || is_unreserved(b) {
            assert(all[0] == b as char);
            assert(all.drop_first() =~= key_path_encode(rest));
            assert((b as char) as u8 == b);
        } else {
            assert(all.skip(3) =~= key_path_encode(rest));
            assert(all[0] == '%');
            let hi = (b / 16) as nat;
            let lo = (b % 16) as nat;
            assert(hex_value(hex_upper(hi)) == hi);
            assert(hex_value(hex_upper(lo)) == lo);
            assert((hi * 16 + lo) as u8 == b);
        }
        assert(percent_decode(all) =~= bytes);
    } else {
        assert(bytes.map_values(f) =~= Seq::<Seq<char>>::empty());
    }
}

proof fn lemma_strip_trailing_last(s: Seq<char>)
    ensures
        strip_trailing(s, '/').len() > 0 ==> strip_trailing(s, '/').last() != '/',
    decreases s.len(),
{
    if s.len() > 0 && s.last() == '/' {
        lemma_strip_trailing_last(s.drop_last());
    }
}

/// The public URL of a key is the configured base without its trailing `/`,
/// one `/`, then text that percent-decodes to the key's UTF-8 bytes.
pub proof fn law_public_url_joins_base_and_key(base: Seq<char>, key: Seq<char>)
    requires
        strip_trailing(base, '/').len() > 0,
    ensures
        ({
            let b = strip_trailing(base, '/');
            let u = spec_public_url(base, key);
            &&& u.len() > b.len()
            &&& u.take(b.len() as int) == b
            &&& u[b.len() as int] == '/'
            &&& b.last() != '/'
            &&& percent_decode(u.skip(b.len() + 1int)) == encode_utf8(key)
        }),
{
    let b = strip_trailing(base, '/');
    let u = spec_public_url(base, key);
    lemma_strip_trailing_last(base);
    lemma_key_path_round_trip(encode_utf8(key));
    assert(u.take(b.len() as int) =~= b);
    assert(u.skip(b.len() + 1int) =~= key_path_encode(encode_utf8(key)));
}

/// A trailing `/` on the configured base URL makes no difference to the
/// public URL.
pub proof fn law_public_url_ignores_trailing_slash(base: Seq<char>, key: Seq<char>)
    ensures
        spec_public_url(base.push('/'), key) == spec_public_url(base, key),
{
    assert(base.push('/').drop_last() =~= base);
}

/// Two parameters with different encoded names are joined as
/// `name=value&name=value`, the smaller name first, in whichever order they
/// are given.
pub proof fn law_canonical_query_of_two(n1: Seq<char>, v1: Seq<char>, n2: Seq<char>, v2: Seq<char>)
    requires
        seq_lt(spec_aws_encode(n1), spec_aws_encode(n2)),
    ensures
        ({
            let expected = spec_aws_encode(n1) + seq!['='] + spec_aws_encode(v1) + seq!['&']
                + spec_aws_encode(n2) + seq!['='] + spec_aws_encode(v2);
            &&& spec_canonical_query(seq![(n1, v1), (n2, v2)]) == expected
            &&& spec_canonical_query(seq![(n2, v2), (n1, v1)]) == expected
        }),
{
    lemma_pair_order_total();
    let e1 = (spec_aws_encode(n1), spec_aws_encode(v1));
    let e2 = (spec_aws_encode(n2), spec_aws_encode(v2));
    let ps = seq![(n1, v1), (n2, v2)];
    let e = encoded_pairs(ps);
    assert(e =~= seq![e1, e2]);
    let t = seq![e1, e2];
    assert(sorted_by(t, pair_order())) by {
        assert(pair_order()(t[0], t[1]));
    }
    e.lemma_sort_by_ensures(pair_order());
    lemma_sorted_unique(t, e.sort_by(pair_order()), pair_order());
    assert(t.drop_last() =~= seq![e1]);
    assert(query_string(t.drop_last()) == query_item(e1)) by {
        assert(t.drop_last().len() == 1);
        assert(t.drop_last()[0] == e1);
    }
    assert(t.last() == e2);
    assert(query_string(t) == query_string(t.drop_last()) + seq!['&'] + query_item(t.last()));
    assert(query_string(t) =~= query_item(e1) + seq!['&'] + query_item(e2));
    let qs = seq![(n2, v2), (n1, v1)];
    assert(ps.to_multiset() =~= qs.to_multiset()) by {
        broadcast use vstd::seq_lib::group_to_multiset_ensures;
        assert(ps =~= seq![(n1, v1)].push((n2, v2)));
        assert(qs =~= seq![(n2, v2)].push((n1, v1)));
        assert(seq![(n1, v1)] =~= Seq::<QueryPair>::empty().push((n1, v1)));
        assert(seq![(n2, v2)] =~= Seq::<QueryPair>::empty().push((n2, v2)));
    }
    law_canonical_query_order_independent(ps, qs);
}

/// Without a public base URL (empty, or only `/`), no public URL is made.
pub proof fn law_public_url_empty_without_base(base: Seq<char>, key: Seq<char>)
    requires
        strip_trailing(base, '/').len() == 0,
    ensures
        spec_public_url(base, key) == Seq::<char>::empty(),
{
}

} // verus!
