//! Build output: formats and the digest of a build.
use vstd::prelude::*;
use vstd::utf8::encode_utf8;
use vstd::string::StringSliceAdditionalSpecFns;
use crate::strmap::StrMap;
use crate::layer::strs_view;

verus! {

/// How a build is output.
#[derive(Debug, Clone, Copy, PartialEq, Eq)]
pub enum OutputFormat {
    Text,
    Json,
    Clipboard,
}

impl Default for OutputFormat {
    fn default() -> (r: Self)
        ensures
            r == OutputFormat::Text,
    {
        OutputFormat::Text
    }
}

/// The metadata of a build.
#[derive(Debug)]
pub struct BuildMeta {
    pub layers: Vec<String>,
    pub digest: String,
    pub warnings: Vec<String>,
}

/// A build, as output in JSON.
#[derive(Debug)]
pub struct BuildOutput {
    pub prompt: String,
    pub params: StrMap,
    pub meta: BuildMeta,
}

/// What `Sha256::digest` returns for the bytes (32 bytes).
pub uninterp spec fn sha256_of(data: Seq<u8>) -> Seq<u8>;

/// `sha2::Sha256::digest`: the SHA-256 hash of the bytes, a function of them alone, 32 bytes long.
#[verifier::external_body]
pub(crate) fn sha256(data: &[u8]) -> (r: Vec<u8>)
    ensures
        r@ == sha256_of(data@),
        r@.len() == 32,
{
    <sha2::Sha256 as sha2::Digest>::digest(data).to_vec()
}

/// A lower-case hexadecimal digit.
pub open spec fn hex_digit(n: u8) -> char {
    if n < 10 {
        (('0' as u8) + n) as char
    } else {
        (('a' as u8) + n - 10) as char
    }
}

/// Lower-case hexadecimal rendering of bytes, two digits per byte, high nibble first.
pub open spec fn hex_lower(bytes: Seq<u8>) -> Seq<char>
    decreases bytes.len(),
{
    if bytes.len() == 0 {
        seq![]
    } else {
        hex_lower(bytes.drop_last()) + seq![hex_digit(bytes.last() / 16), hex_digit(bytes.last() % 16)]
    }
}

/// `hex::encode`: lower-case hexadecimal, two digits per byte, high nibble first.
#[verifier::external_body]
pub(crate) fn hex_encode(bytes: &[u8]) -> (r: String)
    ensures
        r@ == hex_lower(bytes@),
{
    hex::encode(bytes)
}

/// The bytes hashed for a digest: the text, then for each layer a zero byte and its name.
pub open spec fn digest_input(text: Seq<char>, layers: Seq<Seq<char>>) -> Seq<u8>
    decreases layers.len(),
{
    if layers.len() == 0 {
        encode_utf8(text)
    } else {
        digest_input(text, layers.drop_last()) + seq![0u8] + encode_utf8(layers.last())
    }
}

/// The digest of a build: the first 8 bytes of the SHA-256 of `digest_input`, in hex.
pub open spec fn spec_digest(text: Seq<char>, layers: Seq<Seq<char>>) -> Seq<char> {
    hex_lower(sha256_of(digest_input(text, layers)).take(8))
}

fn push_bytes(v: &mut Vec<u8>, s: &str)
    ensures
        final(v)@ == old(v)@ + encode_utf8(s@),
{
    let b = s.as_bytes();
    let mut i: usize = 0;
    while i < b.len()
        invariant
            i <= b@.len(),
            b@ == s.spec_bytes(),
            v@ == old(v)@ + b@.take(i as int),
        decreases b.len() - i,
    {
        v.push(b[i]);
        i = i + 1;
        assert(v@ =~= old(v)@ + b@.take(i as int));
    }
    assert(b@.take(i as int) =~= b@);
}

/// Computes a short digest over prompt text and layer names, so that two builds with
/// different layer sets (but identical rendered text) produce different digests.
pub fn compute_digest(text: &str, layers: &[String]) -> (r: String)
    ensures
        r@ == spec_digest(text@, strs_view(layers@)),
{
    let mut data: Vec<u8> = Vec::new();
    push_bytes(&mut data, text);
    let ghost lv = strs_view(layers@);
    let mut i: usize = 0;
    assert(data@ =~= digest_input(text@, lv.take(0)));
    while i < layers.len()
        invariant
            i <= layers.len(),
            lv == strs_view(layers@),
            data@ == digest_input(text@, lv.take(i as int)),
        decreases layers.len() - i,
    {
        proof {
            assert(lv.take(i + 1).drop_last() =~= lv.take(i as int));
            assert(lv.take(i + 1).last() == layers@[i as int]@);
        }
        data.push(0u8);
        push_bytes(&mut data, layers[i].as_str());
        i = i + 1;
    }
    assert(lv.take(layers.len() as int) =~= lv);
    let hash = sha256(data.as_slice());
    let mut first: Vec<u8> = Vec::new();
    let mut k: usize = 0;
    while k < 8
        invariant
            k <= 8,
            hash@.len() == 32,
            first@ == hash@.take(k as int),
        decreases 8 - k,
    {
        first.push(hash[k]);
        k = k + 1;
        assert(first@ =~= hash@.take(k as int));
    }
    hex_encode(first.as_slice())
}

proof fn lemma_hex_len(bytes: Seq<u8>)
    ensures
        hex_lower(bytes).len() == 2 * bytes.len(),
    decreases bytes.len(),
{
    if bytes.len() > 0 {
        lemma_hex_len(bytes.drop_last());
    }
}

/// A digest is 16 characters: 8 bytes in hexadecimal.
pub proof fn law_digest_is_16_hex_chars(text: Seq<char>, layers: Seq<Seq<char>>)
    requires
        sha256_of(digest_input(text, layers)).len() == 32,
    ensures
        spec_digest(text, layers).len() == 16,
{
    lemma_hex_len(sha256_of(digest_input(text, layers)).take(8));
}

/// Assembles the JSON build output: the prompt, the params, and the metadata with the
/// digest over the prompt and the layer names.
pub fn build_output(text: &str, params: &StrMap, layers: &Vec<String>, warnings: &Vec<String>) -> (r: BuildOutput)
    ensures
        r.prompt@ == text@,
        r.params@ == params@,
        r.meta.layers.deep_view() == layers.deep_view(),
        r.meta.digest@ == spec_digest(text@, strs_view(layers@)),
        r.meta.warnings.deep_view() == warnings.deep_view(),
{
    let digest = compute_digest(text, layers.as_slice());
    let mut ls: Vec<String> = Vec::new();
    let mut i: usize = 0;
    while i < layers.len()
        invariant
            i <= layers.len(),
            ls.deep_view() == layers.deep_view().take(i as int),
        decreases layers.len() - i,
    {
        let ghost before = ls.deep_view();
        ls.push(layers[i].clone());
        assert(ls.deep_view() =~= before.push(layers@[i as int]@));
        i = i + 1;
        assert(ls.deep_view() =~= layers.deep_view().take(i as int));
    }
    assert(layers.deep_view().take(i as int) =~= layers.deep_view());
    let mut ws: Vec<String> = Vec::new();
    let mut j: usize = 0;
    while j < warnings.len()
        invariant
            j <= warnings.len(),
            ws.deep_view() == warnings.deep_view().take(j as int),
        decreases warnings.len() - j,
    {
        let ghost before = ws.deep_view();
        ws.push(warnings[j].clone());
        assert(ws.deep_view() =~= before.push(warnings@[j as int]@));
        j = j + 1;
        assert(ws.deep_view() =~= warnings.deep_view().take(j as int));
    }
    assert(warnings.deep_view().take(j as int) =~= warnings.deep_view());
    BuildOutput {
        prompt: crate::text::owned(text),
        params: params.clone(),
        meta: BuildMeta { layers: ls, digest, warnings: ws },
    }
}

} // verus!
