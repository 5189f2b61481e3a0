//! Digests of raw bytes, and the two hashes that make up a cache key.
use vstd::prelude::*;
use vstd::utf8::encode_utf8;

verus! {

/// The lowercase hexadecimal form of the BLAKE3 digest of `data`.
pub uninterp spec fn blake3_hex(data: Seq<u8>) -> Seq<char>;

/// Relies on `blake3::hash` and `blake3::Hash::to_hex`: the digest depends on
/// the input bytes alone, and its hex form has two lowercase digits per byte of
/// the 32-byte output.
#[verifier::external_body]
fn blake3_hex_digest(data: &[u8]) -> (r: String)
    ensures
        r@ == blake3_hex(data@),
        r@.len() == 64,
{
    blake3::hash(data).to_hex().to_string()
}

/// The content hash stored for an entry without readable content.
pub open spec fn no_content_hash() -> Seq<char> {
    seq!['n', 'o', '_', 'c', 'o', 'n', 't', 'e', 'n', 't', '_', 'h', 'a', 's', 'h']
}

/// The bytes that the semantic hash is taken over: schema version, relative
/// path, repository reference and content, in this order.
pub open spec fn semantic_input(
    schema_version: Seq<char>,
    relative_path: Seq<char>,
    repo_ref: Seq<char>,
    content: Seq<char>,
) -> Seq<u8> {
    encode_utf8(schema_version) + encode_utf8(relative_path) + encode_utf8(repo_ref)
        + encode_utf8(content)
}

/// The semantic hash of an entry: an entry without content hashes as if empty.
pub open spec fn semantic_hash_of(
    schema_version: Seq<char>,
    relative_path: Seq<char>,
    repo_ref: Seq<char>,
    content: Option<Seq<char>>,
) -> Seq<char> {
    let body = match content {
        Some(c) => c,
        None => Seq::empty(),
    };
    blake3_hex(semantic_input(schema_version, relative_path, repo_ref, body))
}

/// The content hash of an entry: the digest of its content alone, or the
/// sentinel where it has none.
pub open spec fn content_hash_of(content: Option<Seq<char>>) -> Seq<char> {
    match content {
        Some(c) => blake3_hex(encode_utf8(c)),
        None => no_content_hash(),
    }
}

fn append_bytes(buf: &mut Vec<u8>, bytes: &[u8])
    ensures
        final(buf)@ == old(buf)@ + bytes@,
{
    let mut i: usize = 0;
    while i < bytes.len()
        invariant
            i <= bytes@.len(),
            buf@ == old(buf)@ + bytes@.subrange(0, i as int),
        decreases bytes@.len() - i,
    {
        buf.push(bytes[i]);
        i = i + 1;
        assert(bytes@.subrange(0, i as int) == bytes@.subrange(0, i - 1 as int).push(
            bytes@[i - 1],
        ));
    }
    assert(bytes@.subrange(0, bytes@.len() as int) == bytes@);
}

/// Derives the semantic hash and the content hash of one entry.
///
/// The semantic hash binds the schema version, the relative path, the
/// repository reference and the content; the content hash binds the content
/// alone. Both depend on their inputs and nothing else.
pub fn derive_hashes(
    schema_version: &str,
    relative_path: &str,
    repo_ref: &str,
    content: Option<&str>,
) -> (r: (String, String))
    ensures
        r.0@ == semantic_hash_of(
            schema_version@,
            relative_path@,
            repo_ref@,
            match content {
                Some(c) => Some(c@),
                None => None,
            },
        ),
        r.1@ == content_hash_of(
            match content {
                Some(c) => Some(c@),
                None => None,
            },
        ),
{
    let mut input: Vec<u8> = Vec::new();
    append_bytes(&mut input, schema_version.as_bytes());
    append_bytes(&mut input, relative_path.as_bytes());
    append_bytes(&mut input, repo_ref.as_bytes());
    let content_hash = match content {
        Some(c) => {
            append_bytes(&mut input, c.as_bytes());
            blake3_hex_digest(c.as_bytes())
        },
        None => {
            proof {
                assert(encode_utf8(Seq::<char>::empty()) =~= Seq::<u8>::empty()) by {
                    reveal_with_fuel(encode_utf8, 1);
                }
                assert(input@ + Seq::<u8>::empty() =~= input@);
                reveal_strlit("no_content_hash");
            }
            "no_content_hash".to_string()
        },
    };
    let semantic = blake3_hex_digest(input.as_slice());
    (semantic, content_hash)
}

} // verus!
