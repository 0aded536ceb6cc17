//! Content-derived public paths.
use vstd::prelude::*;
use vstd::string::StrSliceExecFns;

use base64::Engine;
use sha2::Digest;

verus! {

/// How many bytes of the digest go into a filename: a multiple of 3, so that base64 uses
/// no padding characters.
pub const HASH_BYTES_IN_FILENAME: usize = 9;

/// Where the hash goes in a public path.
#[derive(Debug, Clone, PartialEq, Eq)]
pub enum PathHash {
    /// The path stays as it is.
    Unhashed,
    /// Before the first `.` of the filename, or after the filename with a `-` when it has
    /// no `.`.
    Auto,
    /// Between the two strings, which replace the path.
    InBetween { prefix: String, suffix: String },
}

impl PathHash {
    pub fn is_hashed(&self) -> (r: bool)
        ensures
            r == !(self is Unhashed),
    {
        match self {
            PathHash::Unhashed => false,
            _ => true,
        }
    }
}

/// The SHA-256 digest of a byte string.
pub uninterp spec fn sha256_of(b: Seq<u8>) -> Seq<u8>;

/// Relies on `sha2::Sha256::digest`: the 32-byte SHA-256 digest of `b`.
#[verifier::external_body]
fn sha256(b: &[u8]) -> (r: Vec<u8>)
    ensures
        r@ == sha256_of(b@),
        r@.len() == 32,
{
    sha2::Sha256::digest(b).to_vec()
}

/// The URL-safe base64 alphabet.
pub open spec fn url_alphabet() -> Seq<char> {
    seq![
        'A', 'B', 'C', 'D', 'E', 'F', 'G', 'H', 'I', 'J', 'K', 'L', 'M', 'N', 'O', 'P', 'Q',
        'R', 'S', 'T', 'U', 'V', 'W', 'X', 'Y', 'Z', 'a', 'b', 'c', 'd', 'e', 'f', 'g', 'h',
        'i', 'j', 'k', 'l', 'm', 'n', 'o', 'p', 'q', 'r', 's', 't', 'u', 'v', 'w', 'x', 'y',
        'z', '0', '1', '2', '3', '4', '5', '6', '7', '8', '9', '-', '_',
    ]
}

/// URL-safe base64 without padding: each group of three bytes gives four characters of
/// six bits each; a last group of one or two bytes gives two or three characters.
pub open spec fn base64_url(b: Seq<u8>) -> Seq<char>
    decreases b.len(),
{
    let a = url_alphabet();
    let b0 = if b.len() > 0 { b[0] as int } else { 0 };
    let b1 = if b.len() > 1 { b[1] as int } else { 0 };
    let b2 = if b.len() > 2 { b[2] as int } else { 0 };
    if b.len() == 0 {
        Seq::empty()
    } else if b.len() == 1 {
        seq![a[b0 / 4], a[(b0 % 4) * 16]]
    } else if b.len() == 2 {
        seq![a[b0 / 4], a[(b0 % 4) * 16 + b1 / 16], a[(b1 % 16) * 4]]
    } else {
        seq![
            a[b0 / 4],
            a[(b0 % 4) * 16 + b1 / 16],
            a[(b1 % 16) * 4 + b2 / 64],
            a[b2 % 64],
        ] + base64_url(b.subrange(3, b.len() as int))
    }
}

/// Relies on `base64`'s `URL_SAFE_NO_PAD` engine: `encode` writes URL-safe base64
/// without padding.
#[verifier::external_body]
fn encode_base64_url(b: &[u8]) -> (r: String)
    requires
        b@.len() <= usize::MAX / 2,
    ensures
        r@ == base64_url(b@),
{
    base64::engine::general_purpose::URL_SAFE_NO_PAD.encode(b)
}

/// Relies on `String`'s `FromIterator<char>`: the characters in order.
#[verifier::external_body]
pub(crate) fn string_of(chars: &Vec<char>) -> (r: String)
    ensures
        r@ == chars@,
{
    chars.iter().collect()
}

/// Where the last path segment starts: after the last `/`, or at 0.
pub open spec fn segment_start(s: Seq<char>) -> int
    decreases s.len(),
{
    if s.len() == 0 {
        0
    } else if s.last() == '/' {
        s.len() as int
    } else {
        segment_start(s.drop_last())
    }
}

/// Position of the first `.` at or after `i`, or the length when there is none.
pub open spec fn first_dot_from(s: Seq<char>, i: int) -> int
    decreases s.len() - i,
{
    if i < 0 || i >= s.len() {
        s.len() as int
    } else if s[i] == '.' {
        i
    } else {
        first_dot_from(s, i + 1)
    }
}

/// The hash text of some content: its digest's first bytes in URL-safe base64.
pub open spec fn hash_text(content: Seq<u8>) -> Seq<char> {
    base64_url(sha256_of(content).subrange(0, HASH_BYTES_IN_FILENAME as int))
}

/// `path` with `hash` placed as `placement` says. A filename that starts with `.` has its
/// first `.` there, so the hash goes in front of it: `.env` becomes `.<hash>.env`.
pub open spec fn placed(placement: PathHash, path: Seq<char>, hash: Seq<char>) -> Seq<char> {
    match placement {
        PathHash::Unhashed => path,
        PathHash::Auto => {
            let d = first_dot_from(path, segment_start(path));
            if d < path.len() {
                path.subrange(0, d) + seq!['.'] + hash + path.subrange(d, path.len() as int)
            } else {
                path + seq!['-'] + hash
            }
        },
        PathHash::InBetween { prefix, suffix } => prefix@ + hash + suffix@,
    }
}

/// The public path of an asset at `path` with `content`.
pub open spec fn public_path(placement: PathHash, path: Seq<char>, content: Seq<u8>) -> Seq<char> {
    placed(placement, path, hash_text(content))
}

proof fn lemma_first_dot(s: Seq<char>, i: int, j: int)
    requires
        0 <= i <= j <= s.len(),
        forall|k: int| i <= k < j ==> s[k] != '.',
    ensures
        first_dot_from(s, i) == first_dot_from(s, j),
    decreases j - i,
{
    if i < j {
        lemma_first_dot(s, i + 1, j);
    }
}

fn push_chars(out: &mut Vec<char>, s: &str, lo: usize, hi: usize)
    requires
        lo <= hi <= s@.len(),
    ensures
        final(out)@ == old(out)@ + s@.subrange(lo as int, hi as int),
{
    let mut i = lo;
    while i < hi
        invariant
            lo <= i <= hi <= s@.len(),
            out@ == old(out)@ + s@.subrange(lo as int, i as int),
        decreases hi - i,
    {
        out.push(s.get_char(i));
        assert(s@.subrange(lo as int, i + 1) =~= s@.subrange(lo as int, i as int).push(
            s@[i as int],
        ));
        i = i + 1;
    }
}

/// The hash text of `content`.
pub fn hash_of(content: &[u8]) -> (r: String)
    ensures
        r@ == hash_text(content@),
{
    let digest = sha256(content);
    let mut prefix: Vec<u8> = Vec::new();
    let mut i: usize = 0;
    while i < HASH_BYTES_IN_FILENAME
        invariant
            digest@.len() == 32,
            i <= HASH_BYTES_IN_FILENAME,
            prefix@ == digest@.subrange(0, i as int),
        decreases HASH_BYTES_IN_FILENAME - i,
    {
        prefix.push(digest[i]);
        assert(digest@.subrange(0, i + 1) =~= digest@.subrange(0, i as int).push(digest@[i as int]));
        i = i + 1;
    }
    encode_base64_url(prefix.as_slice())
}

/// The public path of an asset at `path` whose final content is `content`.
pub fn path_of(placement: &PathHash, path: &str, content: &[u8]) -> (r: String)
    ensures
        r@ == public_path(*placement, path@, content@),
{
    match placement {
        PathHash::Unhashed => path.to_owned(),
        PathHash::Auto => {
            let hash = hash_of(content);
            let h = hash.as_str();
            let hlen = h.unicode_len();
            let len = path.unicode_len();
            let mut seg = len;
            assert(path@.subrange(0, len as int) =~= path@);
            while seg > 0 && path.get_char(seg - 1) != '/'
                invariant
                    len == path@.len(),
                    seg <= len,
                    segment_start(path@) == segment_start(path@.subrange(0, seg as int)),
                decreases seg,
            {
                proof {
                    assert(path@.subrange(0, seg as int).drop_last() =~= path@.subrange(
                        0,
                        seg - 1,
                    ));
                }
                seg = seg - 1;
            }
            proof {
                if seg > 0 {
                    assert(path@.subrange(0, seg as int).last() == '/');
                }
            }
            let mut dot = seg;
            while dot < len && path.get_char(dot) != '.'
                invariant
                    len == path@.len(),
                    seg <= dot <= len,
                    forall|k: int| seg <= k < dot ==> path@[k] != '.',
                decreases len - dot,
            {
                dot = dot + 1;
            }
            proof {
                lemma_first_dot(path@, seg as int, dot as int);
            }
            let mut out: Vec<char> = Vec::new();
            if dot < len {
                push_chars(&mut out, path, 0, dot);
                out.push('.');
                push_chars(&mut out, h, 0, hlen);
                push_chars(&mut out, path, dot, len);
                proof {
                    assert(h@.subrange(0, hlen as int) =~= h@);
                }
            } else {
                push_chars(&mut out, path, 0, len);
                out.push('-');
                push_chars(&mut out, h, 0, hlen);
                proof {
                    assert(h@.subrange(0, hlen as int) =~= h@);
                    assert(path@.subrange(0, len as int) =~= path@);
                }
            }
            string_of(&out)
        },
        PathHash::InBetween { prefix, suffix } => {
            let hash = hash_of(content);
            let h = hash.as_str();
            let p = prefix.as_str();
            let q = suffix.as_str();
            let mut out: Vec<char> = Vec::new();
            push_chars(&mut out, p, 0, p.unicode_len());
            push_chars(&mut out, h, 0, h.unicode_len());
            push_chars(&mut out, q, 0, q.unicode_len());
            proof {
                assert(h@.subrange(0, h@.len() as int) =~= h@);
                assert(p@.subrange(0, p@.len() as int) =~= p@);
                assert(q@.subrange(0, q@.len() as int) =~= q@);
            }
            string_of(&out)
        },
    }
}

} // verus!
