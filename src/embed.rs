//! Files stored in the program, one entry per embed pattern.
use vstd::prelude::*;

verus! {

/// The embedded entries, one per embed pattern.
#[derive(Debug, Clone)]
pub struct Embeds {
    pub entries: Vec<EmbeddedEntry>,
}

/// One embed pattern: a single file, or a glob with the files that matched it.
#[derive(Debug, Clone)]
pub enum EmbeddedEntry {
    Single(EmbeddedFile),
    Glob(EmbeddedGlob),
}

/// A glob pattern and the files that matched it when they were embedded.
#[derive(Debug, Clone)]
pub struct EmbeddedGlob {
    /// The glob pattern as written.
    pub pattern: String,
    pub files: Vec<EmbeddedFile>,
    /// Directory that the pattern is relative to.
    pub base_path: String,
}

/// One embedded file.
#[derive(Debug, Clone)]
pub struct EmbeddedFile {
    /// The path relative to the base directory.
    pub path: String,
    /// The path on disk the content was read from.
    pub full_path: String,
    /// The stored bytes, brotli-compressed when `compressed` holds.
    pub content: Vec<u8>,
    pub compressed: bool,
}

impl EmbeddedEntry {
    /// The pattern as written: the file's path or the glob's pattern.
    pub open spec fn pattern_view(&self) -> Seq<char> {
        match self {
            EmbeddedEntry::Single(f) => f.path@,
            EmbeddedEntry::Glob(g) => g.pattern@,
        }
    }

    pub fn embed_pattern(&self) -> (r: &String)
        ensures
            r@ == self.pattern_view(),
    {
        match self {
            EmbeddedEntry::Single(f) => f.path(),
            EmbeddedEntry::Glob(g) => g.pattern(),
        }
    }

    pub fn as_glob(&self) -> (r: Option<&EmbeddedGlob>)
        ensures
            r matches Some(g) ==> *self == EmbeddedEntry::Glob(*g),
            r is None ==> self is Single,
    {
        match self {
            EmbeddedEntry::Glob(g) => Some(g),
            _ => None,
        }
    }

    pub fn as_file(&self) -> (r: Option<&EmbeddedFile>)
        ensures
            r matches Some(f) ==> *self == EmbeddedEntry::Single(*f),
            r is None ==> self is Glob,
    {
        match self {
            EmbeddedEntry::Single(f) => Some(f),
            _ => None,
        }
    }

    /// The files of the entry: the file itself, or the glob's files.
    pub fn files(&self) -> (r: Vec<&EmbeddedFile>)
        ensures
            self matches EmbeddedEntry::Single(f) ==> r@.len() == 1 && *r@[0] == f,
            self matches EmbeddedEntry::Glob(g) ==> r@.len() == g.files@.len() && forall|k: int|
                0 <= k < r@.len() ==> *r@[k] == g.files@[k],
    {
        match self {
            EmbeddedEntry::Single(f) => {
                let mut r: Vec<&EmbeddedFile> = Vec::new();
                r.push(f);
                r
            },
            EmbeddedEntry::Glob(g) => {
                let mut r: Vec<&EmbeddedFile> = Vec::new();
                let mut k: usize = 0;
                while k < g.files.len()
                    invariant
                        k <= g.files@.len(),
                        r@.len() == k,
                        forall|m: int| 0 <= m < k ==> *r@[m] == g.files@[m],
                    decreases g.files@.len() - k,
                {
                    r.push(&g.files[k]);
                    k = k + 1;
                }
                r
            },
        }
    }
}

impl Embeds {
    pub fn entries(&self) -> (r: &Vec<EmbeddedEntry>)
        ensures
            r == &self.entries,
    {
        &self.entries
    }

    /// The first entry whose embed pattern is `embed_pattern`.
    pub fn get(&self, embed_pattern: &str) -> (r: Option<&EmbeddedEntry>)
        ensures
            r matches Some(e) ==> exists|i: int|
                0 <= i < self.entries@.len() && self.entries@[i] == *e && e.pattern_view()
                    == embed_pattern@ && forall|j: int|
                    0 <= j < i ==> self.entries@[j].pattern_view() != embed_pattern@,
            r is None ==> forall|j: int|
                0 <= j < self.entries@.len() ==> self.entries@[j].pattern_view() != embed_pattern@,
    {
        let key = embed_pattern.to_owned();
        let mut i: usize = 0;
        while i < self.entries.len()
            invariant
                key@ == embed_pattern@,
                i <= self.entries@.len(),
                forall|j: int|
                    0 <= j < i ==> self.entries@[j].pattern_view() != embed_pattern@,
            decreases self.entries@.len() - i,
        {
            if *self.entries[i].embed_pattern() == key {
                return Some(&self.entries[i]);
            }
            i = i + 1;
        }
        None
    }
}

impl EmbeddedGlob {
    pub fn pattern(&self) -> (r: &String)
        ensures
            r == &self.pattern,
    {
        &self.pattern
    }

    pub fn files(&self) -> (r: &Vec<EmbeddedFile>)
        ensures
            r == &self.files,
    {
        &self.files
    }
}

/// What brotli decompression makes of a byte string, `None` when it is no valid stream.
pub uninterp spec fn brotli_decompressed(b: Seq<u8>) -> Option<Seq<u8>>;

/// Relies on `brotli::BrotliDecompress`: decodes a brotli stream, and fails on bytes that
/// are not one; the outcome depends on the bytes alone.
#[verifier::external_body]
fn decompress(b: &[u8]) -> (r: Option<Vec<u8>>)
    ensures
        r matches Some(v) ==> brotli_decompressed(b@) == Some(v@),
        r is None ==> brotli_decompressed(b@) is None,
{
    let mut out = Vec::new();
    match brotli::BrotliDecompress(&mut &*b, &mut out) {
        Ok(()) => Some(out),
        Err(_) => None,
    }
}

/// The content of an embedded file: its stored bytes, decompressed when stored
/// compressed; `None` when they do not decompress.
pub open spec fn file_bytes(f: EmbeddedFile) -> Option<Seq<u8>> {
    if f.compressed {
        brotli_decompressed(f.content@)
    } else {
        Some(f.content@)
    }
}

impl EmbeddedFile {
    pub fn path(&self) -> (r: &String)
        ensures
            r == &self.path,
    {
        &self.path
    }

    /// The file's content: the stored bytes, decompressed when they are stored
    /// compressed; `None` when compressed bytes do not decompress.
    pub fn content(&self) -> (r: Option<Vec<u8>>)
        ensures
            match r {
                Some(v) => file_bytes(*self) == Some(v@),
                None => file_bytes(*self) is None,
            },
            !self.compressed ==> (r matches Some(v) && v@ == self.content@),
            self.compressed ==> match r {
                Some(v) => brotli_decompressed(self.content@) == Some(v@),
                None => brotli_decompressed(self.content@) is None,
            },
    {
        if self.compressed {
            decompress(self.content.as_slice())
        } else {
            let mut v: Vec<u8> = Vec::new();
            crate::template::append_range(&mut v, self.content.as_slice(), 0, self.content.len());
            assert(self.content@.subrange(0, self.content@.len() as int) =~= self.content@);
            Some(v)
        }
    }
}

} // verus!
