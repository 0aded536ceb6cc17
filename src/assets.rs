//! Configuring entries and building the final asset set: every asset loaded, modified,
//! and given its public path, in an order in which each asset comes after the assets its
//! modifier depends on.
use vstd::prelude::*;
use vstd::utf8::encode_utf8;

use crate::catalog::find_path;
use crate::embed::{file_bytes, EmbeddedEntry, EmbeddedFile, EmbeddedGlob};
use crate::glob::split_from;
use crate::template::has_prefix;
use crate::glob::SplitGlob;
use crate::graph::{has_edge, is_topological_order, IdGraph};
use crate::hash::{path_of, public_path, PathHash};
use crate::util::{ac_builds, replaced_all};

verus! {

/// Where an asset's bytes come from.
#[derive(Debug, Clone)]
pub enum DataSource {
    /// Read from this file when the assets are built.
    File(String),
    /// Already in memory.
    Loaded(Vec<u8>),
}

/// What happens to an asset's bytes before its public path is computed.
#[derive(Debug, Clone)]
pub enum Modifier {
    Unmodified,
    /// Each listed unhashed path found in the content is replaced by that asset's
    /// public path.
    PathFixup(Vec<String>),
    /// The caller's `ContentModifier` rewrites the content; it may look up the public
    /// paths of the listed assets.
    Custom(Vec<String>),
}

impl Modifier {
    pub open spec fn deps(&self) -> Seq<String> {
        match self {
            Modifier::Unmodified => Seq::empty(),
            Modifier::PathFixup(d) => d@,
            Modifier::Custom(d) => d@,
        }
    }

    /// The assets that the modifier needs resolved first.
    pub fn dependencies(&self) -> (r: Option<&Vec<String>>)
        ensures
            r matches Some(d) ==> d@ == self.deps() && !(self is Unmodified),
            r is None ==> self is Unmodified,
    {
        match self {
            Modifier::Unmodified => None,
            Modifier::PathFixup(d) => Some(d),
            Modifier::Custom(d) => Some(d),
        }
    }
}

/// One file of a glob entry.
#[derive(Debug, Clone)]
pub struct GlobFile {
    /// The file's path after the glob's fixed prefix.
    pub suffix: String,
    pub source: DataSource,
}

#[derive(Debug, Clone)]
pub enum EntryKind {
    Single { http_path: String, source: DataSource },
    Glob { http_prefix: String, glob: SplitGlob, files: Vec<GlobFile> },
}

/// One configured entry: a single asset or a group from a glob.
#[derive(Debug, Clone)]
pub struct EntryBuilder {
    pub kind: EntryKind,
    pub path_hash: PathHash,
    pub modifier: Modifier,
}

/// The two strings one after the other.
fn concat(a: &str, b: &str) -> (r: String)
    ensures
        r@ == a@ + b@,
{
    vstd::string::StringExecFns::concat(a.to_owned(), b)
}

impl EntryBuilder {
    /// The unhashed HTTP paths that the entry mounts.
    pub open spec fn paths_view(&self) -> Seq<Seq<char>> {
        match self.kind {
            EntryKind::Single { http_path, .. } => seq![http_path@],
            EntryKind::Glob { http_prefix, files, .. } => files@.map_values(
                |f: GlobFile| http_prefix@ + f.suffix@,
            ),
        }
    }

    /// Puts the content hash into the filename, before its first `.` (see `PathHash`).
    pub fn with_hash(&mut self) -> (r: &mut Self)
        ensures
            r.path_hash == PathHash::Auto,
            r.kind == old(self).kind,
            r.modifier == old(self).modifier,
            *final(self) == *final(r),
    {
        self.path_hash = PathHash::Auto;
        self
    }

    /// Makes the public path `prefix`, the hash, then `suffix`.
    pub fn with_hash_between(&mut self, prefix: &str, suffix: &str) -> (r: &mut Self)
        ensures
            r.path_hash matches PathHash::InBetween { prefix: p, suffix: s } && p@
                == prefix@ && s@ == suffix@,
            r.kind == old(self).kind,
            r.modifier == old(self).modifier,
            *final(self) == *final(r),
    {
        self.path_hash = PathHash::InBetween { prefix: prefix.to_owned(), suffix: suffix.to_owned() };
        self
    }

    /// Replaces the given unhashed paths in the content by the public paths.
    pub fn with_path_fixup(&mut self, paths: Vec<String>) -> (r: &mut Self)
        ensures
            r.modifier == Modifier::PathFixup(paths),
            r.kind == old(self).kind,
            r.path_hash == old(self).path_hash,
            *final(self) == *final(r),
    {
        self.modifier = Modifier::PathFixup(paths);
        self
    }

    /// Lets the caller's `ContentModifier` rewrite the content; `dependencies` are the
    /// unhashed paths whose public paths it may look up.
    pub fn with_modifier(&mut self, dependencies: Vec<String>) -> (r: &mut Self)
        ensures
            r.modifier == Modifier::Custom(dependencies),
            r.kind == old(self).kind,
            r.path_hash == old(self).path_hash,
            *final(self) == *final(r),
    {
        self.modifier = Modifier::Custom(dependencies);
        self
    }

    /// All unhashed HTTP paths that the entry mounts.
    pub fn http_paths(&self) -> (r: Vec<String>)
        ensures
            r@.map_values(|s: String| s@) == self.paths_view(),
    {
        match &self.kind {
            EntryKind::Single { http_path, .. } => {
                let mut r: Vec<String> = Vec::new();
                r.push(http_path.clone());
                assert(r@.map_values(|s: String| s@) =~= self.paths_view());
                r
            },
            EntryKind::Glob { http_prefix, files, .. } => {
                let mut r: Vec<String> = Vec::new();
                let mut k: usize = 0;
                while k < files.len()
                    invariant
                        k <= files@.len(),
                        r@.len() == k,
                        forall|m: int| 0 <= m < k ==> #[trigger] r@[m]@ == http_prefix@ + files@[m].suffix@,
                    decreases files@.len() - k,
                {
                    r.push(concat(http_prefix.as_str(), files[k].suffix.as_str()));
                    k = k + 1;
                }
                assert(r@.map_values(|s: String| s@) =~= self.paths_view());
                r
            },
        }
    }

    /// The one unhashed HTTP path of the entry, `None` when it mounts more or fewer.
    pub fn single_http_path(&self) -> (r: Option<String>)
        ensures
            r matches Some(p) ==> self.paths_view() == seq![p@],
            r is None ==> self.paths_view().len() != 1,
    {
        match &self.kind {
            EntryKind::Single { http_path, .. } => Some(http_path.clone()),
            EntryKind::Glob { http_prefix, files, .. } => {
                if files.len() == 1 {
                    let p = concat(http_prefix.as_str(), files[0].suffix.as_str());
                    assert(self.paths_view() =~= seq![p@]);
                    Some(p)
                } else {
                    None
                }
            },
        }
    }
}

/// Collects entries; `build` turns them into `Assets`.
#[derive(Debug, Clone)]
pub struct Builder {
    pub assets: Vec<EntryBuilder>,
}

/// `s` holds, loaded, the bytes `b`.
pub open spec fn holds_bytes(s: DataSource, b: Option<Seq<u8>>) -> bool {
    match s {
        DataSource::Loaded(v) => b == Some(v@),
        DataSource::File(_) => false,
    }
}

/// The fixed leading segments of an embedded glob's pattern.
pub open spec fn glob_prefix(g: EmbeddedGlob) -> Seq<char> {
    g.pattern@.subrange(0, split_from(g.pattern@, 0, 0))
}

/// File `k` of `g` lies below the glob's fixed prefix and its content can be had.
pub open spec fn glob_file_ok(g: EmbeddedGlob, k: int) -> bool {
    has_prefix(g.files@[k].path@, glob_prefix(g)) && file_bytes(g.files@[k]) is Some
}

/// `e` mounts `file` alone at `http_path`, unhashed and unmodified.
pub open spec fn is_file_entry(e: EntryBuilder, http_path: Seq<char>, file: EmbeddedFile) -> bool {
    &&& e.kind matches EntryKind::Single { http_path: h, source } && h@ == http_path && holds_bytes(
        source,
        file_bytes(file),
    )
    &&& e.path_hash is Unhashed
    &&& e.modifier is Unmodified
}

/// `e` mounts each file of `g` at `http_path` followed by its path after the glob's
/// fixed prefix, unhashed and unmodified.
pub open spec fn is_glob_entry(e: EntryBuilder, http_path: Seq<char>, g: EmbeddedGlob) -> bool {
    &&& e.kind matches EntryKind::Glob { http_prefix: h, glob: sg, files } && h@ == http_path
        && sg.prefix@ == glob_prefix(g) && files@.len() == g.files@.len() && forall|k: int|
        0 <= k < files@.len() ==> g.files@[k].path@ == sg.prefix@ + #[trigger] files@[k].suffix@
            && holds_bytes(files@[k].source, file_bytes(g.files@[k]))
    &&& e.path_hash is Unhashed
    &&& e.modifier is Unmodified
}

fn loaded_source(file: &EmbeddedFile) -> (r: Option<DataSource>)
    ensures
        r is None <==> file_bytes(*file) is None,
        r matches Some(s) ==> holds_bytes(s, file_bytes(*file)),
{
    match file.content() {
        Some(bytes) => Some(DataSource::Loaded(bytes)),
        None => None,
    }
}

/// `s` without the leading `p`, when it starts with it.
fn strip_prefix(s: &str, p: &str) -> (r: Option<String>)
    ensures
        r matches Some(t) ==> s@ == p@ + t@,
        r is None ==> !(p@.len() <= s@.len() && s@.subrange(0, p@.len() as int) == p@),
{
    let pv: Vec<char> = chars_of(p);
    let slen = vstd::string::StrSliceExecFns::unicode_len(s);
    let plen = pv.len();
    if plen > slen {
        return None;
    }
    let mut i: usize = 0;
    while i < plen
        invariant
            pv@ == p@,
            plen == p@.len(),
            slen == s@.len(),
            plen <= slen,
            i <= plen,
            forall|k: int| 0 <= k < i ==> s@[k] == p@[k],
        decreases plen - i,
    {
        if vstd::string::StrSliceExecFns::get_char(s, i) != pv[i] {
            assert(s@.subrange(0, plen as int)[i as int] != p@[i as int]);
            return None;
        }
        i = i + 1;
    }
    let t = vstd::string::StrSliceExecFns::substring_char(s, plen, slen).to_owned();
    assert(s@ =~= p@ + t@);
    Some(t)
}

fn chars_of(s: &str) -> (r: Vec<char>)
    ensures
        r@ == s@,
{
    let len = vstd::string::StrSliceExecFns::unicode_len(s);
    let mut r: Vec<char> = Vec::new();
    let mut i: usize = 0;
    while i < len
        invariant
            len == s@.len(),
            i <= len,
            r@ == s@.subrange(0, i as int),
        decreases len - i,
    {
        r.push(vstd::string::StrSliceExecFns::get_char(s, i));
        assert(s@.subrange(0, i + 1) =~= s@.subrange(0, i as int).push(s@[i as int]));
        i = i + 1;
    }
    r
}

impl Builder {
    pub fn new() -> (r: Builder)
        ensures
            r.assets@.len() == 0,
    {
        Builder { assets: Vec::new() }
    }

    fn push_entry(&mut self, entry: EntryBuilder) -> (r: &mut EntryBuilder)
        ensures
            final(self).assets@ == old(self).assets@.push(*final(r)),
            *r == entry,
    {
        self.assets.push(entry);
        let last = self.assets.len() - 1;
        &mut self.assets[last]
    }

    /// Adds an asset read from `fs_path` when building, mounted at `http_path`.
    pub fn add_file(&mut self, http_path: &str, fs_path: &str) -> (r: &mut EntryBuilder)
        ensures
            final(self).assets@ == old(self).assets@.push(*final(r)),
            r.kind matches EntryKind::Single { http_path: h, source: DataSource::File(f) } && h@
                == http_path@ && f@ == fs_path@,
            r.path_hash is Unhashed,
            r.modifier is Unmodified,
    {
        self.push_entry(
            EntryBuilder {
                kind: EntryKind::Single {
                    http_path: http_path.to_owned(),
                    source: DataSource::File(fs_path.to_owned()),
                },
                path_hash: PathHash::Unhashed,
                modifier: Modifier::Unmodified,
            },
        )
    }

    /// Adds an embedded file mounted at `http_path`; `None`, with nothing added, when its
    /// stored bytes do not decompress.
    pub fn add_embedded_file(&mut self, http_path: &str, file: &EmbeddedFile) -> (r: Option<
        &mut EntryBuilder,
    >)
        ensures
            r is None <==> file_bytes(*file) is None,
            r matches Some(e) ==> final(self).assets@ == old(self).assets@.push(*final(e))
                && is_file_entry(*e, http_path@, *file),
            r is None ==> final(self).assets@ == old(self).assets@,
    {
        match loaded_source(file) {
            Some(source) => Some(
                self.push_entry(
                    EntryBuilder {
                        kind: EntryKind::Single { http_path: http_path.to_owned(), source },
                        path_hash: PathHash::Unhashed,
                        modifier: Modifier::Unmodified,
                    },
                ),
            ),
            None => None,
        }
    }

    /// Adds the files of an embedded glob, each mounted at `http_path` followed by its
    /// path after the glob's fixed prefix; `None`, with nothing added, when a file's
    /// path does not start with that prefix or its bytes do not decompress.
    pub fn add_embedded_glob(&mut self, http_path: &str, glob: &EmbeddedGlob) -> (r: Option<
        &mut EntryBuilder,
    >)
        ensures
            r is None <==> exists|k: int| 0 <= k < glob.files@.len() && !#[trigger] glob_file_ok(*glob, k),
            r matches Some(e) ==> final(self).assets@ == old(self).assets@.push(*final(e))
                && is_glob_entry(*e, http_path@, *glob),
            r is None ==> final(self).assets@ == old(self).assets@,
    {
        let split = SplitGlob::new(glob.pattern.as_str());
        let mut files: Vec<GlobFile> = Vec::new();
        let mut k: usize = 0;
        while k < glob.files.len()
            invariant
                split.prefix@ == glob_prefix(*glob),
                k <= glob.files@.len(),
                files@.len() == k,
                forall|m: int| 0 <= m < k ==> glob.files@[m].path@ == split.prefix@ + #[trigger] files@[m].suffix@
                    && holds_bytes(files@[m].source, file_bytes(glob.files@[m])),
                forall|m: int| 0 <= m < k ==> #[trigger] glob_file_ok(*glob, m),
            decreases glob.files@.len() - k,
        {
            let f = &glob.files[k];
            let suffix = match strip_prefix(f.path.as_str(), split.prefix.as_str()) {
                Some(s) => s,
                None => {
                    assert(!glob_file_ok(*glob, k as int));
                    return None;
                },
            };
            let source = match loaded_source(f) {
                Some(s) => s,
                None => {
                    assert(!glob_file_ok(*glob, k as int));
                    return None;
                },
            };
            proof {
                assert((split.prefix@ + suffix@).subrange(0, split.prefix@.len() as int) =~= split.prefix@);
                assert(glob_file_ok(*glob, k as int));
            }
            files.push(GlobFile { suffix, source });
            k = k + 1;
        }
        Some(
            self.push_entry(
                EntryBuilder {
                    kind: EntryKind::Glob { http_prefix: http_path.to_owned(), glob: split, files },
                    path_hash: PathHash::Unhashed,
                    modifier: Modifier::Unmodified,
                },
            ),
        )
    }

    /// Adds an embedded entry: `add_embedded_file` or `add_embedded_glob`.
    pub fn add_embedded(&mut self, http_path: &str, entry: &EmbeddedEntry) -> (r: Option<
        &mut EntryBuilder,
    >)
        ensures
            r matches Some(e) ==> final(self).assets@ == old(self).assets@.push(*final(e)),
            r is None ==> final(self).assets@ == old(self).assets@,
            *entry matches EmbeddedEntry::Single(f) ==> (r is None <==> file_bytes(f) is None)
                && (r matches Some(e) ==> is_file_entry(*e, http_path@, f)),
            *entry matches EmbeddedEntry::Glob(g) ==> (r is None <==> exists|k: int|
                0 <= k < g.files@.len() && !#[trigger] glob_file_ok(g, k)) && (r matches Some(e)
                ==> is_glob_entry(*e, http_path@, g)),
    {
        match entry {
            EmbeddedEntry::Single(file) => self.add_embedded_file(http_path, file),
            EmbeddedEntry::Glob(glob) => self.add_embedded_glob(http_path, glob),
        }
    }
}


/// One asset of the flattened configuration.
#[derive(Debug, Clone)]
pub struct FlatAsset {
    /// The unhashed HTTP path.
    pub path: String,
    pub source: DataSource,
    pub modifier: Modifier,
    pub hash: PathHash,
    /// The entry it came from.
    pub entry: usize,
}

pub open spec fn flat_paths(flat: Seq<FlatAsset>) -> Seq<Seq<char>> {
    flat.map_values(|f: FlatAsset| f.path@)
}

/// Asset `a`'s modifier lists the path of asset `b`.
pub open spec fn modifier_depends(flat: Seq<FlatAsset>, a: int, b: int) -> bool {
    &&& 0 <= a < flat.len()
    &&& exists|k: int|
        0 <= k < flat[a].modifier.deps().len() && find_path(
            flat_paths(flat),
            flat[a].modifier.deps()[k]@,
            0,
        ) == Some(b)
}

/// The replacements of a path fixup listing `deps`: each listed path that belongs to an
/// asset with a hashed public path, paired with that public path, as UTF-8 bytes.
pub open spec fn fixup_pairs(
    flat: Seq<FlatAsset>,
    publics: Seq<Seq<char>>,
    deps: Seq<String>,
) -> Seq<(Seq<u8>, Seq<u8>)>
    decreases deps.len(),
{
    if deps.len() == 0 {
        Seq::empty()
    } else {
        let rest = fixup_pairs(flat, publics, deps.drop_last());
        let p = deps.last()@;
        match find_path(flat_paths(flat), p, 0) {
            Some(j) => if !(flat[j].hash is Unhashed) {
                rest.push((encode_utf8(p), encode_utf8(publics[j])))
            } else {
                rest
            },
            None => rest,
        }
    }
}

pub(crate) fn copy_of(b: &[u8]) -> (r: Vec<u8>)
    ensures
        r@ == b@,
{
    let mut r: Vec<u8> = Vec::new();
    crate::template::append_range(&mut r, b, 0, b.len());
    assert(b@.subrange(0, b@.len() as int) =~= b@);
    r
}

/// Errors of `build`.
#[derive(Debug, Clone)]
pub enum BuildError {
    /// The assets on a cycle, each listing the next in its modifier, the last the first.
    CyclicDependencies(Vec<String>),
    /// The paths of `asset`'s path fixup could not be compiled into a searcher.
    Fixup { asset: String },
}

/// A built asset.
#[derive(Debug, Clone)]
pub struct Asset {
    pub content: Vec<u8>,
    pub hashed_filename: bool,
}

impl Asset {
    pub fn content(&self) -> (r: &Vec<u8>)
        ensures
            r@ == self.content@,
    {
        &self.content
    }

    /// Whether the public path carries a content hash.
    pub fn is_filename_hashed(&self) -> (r: bool)
        ensures
            r == self.hashed_filename,
    {
        self.hashed_filename
    }
}

/// The built assets, by public path.
#[derive(Debug, Clone)]
pub struct Assets {
    pub entries: Vec<(String, Asset)>,
}

impl Assets {
    /// An empty builder to configure assets with.
    pub fn builder() -> (r: Builder)
        ensures
            r.assets@.len() == 0,
    {
        Builder::new()
    }

    /// The first asset at `http_path`.
    pub fn get(&self, http_path: &str) -> (r: Option<&Asset>)
        ensures
            r matches Some(a) ==> exists|i: int|
                0 <= i < self.entries@.len() && self.entries@[i].0@ == http_path@
                    && self.entries@[i].1 == *a,
            r is None ==> forall|i: int|
                0 <= i < self.entries@.len() ==> self.entries@[i].0@ != http_path@,
    {
        let key = http_path.to_owned();
        let mut i: usize = 0;
        while i < self.entries.len()
            invariant
                key@ == http_path@,
                i <= self.entries@.len(),
                forall|j: int| 0 <= j < i ==> self.entries@[j].0@ != http_path@,
            decreases self.entries@.len() - i,
        {
            if self.entries[i].0 == key {
                return Some(&self.entries[i].1);
            }
            i = i + 1;
        }
        None
    }

    pub fn len(&self) -> (r: usize)
        ensures
            r == self.entries@.len(),
    {
        self.entries.len()
    }

    /// The public paths with their assets.
    pub fn iter(&self) -> (r: &Vec<(String, Asset)>)
        ensures
            r == &self.entries,
    {
        &self.entries
    }
}

/// What a custom modifier may ask while it runs.
#[derive(Clone)]
pub struct ModifierContext {
    declared_deps: Vec<String>,
    /// Unhashed and public path of each asset with a hashed path resolved so far (the
    /// first asset with a given path).
    path_map: Vec<(String, String)>,
    /// The unhashed paths of all assets.
    known: Vec<String>,
    /// The assets of the build, their public paths so far, and the asset being modified.
    flat: Ghost<Seq<FlatAsset>>,
    publics: Ghost<Seq<Seq<char>>>,
    owner: Ghost<int>,
}

/// Where the path map of `ctx` puts `d`: at its public path when `d` names an asset with
/// a hashed path (first entry with that key), nowhere otherwise.
pub open spec fn maps_dependency(
    flat: Seq<FlatAsset>,
    publics: Seq<Seq<char>>,
    hashed: Seq<(Seq<char>, Seq<char>)>,
    d: Seq<char>,
) -> bool {
    match find_path(flat_paths(flat), d, 0) {
        Some(j) => if !(flat[j].hash is Unhashed) {
            exists|i: int|
                0 <= i < hashed.len() && #[trigger] hashed[i] == (d, publics[j]) && forall|i2: int|
                    0 <= i2 < i ==> hashed[i2].0 != d
        } else {
            forall|i: int| 0 <= i < hashed.len() ==> #[trigger] hashed[i].0 != d
        },
        None => true,
    }
}

impl ModifierContext {
    /// The assets of the build.
    pub closed spec fn assets(&self) -> Seq<FlatAsset> {
        self.flat@
    }

    /// The public path of each asset as far as the build has got.
    pub closed spec fn publics(&self) -> Seq<Seq<char>> {
        self.publics@
    }

    /// The asset being modified.
    pub closed spec fn owner(&self) -> int {
        self.owner@
    }

    /// The public path that the asset at `p` has: its hashed public path when it has
    /// one, else `p` itself.
    pub open spec fn public_of(&self, p: Seq<char>) -> Seq<char> {
        match find_path(flat_paths(self.assets()), p, 0) {
            Some(j) => if !(self.assets()[j].hash is Unhashed) {
                self.publics()[j]
            } else {
                p
            },
            None => p,
        }
    }

    /// The context describes the build: the declared paths are those of the owner's
    /// modifier, the known paths are those of all assets, and each declared path that
    /// names an asset with a hashed path maps to its public path.
    pub closed spec fn wf(&self) -> bool {
        &&& 0 <= self.owner@ < self.flat@.len()
        &&& self.publics@.len() == self.flat@.len()
        &&& self.declared() == self.flat@[self.owner@].modifier.deps().map_values(|s: String| s@)
        &&& self.known_paths() == flat_paths(self.flat@)
        &&& forall|q: int|
            0 <= q < self.declared().len() ==> maps_dependency(
                self.flat@,
                self.publics@,
                self.hashed(),
                #[trigger] self.declared()[q],
            )
    }

    pub closed spec fn declared(&self) -> Seq<Seq<char>> {
        self.declared_deps@.map_values(|s: String| s@)
    }

    pub closed spec fn known_paths(&self) -> Seq<Seq<char>> {
        self.known@.map_values(|s: String| s@)
    }

    pub closed spec fn hashed(&self) -> Seq<(Seq<char>, Seq<char>)> {
        self.path_map@.map_values(|p: (String, String)| (p.0@, p.1@))
    }

    /// Whether `resolve_path` accepts `unhashed_http_path`: it was declared and names an
    /// asset.
    pub fn can_resolve(&self, unhashed_http_path: &str) -> (r: bool)
        ensures
            r == (self.declared().contains(unhashed_http_path@) && self.known_paths().contains(
                unhashed_http_path@,
            )),
    {
        contains_str(&self.declared_deps, unhashed_http_path) && contains_str(&self.known, unhashed_http_path)
    }

    /// The public path of the asset at `unhashed_http_path`.
    pub fn resolve_path(&self, unhashed_http_path: &str) -> (r: String)
        requires
            self.declared().contains(unhashed_http_path@),
            self.known_paths().contains(unhashed_http_path@),
        ensures
            (exists|i: int|
                0 <= i < self.hashed().len() && self.hashed()[i].0 == unhashed_http_path@
                    && r@ == self.hashed()[i].1) || (r@ == unhashed_http_path@ && forall|i: int|
                0 <= i < self.hashed().len() ==> self.hashed()[i].0 != unhashed_http_path@),
            self.wf() ==> r@ == self.public_of(unhashed_http_path@),
    {
        proof {
            if self.wf() {
                let q = choose|q: int| 0 <= q < self.declared().len() && self.declared()[q] == unhashed_http_path@;
                assert(maps_dependency(self.flat@, self.publics@, self.hashed(), self.declared()[q]));
                let k = choose|k: int| 0 <= k < self.known_paths().len() && self.known_paths()[k] == unhashed_http_path@;
                lemma_found_when_present(flat_paths(self.flat@), unhashed_http_path@, 0, k);
            }
        }
        let key = unhashed_http_path.to_owned();
        let mut i: usize = 0;
        while i < self.path_map.len()
            invariant
                key@ == unhashed_http_path@,
                i <= self.path_map@.len(),
                forall|j: int| 0 <= j < i ==> self.hashed()[j].0 != unhashed_http_path@,
                self.wf() ==> maps_dependency(self.flat@, self.publics@, self.hashed(), unhashed_http_path@)
                    && find_path(flat_paths(self.flat@), unhashed_http_path@, 0) is Some,
            decreases self.path_map@.len() - i,
        {
            if self.path_map[i].0 == key {
                assert(self.hashed()[i as int].0 == unhashed_http_path@);
                proof {
                    if self.wf() {
                        let p = unhashed_http_path@;
                        let j = find_path(flat_paths(self.flat@), p, 0)->Some_0;
                        crate::catalog::lemma_find_path_found(flat_paths(self.flat@), p, 0);
                        if !(self.flat@[j].hash is Unhashed) {
                            let i0 = choose|i0: int|
                                0 <= i0 < self.hashed().len() && #[trigger] self.hashed()[i0] == (p, self.publics@[j])
                                    && forall|i2: int| 0 <= i2 < i0 ==> self.hashed()[i2].0 != p;
                            assert(i0 == i);
                        } else {
                            assert(self.hashed()[i as int].0 != p);
                        }
                    }
                }
                return self.path_map[i].1.clone();
            }
            i = i + 1;
        }
        key
    }

    /// The dependencies declared with the modifier, in order.
    pub fn dependencies(&self) -> (r: &Vec<String>)
        ensures
            r@.map_values(|s: String| s@) == self.declared(),
    {
        &self.declared_deps
    }
}

proof fn lemma_found_when_present(paths: Seq<Seq<char>>, name: Seq<char>, i: int, k: int)
    requires
        0 <= i <= k < paths.len(),
        paths[k] == name,
    ensures
        find_path(paths, name, i) is Some,
    decreases k - i,
{
    if paths[i] != name {
        lemma_found_when_present(paths, name, i + 1, k);
    }
}

fn contains_str(v: &Vec<String>, s: &str) -> (r: bool)
    ensures
        r == v@.map_values(|x: String| x@).contains(s@),
{
    let key = s.to_owned();
    let mut i: usize = 0;
    while i < v.len()
        invariant
            key@ == s@,
            i <= v@.len(),
            forall|j: int| 0 <= j < i ==> v@[j]@ != s@,
        decreases v@.len() - i,
    {
        if v[i] == key {
            assert(v@.map_values(|x: String| x@)[i as int] == s@);
            return true;
        }
        i = i + 1;
    }
    proof {
        let w = v@.map_values(|x: String| x@);
        if w.contains(s@) {
            let j = choose|j: int| 0 <= j < w.len() && w[j] == s@;
            assert(v@[j]@ == s@);
        }
    }
    false
}

/// The content rewrite of `Custom` modifiers, implemented by the caller.
pub trait ContentModifier {
    /// The new content of an asset from entry `entry`, given its loaded `content`; `ctx`
    /// describes the build as far as it has got (see `ModifierContext::wf`).
    fn modify(&self, entry: usize, content: Vec<u8>, ctx: &ModifierContext) -> Vec<u8>
        requires
            ctx.wf(),
            ctx.assets()[ctx.owner()].entry == entry,
    ;
}


/// The modifier for builds without `Custom` modifiers: content stays as loaded.
pub struct KeepContent;

impl ContentModifier for KeepContent {
    fn modify(&self, entry: usize, content: Vec<u8>, ctx: &ModifierContext) -> Vec<u8> {
        content
    }
}

/// How many unhashed paths the entries mount together.
pub open spec fn total_paths(entries: Seq<EntryBuilder>) -> int
    decreases entries.len(),
{
    if entries.len() == 0 {
        0
    } else {
        total_paths(entries.drop_last()) + entries.last().paths_view().len()
    }
}

fn copy_strings(v: &Vec<String>) -> (r: Vec<String>)
    ensures
        r@ == v@,
{
    let mut r: Vec<String> = Vec::new();
    let mut k: usize = 0;
    while k < v.len()
        invariant
            k <= v@.len(),
            r@ == v@.subrange(0, k as int),
        decreases v@.len() - k,
    {
        r.push(v[k].clone());
        assert(v@.subrange(0, k + 1) =~= v@.subrange(0, k as int).push(v@[k as int]));
        k = k + 1;
    }
    assert(v@.subrange(0, v@.len() as int) =~= v@);
    r
}

/// The two modifiers are of one kind and list the same paths.
pub open spec fn same_modifier(a: Modifier, b: Modifier) -> bool {
    &&& a.deps() == b.deps()
    &&& (a is Unmodified <==> b is Unmodified)
    &&& (a is PathFixup <==> b is PathFixup)
    &&& (a is Custom <==> b is Custom)
}

fn copy_modifier(m: &Modifier) -> (r: Modifier)
    ensures
        same_modifier(r, *m),
{
    match m {
        Modifier::Unmodified => Modifier::Unmodified,
        Modifier::PathFixup(d) => Modifier::PathFixup(copy_strings(d)),
        Modifier::Custom(d) => Modifier::Custom(copy_strings(d)),
    }
}

fn copy_hash(h: &PathHash) -> (r: PathHash)
    ensures
        r == *h,
{
    match h {
        PathHash::Unhashed => PathHash::Unhashed,
        PathHash::Auto => PathHash::Auto,
        PathHash::InBetween { prefix, suffix } => PathHash::InBetween {
            prefix: prefix.clone(),
            suffix: suffix.clone(),
        },
    }
}

/// The two sources name the same file or hold the same bytes.
pub open spec fn same_source(a: DataSource, b: DataSource) -> bool {
    match (a, b) {
        (DataSource::File(x), DataSource::File(y)) => x@ == y@,
        (DataSource::Loaded(x), DataSource::Loaded(y)) => x@ == y@,
        _ => false,
    }
}

/// The paths that an entry mounts, each with its source, in order.
pub open spec fn entry_items(e: EntryBuilder) -> Seq<(Seq<char>, DataSource)> {
    match e.kind {
        EntryKind::Single { http_path, source } => seq![(http_path@, source)],
        EntryKind::Glob { http_prefix, files, .. } => files@.map_values(
            |f: GlobFile| (http_prefix@ + f.suffix@, f.source),
        ),
    }
}

/// The items of all entries, entry after entry.
pub open spec fn all_items(entries: Seq<EntryBuilder>) -> Seq<(Seq<char>, DataSource)>
    decreases entries.len(),
{
    if entries.len() == 0 {
        Seq::empty()
    } else {
        all_items(entries.drop_last()) + entry_items(entries.last())
    }
}

fn copy_source(d: &DataSource) -> (r: DataSource)
    ensures
        same_source(r, *d),
{
    match d {
        DataSource::File(p) => DataSource::File(p.clone()),
        DataSource::Loaded(b) => DataSource::Loaded(copy_of(b.as_slice())),
    }
}

impl Builder {
    /// Every asset of every entry, in entry order: a single entry gives one, a glob
    /// entry one per file, mounted at its prefix followed by the file's suffix.
    pub fn flatten(&self) -> (r: Vec<FlatAsset>)
        ensures
            r@.len() == total_paths(self.assets@),
            r@.len() == all_items(self.assets@).len(),
            forall|k: int|
                0 <= k < r@.len() ==> #[trigger] r@[k].path@ == all_items(self.assets@)[k].0
                    && same_source(r@[k].source, all_items(self.assets@)[k].1),
            forall|k: int|
                0 <= k < r@.len() ==> {
                    let e = #[trigger] r@[k].entry;
                    &&& e < self.assets@.len()
                    &&& same_modifier(r@[k].modifier, self.assets@[e as int].modifier)
                    &&& r@[k].hash == self.assets@[e as int].path_hash
                    &&& self.assets@[e as int].paths_view().contains(r@[k].path@)
                },
    {
        let mut r: Vec<FlatAsset> = Vec::new();
        let mut e: usize = 0;
        while e < self.assets.len()
            invariant
                e <= self.assets@.len(),
                r@.len() == total_paths(self.assets@.subrange(0, e as int)),
                r@.len() == all_items(self.assets@.subrange(0, e as int)).len(),
                forall|k: int|
                    0 <= k < r@.len() ==> #[trigger] r@[k].path@ == all_items(self.assets@.subrange(0, e as int))[k].0
                        && same_source(r@[k].source, all_items(self.assets@.subrange(0, e as int))[k].1),
                forall|k: int|
                    0 <= k < r@.len() ==> {
                        let x = #[trigger] r@[k].entry;
                        &&& x < e
                        &&& same_modifier(r@[k].modifier, self.assets@[x as int].modifier)
                        &&& r@[k].hash == self.assets@[x as int].path_hash
                        &&& self.assets@[x as int].paths_view().contains(r@[k].path@)
                    },
            decreases self.assets@.len() - e,
        {
            let entry = &self.assets[e];
            match &entry.kind {
                EntryKind::Single { http_path, source } => {
                    let f = FlatAsset {
                        path: http_path.clone(),
                        source: copy_source(source),
                        modifier: copy_modifier(&entry.modifier),
                        hash: copy_hash(&entry.path_hash),
                        entry: e,
                    };
                    assert(entry.paths_view()[0] == f.path@);
                    let ghost before = r@;
                    r.push(f);
                    proof {
                        let base = all_items(self.assets@.subrange(0, e as int));
                        assert(entry_items(*entry)[0] == (http_path@, *source));
                        assert forall|m: int| 0 <= m < before.len() implies r@[m] == before[m] by {}
                    }
                },
                EntryKind::Glob { http_prefix, files, .. } => {
                    let mut k: usize = 0;
                    while k < files.len()
                        invariant
                            e < self.assets@.len(),
                            *entry == self.assets@[e as int],
                            entry.kind matches EntryKind::Glob { http_prefix: hp, files: fs, .. } && hp == *http_prefix && fs == *files,
                            k <= files@.len(),
                            r@.len() == total_paths(self.assets@.subrange(0, e as int)) + k,
                            r@.len() == all_items(self.assets@.subrange(0, e as int)).len() + k,
                            forall|m: int|
                                0 <= m < all_items(self.assets@.subrange(0, e as int)).len() ==> #[trigger] r@[m].path@
                                    == all_items(self.assets@.subrange(0, e as int))[m].0
                                    && same_source(r@[m].source, all_items(self.assets@.subrange(0, e as int))[m].1),
                            forall|m: int|
                                all_items(self.assets@.subrange(0, e as int)).len() <= m < r@.len() ==> #[trigger] r@[m].path@
                                    == entry_items(*entry)[m - all_items(self.assets@.subrange(0, e as int)).len()].0
                                    && same_source(r@[m].source, entry_items(*entry)[m - all_items(self.assets@.subrange(0, e as int)).len()].1),
                            forall|m: int|
                                0 <= m < r@.len() ==> {
                                    let x = #[trigger] r@[m].entry;
                                    &&& x <= e
                                    &&& same_modifier(r@[m].modifier, self.assets@[x as int].modifier)
                                    &&& r@[m].hash == self.assets@[x as int].path_hash
                                    &&& self.assets@[x as int].paths_view().contains(r@[m].path@)
                                },
                        decreases files@.len() - k,
                    {
                        let f = FlatAsset {
                            path: concat(http_prefix.as_str(), files[k].suffix.as_str()),
                            source: copy_source(&files[k].source),
                            modifier: copy_modifier(&entry.modifier),
                            hash: copy_hash(&entry.path_hash),
                            entry: e,
                        };
                        assert(entry.paths_view()[k as int] == f.path@);
                        assert(entry_items(*entry)[k as int] == (http_prefix@ + files@[k as int].suffix@, files@[k as int].source));
                        let ghost before = r@;
                        r.push(f);
                        proof {
                            assert forall|m: int| 0 <= m < before.len() implies r@[m] == before[m] by {}
                        }
                        k = k + 1;
                    }
                },
            }
            proof {
                let upto = self.assets@.subrange(0, e + 1);
                let before = self.assets@.subrange(0, e as int);
                assert(upto.drop_last() =~= before);
                assert(upto.last() == self.assets@[e as int]);
                assert(all_items(upto) == all_items(before) + entry_items(self.assets@[e as int]));
                assert forall|k: int| 0 <= k < r@.len() implies #[trigger] r@[k].path@ == all_items(upto)[k].0
                    && same_source(r@[k].source, all_items(upto)[k].1) by {
                    if k < all_items(before).len() {
                    } else {
                    }
                }
            }
            e = e + 1;
        }
        assert(self.assets@.subrange(0, e as int) =~= self.assets@);
        assert forall|k: int| 0 <= k < r@.len() implies #[trigger] r@[k].path@ == all_items(self.assets@)[k].0
            && same_source(r@[k].source, all_items(self.assets@)[k].1) by {
            assert(r@[k].path@ == all_items(self.assets@.subrange(0, e as int))[k].0);
        }
        r
    }
}


/// Position of the first asset at `p`.
fn index_of_path(flat: &Vec<FlatAsset>, p: &String) -> (r: Option<usize>)
    ensures
        r matches Some(i) ==> find_path(flat_paths(flat@), p@, 0) == Some(i as int) && i
            < flat@.len(),
        r is None ==> find_path(flat_paths(flat@), p@, 0) is None,
{
    let mut i: usize = 0;
    while i < flat.len()
        invariant
            i <= flat@.len(),
            forall|k: int| 0 <= k < i ==> flat_paths(flat@)[k] != p@,
        decreases flat@.len() - i,
    {
        if flat[i].path == *p {
            proof {
                lemma_find_from(flat_paths(flat@), p@, 0, i as int);
            }
            return Some(i);
        }
        i = i + 1;
    }
    proof {
        lemma_find_from(flat_paths(flat@), p@, 0, i as int);
    }
    None
}

proof fn lemma_find_from(paths: Seq<Seq<char>>, name: Seq<char>, i: int, j: int)
    requires
        0 <= i <= j <= paths.len(),
        forall|k: int| i <= k < j ==> paths[k] != name,
    ensures
        find_path(paths, name, i) == find_path(paths, name, j),
    decreases j - i,
{
    if i < j {
        lemma_find_from(paths, name, i + 1, j);
    }
}

/// `flat` and `publics`: the public path of each asset at `i` is what its content
/// gives, and the content is the loaded bytes as the asset's modifier changes them.
pub open spec fn is_built(
    flat: Seq<FlatAsset>,
    loaded: Seq<Seq<u8>>,
    contents: Seq<Seq<u8>>,
    publics: Seq<Seq<char>>,
    i: int,
) -> bool {
    &&& publics[i] == public_path(flat[i].hash, flat[i].path@, contents[i])
    &&& flat[i].modifier is Unmodified ==> contents[i] == loaded[i]
    &&& flat[i].modifier is PathFixup ==> contents[i] == replaced_all(
        loaded[i],
        fixup_pairs(flat, publics, flat[i].modifier.deps()).map_values(
            |p: (Seq<u8>, Seq<u8>)| p.0,
        ),
        fixup_pairs(flat, publics, flat[i].modifier.deps()).map_values(
            |p: (Seq<u8>, Seq<u8>)| p.1,
        ),
    )
}

/// The first asset whose modifier lists a path that belongs to no asset, with that path;
/// `None` when every listed path belongs to an asset.
pub fn missing_dependency(flat: &Vec<FlatAsset>) -> (r: Option<(String, String)>)
    ensures
        r is None <==> deps_found(flat@),
        r matches Some(p) ==> exists|i: int, q: int|
            0 <= i < flat@.len() && 0 <= q < flat@[i].modifier.deps().len() && p.0@ == flat@[i].path@
                && p.1@ == flat@[i].modifier.deps()[q]@ && find_path(flat_paths(flat@), p.1@, 0) is None,
{
    let mut i: usize = 0;
    while i < flat.len()
        invariant
            i <= flat@.len(),
            forall|a2: int, q: int|
                0 <= a2 < i && 0 <= q < flat@[a2].modifier.deps().len() ==> find_path(
                    flat_paths(flat@),
                    #[trigger] flat@[a2].modifier.deps()[q]@,
                    0,
                ) is Some,
        decreases flat@.len() - i,
    {
        if let Some(deps) = flat[i].modifier.dependencies() {
            let mut k: usize = 0;
            while k < deps.len()
                invariant
                    i < flat@.len(),
                    deps@ == flat@[i as int].modifier.deps(),
                    k <= deps@.len(),
                    forall|a2: int, q: int|
                        0 <= a2 < i && 0 <= q < flat@[a2].modifier.deps().len() ==> find_path(
                            flat_paths(flat@),
                            #[trigger] flat@[a2].modifier.deps()[q]@,
                            0,
                        ) is Some,
                    forall|q: int| 0 <= q < k ==> find_path(flat_paths(flat@), #[trigger] deps@[q]@, 0) is Some,
                decreases deps@.len() - k,
            {
                if index_of_path(flat, &deps[k]).is_none() {
                    return Some((flat[i].path.clone(), deps[k].clone()));
                }
                k = k + 1;
            }
            proof {
                assert forall|a2: int, q: int|
                    0 <= a2 < i + 1 && 0 <= q < flat@[a2].modifier.deps().len() implies find_path(
                        flat_paths(flat@),
                        #[trigger] flat@[a2].modifier.deps()[q]@,
                        0,
                    ) is Some by {
                    if a2 == i {
                        assert(flat@[a2].modifier.deps()[q] == deps@[q]);
                    }
                }
            }
        }
        i = i + 1;
    }
    None
}

/// `ids` is a non-empty cycle of `modifier_depends`.
pub open spec fn is_modifier_cycle(flat: Seq<FlatAsset>, ids: Seq<usize>) -> bool {
    &&& ids.len() > 0
    &&& forall|k: int|
        0 <= k < ids.len() ==> #[trigger] modifier_depends(
            flat,
            ids[k] as int,
            ids[(k + 1) % (ids.len() as int)] as int,
        )
}

/// The bytes of each loaded source.
pub open spec fn loaded_view(loaded: Seq<Vec<u8>>) -> Seq<Seq<u8>> {
    loaded.map_values(|b: Vec<u8>| b@)
}

/// Every asset is built: `contents` and `publics` give each asset's final content and
/// public path.
pub open spec fn built_as(
    flat: Seq<FlatAsset>,
    loaded: Seq<Seq<u8>>,
    contents: Seq<Seq<u8>>,
    publics: Seq<Seq<char>>,
) -> bool {
    &&& contents.len() == flat.len()
    &&& publics.len() == flat.len()
    &&& forall|i: int| 0 <= i < flat.len() ==> #[trigger] is_built(flat, loaded, contents, publics, i)
}

/// No later asset has the public path of asset `i`.
pub open spec fn is_last(publics: Seq<Seq<char>>, i: int) -> bool {
    forall|j: int| i < j < publics.len() ==> publics[j] != #[trigger] publics[i]
}

/// Entry `k` shows asset `i`: its public path, content and whether the path is hashed.
pub open spec fn shows(
    flat: Seq<FlatAsset>,
    contents: Seq<Seq<u8>>,
    publics: Seq<Seq<char>>,
    entry: (String, Asset),
    i: int,
) -> bool {
    &&& entry.0@ == publics[i]
    &&& entry.1.content@ == contents[i]
    &&& entry.1.hashed_filename == !(flat[i].hash is Unhashed)
}

/// Entry `k` shows asset `idx[k]`, which no later asset shares its public path with, and
/// every such asset is shown.
pub open spec fn kept_via(
    flat: Seq<FlatAsset>,
    contents: Seq<Seq<u8>>,
    publics: Seq<Seq<char>>,
    entries: Seq<(String, Asset)>,
    idx: Seq<int>,
) -> bool {
    &&& idx.len() == entries.len()
    &&& forall|k: int|
        0 <= k < idx.len() ==> 0 <= #[trigger] idx[k] < flat.len() && is_last(publics, idx[k])
            && shows(flat, contents, publics, entries[k], idx[k])
    &&& forall|x: int|
        0 <= x < flat.len() && is_last(publics, x) ==> exists|k: int|
            0 <= k < idx.len() && #[trigger] idx[k] == x
}

/// The entries show, in order, the assets whose public path no later asset has: for
/// each public path the last asset with it.
pub open spec fn kept_last(
    flat: Seq<FlatAsset>,
    contents: Seq<Seq<u8>>,
    publics: Seq<Seq<char>>,
    entries: Seq<(String, Asset)>,
) -> bool {
    exists|idx: Seq<int>| #[trigger] kept_via(flat, contents, publics, entries, idx)
}

proof fn lemma_kept_last(
    fv: Seq<FlatAsset>,
    cv: Seq<Seq<u8>>,
    pv: Seq<Seq<char>>,
    entries: Seq<(String, Asset)>,
    idx: Seq<int>,
)
    requires
        pv.len() == fv.len(),
        idx.len() == entries.len(),
        forall|k: int|
            0 <= k < idx.len() ==> 0 <= #[trigger] idx[k] < fv.len() && is_last(pv, idx[k]) && shows(
                fv,
                cv,
                pv,
                entries[k],
                idx[k],
            ),
        forall|k1: int, k2: int| 0 <= k1 < k2 < idx.len() ==> idx[k1] < idx[k2],
        forall|x: int|
            0 <= x < fv.len() && is_last(pv, x) ==> exists|k: int| 0 <= k < idx.len() && #[trigger] idx[k] == x,
    ensures
        kept_last(fv, cv, pv, entries),
        forall|k1: int, k2: int| 0 <= k1 < k2 < entries.len() ==> entries[k1].0@ != entries[k2].0@,
{
    assert(kept_via(fv, cv, pv, entries, idx));
    lemma_kept_distinct(fv, cv, pv, entries, idx);
}

proof fn lemma_kept_distinct(
    fv: Seq<FlatAsset>,
    cv: Seq<Seq<u8>>,
    pv: Seq<Seq<char>>,
    entries: Seq<(String, Asset)>,
    idx: Seq<int>,
)
    requires
        pv.len() == fv.len(),
        idx.len() == entries.len(),
        forall|k: int|
            0 <= k < idx.len() ==> 0 <= #[trigger] idx[k] < fv.len() && is_last(pv, idx[k]) && shows(
                fv,
                cv,
                pv,
                entries[k],
                idx[k],
            ),
        forall|k1: int, k2: int| 0 <= k1 < k2 < idx.len() ==> idx[k1] < idx[k2],
        forall|x: int|
            0 <= x < fv.len() && is_last(pv, x) ==> exists|k: int| 0 <= k < idx.len() && #[trigger] idx[k] == x,
    ensures
        forall|k1: int, k2: int| 0 <= k1 < k2 < entries.len() ==> entries[k1].0@ != entries[k2].0@,
{
    assert forall|k1: int, k2: int| 0 <= k1 < k2 < entries.len() implies entries[k1].0@ != entries[k2].0@ by {
        let a = idx[k1];
        let b = idx[k2];
        assert(0 <= a < fv.len() && shows(fv, cv, pv, entries[k1], a));
        assert(0 <= b < fv.len() && shows(fv, cv, pv, entries[k2], b));
        assert(a < b);
        assert(is_last(pv, a));
        assert(pv[b] != pv[a]);
    }
}

fn keep_last(flat: &Vec<FlatAsset>, contents: &Vec<Vec<u8>>, publics: &Vec<String>) -> (entries: Vec<(String, Asset)>)
    requires
        contents@.len() == flat@.len(),
        publics@.len() == flat@.len(),
    ensures
        kept_last(
            flat@,
            contents@.map_values(|b: Vec<u8>| b@),
            publics@.map_values(|s: String| s@),
            entries@,
        ),
        forall|k1: int, k2: int|
            0 <= k1 < k2 < entries@.len() ==> entries@[k1].0@ != entries@[k2].0@,
{
    let n = flat.len();
    let ghost fv = flat@;
    let ghost cv = contents@.map_values(|b: Vec<u8>| b@);
    let ghost pv = publics@.map_values(|s: String| s@);
        let mut entries: Vec<(String, Asset)> = Vec::new();
        let ghost mut idx: Seq<int> = Seq::empty();
        let mut i: usize = 0;
        while i < n
            invariant
                n == fv.len(),
                fv == flat@,
                contents@.len() == n,
                publics@.len() == n,
                cv == contents@.map_values(|b: Vec<u8>| b@),
                pv == publics@.map_values(|s: String| s@),
                i <= n,
                idx.len() == entries@.len(),
                forall|k: int|
                    0 <= k < idx.len() ==> 0 <= #[trigger] idx[k] < i && is_last(pv, idx[k]) && shows(
                        fv,
                        cv,
                        pv,
                        entries@[k],
                        idx[k],
                    ),
                forall|k1: int, k2: int| 0 <= k1 < k2 < idx.len() ==> idx[k1] < idx[k2],
                forall|x: int|
                    0 <= x < i && is_last(pv, x) ==> exists|k: int| 0 <= k < idx.len() && #[trigger] idx[k] == x,
            decreases n - i,
        {
            let mut last = true;
            let mut j = i + 1;
            while j < n && last
                invariant
                    n == publics@.len(),
                    pv == publics@.map_values(|s: String| s@),
                    i < n,
                    i + 1 <= j <= n,
                    forall|m: int| i < m < j ==> pv[m] != pv[i as int],
                    !last ==> j < n && pv[j as int] == pv[i as int],
                decreases n - j + if last { 1int } else { 0int },
            {
                if publics[j] == publics[i] {
                    last = false;
                } else {
                    j = j + 1;
                }
            }
            proof {
                if last {
                    assert forall|m: int| i < m < pv.len() implies pv[m] != #[trigger] pv[i as int] by {}
                    assert(is_last(pv, i as int));
                } else {
                    assert(!is_last(pv, i as int));
                }
            }
            if last {
                let hashed = flat[i].hash.is_hashed();
                let ghost before = entries@;
                let ghost idx0 = idx;
                let name = publics[i].clone();
                let body = copy_of(contents[i].as_slice());
                entries.push((name, Asset { content: body, hashed_filename: hashed }));
                proof {
                    idx = idx.push(i as int);
                    assert(shows(fv, cv, pv, entries@[before.len() as int], i as int));
                    assert forall|k: int| 0 <= k < idx.len() implies 0 <= #[trigger] idx[k] < i + 1 && is_last(pv, idx[k]) && shows(
                        fv,
                        cv,
                        pv,
                        entries@[k],
                        idx[k],
                    ) by {
                        if k < before.len() {
                            assert(entries@[k] == before[k]);
                            assert(idx[k] == idx0[k]);
                        }
                    }
                    assert forall|x: int|
                        0 <= x < i + 1 && is_last(pv, x) implies exists|k: int| 0 <= k < idx.len() && #[trigger] idx[k] == x by {
                        if x == i {
                            assert(idx[idx.len() - 1] == x);
                        } else {
                            let k = choose|k: int| 0 <= k < idx0.len() && idx0[k] == x;
                            assert(idx[k] == x);
                        }
                    }
                }
            }
            i = i + 1;
        }
        proof {
            lemma_kept_last(fv, cv, pv, entries@, idx);
        }
    entries
}

/// `e` describes a defect of the configuration.
pub open spec fn build_reports(flat: Seq<FlatAsset>, e: BuildError) -> bool {
    match e {
        BuildError::CyclicDependencies(names) => exists|ids: Seq<usize>|
            #[trigger] is_modifier_cycle(flat, ids) && ids.no_duplicates() && names@.len() == ids.len() && forall|k: int|
                0 <= k < ids.len() ==> #[trigger] names@[k]@ == flat[ids[k] as int].path@,
        BuildError::Fixup { asset } => exists|i: int|
            0 <= i < flat.len() && asset@ == flat[i].path@ && flat[i].modifier is PathFixup
                && !ac_builds(#[trigger] fixup_patterns(flat, flat[i].modifier.deps())),
    }
}

/// Every path that a modifier lists belongs to an asset.
pub open spec fn deps_found(flat: Seq<FlatAsset>) -> bool {
    forall|i: int, q: int|
        0 <= i < flat.len() && 0 <= q < flat[i].modifier.deps().len() ==> find_path(
            flat_paths(flat),
            #[trigger] flat[i].modifier.deps()[q]@,
            0,
        ) is Some
}

/// No asset lies on a cycle of `modifier_depends`.
pub open spec fn modifiers_acyclic(flat: Seq<FlatAsset>) -> bool {
    forall|ids: Seq<usize>| !#[trigger] is_modifier_cycle(flat, ids)
}

/// The patterns of a path fixup listing `deps`: the listed paths of assets with a hashed
/// public path, as UTF-8 bytes (the first parts of `fixup_pairs`).
pub open spec fn fixup_patterns(flat: Seq<FlatAsset>, deps: Seq<String>) -> Seq<Seq<u8>>
    decreases deps.len(),
{
    if deps.len() == 0 {
        Seq::empty()
    } else {
        let rest = fixup_patterns(flat, deps.drop_last());
        let p = deps.last()@;
        match find_path(flat_paths(flat), p, 0) {
            Some(j) => if !(flat[j].hash is Unhashed) {
                rest.push(encode_utf8(p))
            } else {
                rest
            },
            None => rest,
        }
    }
}

proof fn lemma_fixup_patterns(flat: Seq<FlatAsset>, publics: Seq<Seq<char>>, deps: Seq<String>)
    ensures
        fixup_pairs(flat, publics, deps).map_values(|p: (Seq<u8>, Seq<u8>)| p.0) == fixup_patterns(
            flat,
            deps,
        ),
    decreases deps.len(),
{
    if deps.len() > 0 {
        lemma_fixup_patterns(flat, publics, deps.drop_last());
        let rest = fixup_pairs(flat, publics, deps.drop_last());
        let p = deps.last()@;
        if let Some(j) = find_path(flat_paths(flat), p, 0) {
            if !(flat[j].hash is Unhashed) {
                assert(rest.push((encode_utf8(p), encode_utf8(publics[j]))).map_values(
                    |q: (Seq<u8>, Seq<u8>)| q.0,
                ) =~= rest.map_values(|q: (Seq<u8>, Seq<u8>)| q.0).push(encode_utf8(p)));
            }
        }
    }
}

proof fn lemma_fixup_frame(
    flat: Seq<FlatAsset>,
    pubs1: Seq<Seq<char>>,
    pubs2: Seq<Seq<char>>,
    deps: Seq<String>,
)
    requires
        forall|k: int, j: int|
            0 <= k < deps.len() && find_path(flat_paths(flat), deps[k]@, 0) == Some(j) ==> pubs1[j]
                == pubs2[j],
    ensures
        fixup_pairs(flat, pubs1, deps) == fixup_pairs(flat, pubs2, deps),
    decreases deps.len(),
{
    if deps.len() > 0 {
        let d = deps.drop_last();
        assert forall|k: int, j: int|
            0 <= k < d.len() && find_path(flat_paths(flat), d[k]@, 0) == Some(j) implies pubs1[j]
            == pubs2[j] by {
            assert(d[k] == deps[k]);
        }
        lemma_fixup_frame(flat, pubs1, pubs2, d);
        if let Some(j) = find_path(flat_paths(flat), deps.last()@, 0) {
            assert(deps.last() == deps[deps.len() - 1]);
        }
    }
}

impl Builder {
    /// Builds the assets of `flat` (see `flatten`) whose sources held `loaded`, in an
    /// order in which each asset comes after those its modifier lists. The result holds
    /// the assets in the order of `flat`; `custom` rewrites the content of assets with a
    /// `Custom` modifier.
    #[verifier::rlimit(100)]
    pub fn build_loaded<M: ContentModifier>(
        flat: &Vec<FlatAsset>,
        loaded: &Vec<Vec<u8>>,
        custom: &M,
    ) -> (r: Result<Assets, BuildError>)
        requires
            loaded@.len() == flat@.len(),
            deps_found(flat@),
        ensures
            !modifiers_acyclic(flat@) ==> (r matches Err(e) && e is CyclicDependencies),
            r matches Ok(a) ==> exists|contents: Seq<Seq<u8>>, publics: Seq<Seq<char>>|
                #[trigger] built_as(flat@, loaded_view(loaded@), contents, publics)
                    && kept_last(flat@, contents, publics, a.entries@),
            r matches Ok(a) ==> forall|k1: int, k2: int|
                0 <= k1 < k2 < a.entries@.len() ==> a.entries@[k1].0@ != a.entries@[k2].0@,
            r matches Err(e) ==> build_reports(flat@, e),
            (forall|e: BuildError| !build_reports(flat@, e)) ==> r is Ok,
            r is Ok ==> modifiers_acyclic(flat@),
            r is Ok ==> forall|e: BuildError| !build_reports(flat@, e),
    {
        let n = flat.len();
        let ghost fv = flat@;
        let ghost lv = loaded@.map_values(|b: Vec<u8>| b@);
        // The graph: an edge from each asset to each asset its modifier lists.
        let mut graph = IdGraph::new();
        if n > 0 {
            graph.add_node(n - 1);
        }
        let mut i: usize = 0;
        while i < n
            invariant
                n == flat@.len(),
                fv == flat@,
                deps_found(fv),
                graph.wf(),
                graph@.len() == n,
                i <= n,
                forall|a: int, b: int| #[trigger] has_edge(graph@, a, b) ==> modifier_depends(fv, a, b),
                forall|a: int, b: int|
                    0 <= a < i && #[trigger] modifier_depends(fv, a, b) ==> has_edge(graph@, a, b),
                forall|a2: int, q: int|
                    0 <= a2 < i && 0 <= q < fv[a2].modifier.deps().len() ==> find_path(
                        flat_paths(fv),
                        #[trigger] fv[a2].modifier.deps()[q]@,
                        0,
                    ) is Some,
            decreases n - i,
        {
            let deps: &Vec<String> = match &flat[i].modifier {
                Modifier::Unmodified => {
                    proof {
                        assert forall|a: int, b: int|
                            0 <= a < i + 1 && #[trigger] modifier_depends(fv, a, b) implies has_edge(
                                graph@,
                                a,
                                b,
                            ) by {
                            if a == i {
                                assert(fv[a].modifier.deps().len() == 0);
                            }
                        }
                    }
                    i = i + 1;
                    continue;
                },
                Modifier::PathFixup(d) => d,
                Modifier::Custom(d) => d,
            };
            assert(deps@ == fv[i as int].modifier.deps());
            let mut k: usize = 0;
            while k < deps.len()
                invariant
                    n == flat@.len(),
                    fv == flat@,
                    deps_found(fv),
                    i < n,
                    deps@ == fv[i as int].modifier.deps(),
                    graph.wf(),
                    graph@.len() == n,
                    k <= deps@.len(),
                    forall|a: int, b: int| #[trigger] has_edge(graph@, a, b) ==> modifier_depends(fv, a, b),
                    forall|a: int, b: int|
                        0 <= a < i && #[trigger] modifier_depends(fv, a, b) ==> has_edge(graph@, a, b),
                    forall|m: int, b: int|
                        0 <= m < k && find_path(flat_paths(fv), deps@[m]@, 0) == Some(b) ==> has_edge(
                            graph@,
                            i as int,
                            b,
                        ),
                    forall|a2: int, q: int|
                        0 <= a2 < i && 0 <= q < fv[a2].modifier.deps().len() ==> find_path(
                            flat_paths(fv),
                            #[trigger] fv[a2].modifier.deps()[q]@,
                            0,
                        ) is Some,
                    forall|q: int| 0 <= q < k ==> find_path(flat_paths(fv), #[trigger] deps@[q]@, 0) is Some,
                decreases deps@.len() - k,
            {
                match index_of_path(flat, &deps[k]) {
                    Some(j) => {
                        let ghost before = graph@;
                        graph.add_edge(i, j);
                        proof {
                            assert(modifier_depends(fv, i as int, j as int));
                            assert forall|a: int, b: int| #[trigger] has_edge(graph@, a, b) implies modifier_depends(fv, a, b) by {
                                if has_edge(before, a, b) {}
                            }
                            assert forall|a: int, b: int| 0 <= a < i && #[trigger] modifier_depends(fv, a, b) implies has_edge(graph@, a, b) by {
                                assert(has_edge(before, a, b));
                            }
                            assert forall|m: int, b: int|
                                0 <= m < k + 1 && find_path(flat_paths(fv), deps@[m]@, 0) == Some(b) implies has_edge(
                                    graph@,
                                    i as int,
                                    b,
                                ) by {
                                if m < k {
                                    assert(has_edge(before, i as int, b));
                                }
                            }
                        }
                    },
                    None => {
                        proof {
                            assert(fv[i as int].modifier.deps()[k as int] == deps@[k as int]);
                            assert(find_path(flat_paths(fv), deps@[k as int]@, 0) is Some);
                        }
                    },
                }
                k = k + 1;
            }
            proof {
                assert forall|a2: int, q: int|
                    0 <= a2 < i + 1 && 0 <= q < fv[a2].modifier.deps().len() implies find_path(
                        flat_paths(fv),
                        #[trigger] fv[a2].modifier.deps()[q]@,
                        0,
                    ) is Some by {
                    if a2 == i {
                        assert(fv[a2].modifier.deps()[q] == deps@[q]);
                    }
                }
                assert forall|a: int, b: int|
                    0 <= a < i + 1 && #[trigger] modifier_depends(fv, a, b) implies has_edge(graph@, a, b) by {
                    if a == i {
                        let m = choose|m: int|
                            0 <= m < fv[a].modifier.deps().len() && find_path(
                                flat_paths(fv),
                                fv[a].modifier.deps()[m]@,
                                0,
                            ) == Some(b);
                    }
                }
            }
            i = i + 1;
        }
        let order = match graph.topological_sort() {
            Ok(o) => o,
            Err(ids) => {
                let mut names: Vec<String> = Vec::new();
                let mut k: usize = 0;
                let ghost len = ids@.len() as int;
                proof {
                    assert forall|m: int| 0 <= m < len implies #[trigger] modifier_depends(
                        fv,
                        ids@[m] as int,
                        ids@[(m + 1) % len] as int,
                    ) && ids@[m] < n by {
                        assert(has_edge(graph@, ids@[m] as int, ids@[(m + 1) % len] as int));
                    }
                }
                while k < ids.len()
                    invariant
                        n == flat@.len(),
                        fv == flat@,
                        len == ids@.len(),
                        k <= ids@.len(),
                        names@.len() == k,
                        forall|m: int| 0 <= m < len ==> #[trigger] modifier_depends(
                            fv,
                            ids@[m] as int,
                            ids@[(m + 1) % len] as int,
                        ) && ids@[m] < n,
                        forall|m: int| 0 <= m < k ==> #[trigger] names@[m]@ == fv[ids@[m] as int].path@,
                    decreases ids@.len() - k,
                {
                    proof {
                        assert(modifier_depends(fv, ids@[k as int] as int, ids@[(k + 1) % len] as int));
                    }
                    names.push(flat[ids[k]].path.clone());
                    k = k + 1;
                }
                let e = BuildError::CyclicDependencies(names);
                proof {
                    assert(is_modifier_cycle(fv, ids@));
                    assert(build_reports(fv, e));
                }
                return Err(e);
            },
        };
        proof {
            crate::graph::lemma_distinct_nodes(order@, n as nat);
            crate::graph::lemma_ordered_graph_is_acyclic(graph@, order@);
            assert forall|ids: Seq<usize>| !#[trigger] is_modifier_cycle(fv, ids) by {
                if is_modifier_cycle(fv, ids) {
                    let len = ids.len() as int;
                    assert forall|k: int| 0 <= k < len implies #[trigger] has_edge(
                        graph@,
                        ids[k] as int,
                        ids[(k + 1) % len] as int,
                    ) by {
                        let a = ids[k] as int;
                        let b = ids[(k + 1) % len] as int;
                        assert(modifier_depends(fv, a, b));
                        let m = choose|m: int|
                            0 <= m < fv[a].modifier.deps().len() && find_path(
                                flat_paths(fv),
                                fv[a].modifier.deps()[m]@,
                                0,
                            ) == Some(b);
                        crate::catalog::lemma_find_path_found(flat_paths(fv), fv[a].modifier.deps()[m]@, 0);
                    }
                    assert(crate::graph::is_cycle(graph@, ids));
                }
            }
            assert(modifiers_acyclic(fv));
            assert(deps_found(fv));
        }
        let mut contents: Vec<Vec<u8>> = Vec::new();
        let mut publics: Vec<String> = Vec::new();
        let mut known: Vec<String> = Vec::new();
        let mut i: usize = 0;
        while i < n
            invariant
                n == flat@.len(),
                fv == flat@,
                deps_found(fv),
                modifiers_acyclic(fv),
                i <= n,
                contents@.len() == i,
                publics@.len() == i,
                known@.len() == i,
                forall|m: int| 0 <= m < i ==> #[trigger] known@[m]@ == fv[m].path@,
            decreases n - i,
        {
            contents.push(Vec::new());
            publics.push(flat[i].path.clone());
            known.push(flat[i].path.clone());
            i = i + 1;
        }
        assert(known@.map_values(|s: String| s@) =~= flat_paths(fv));
        let mut path_map: Vec<(String, String)> = Vec::new();
        let ghost mut pm_owner: Seq<int> = Seq::empty();
        let ghost mut done: Seq<bool> = Seq::new(n as nat, |x: int| false);
        let mut k: usize = 0;
        while k < n
            invariant
                n == flat@.len(),
                fv == flat@,
                lv == loaded@.map_values(|b: Vec<u8>| b@),
                loaded@.len() == n,
                graph.wf(),
                graph@.len() == n,
                forall|a: int, b: int| #[trigger] has_edge(graph@, a, b) ==> modifier_depends(fv, a, b),
                forall|a: int, b: int|
                    0 <= a < n && #[trigger] modifier_depends(fv, a, b) ==> has_edge(graph@, a, b),
                is_topological_order(graph@, order@),
                forall|v: usize| (v as nat) < n ==> order@.contains(v),
                k <= n,
                contents@.len() == n,
                publics@.len() == n,
                done.len() == n,
                forall|x: int| 0 <= x < n ==> (#[trigger] done[x] <==> order@.subrange(0, k as int).contains(x as usize)),
                forall|x: int|
                    0 <= x < n && #[trigger] done[x] ==> is_built(
                        fv,
                        lv,
                        contents@.map_values(|b: Vec<u8>| b@),
                        publics@.map_values(|s: String| s@),
                        x,
                    ),
                forall|x: int, y: int|
                    0 <= x < n && done[x] && #[trigger] modifier_depends(fv, x, y) ==> 0 <= y < n && done[y],
                deps_found(fv),
                modifiers_acyclic(fv),
                forall|x: int|
                    0 <= x < n && #[trigger] done[x] && fv[x].modifier is PathFixup ==> ac_builds(
                        fixup_patterns(fv, fv[x].modifier.deps()),
                    ),
                known@.map_values(|s: String| s@) == flat_paths(fv),
                pm_owner.len() == path_map@.len(),
                forall|i: int|
                    0 <= i < pm_owner.len() ==> {
                        let x = #[trigger] pm_owner[i];
                        &&& 0 <= x < n
                        &&& done[x]
                        &&& !(fv[x].hash is Unhashed)
                        &&& find_path(flat_paths(fv), fv[x].path@, 0) == Some(x)
                        &&& path_map@[i].0@ == fv[x].path@
                        &&& path_map@[i].1@ == publics@[x]@
                    },
                forall|i: int, i2: int| #![trigger path_map@[i].0@, path_map@[i2].0@]
                    0 <= i < i2 < path_map@.len() ==> path_map@[i].0@ != path_map@[i2].0@,
                forall|x: int|
                    0 <= x < n && #[trigger] done[x] && !(fv[x].hash is Unhashed) && find_path(
                        flat_paths(fv),
                        fv[x].path@,
                        0,
                    ) == Some(x) ==> exists|i: int| 0 <= i < pm_owner.len() && pm_owner[i] == x,
            decreases n - k,
        {
            let id = order[k];
            proof {
                assert forall|y: int| #[trigger] modifier_depends(fv, id as int, y) implies 0 <= y < n && done[y] && y != id by {
                    let m = choose|m: int|
                        0 <= m < fv[id as int].modifier.deps().len() && find_path(
                            flat_paths(fv),
                            fv[id as int].modifier.deps()[m]@,
                            0,
                        ) == Some(y);
                    crate::catalog::lemma_find_path_found(flat_paths(fv), fv[id as int].modifier.deps()[m]@, 0);
                    assert(has_edge(graph@, id as int, y));
                    assert(order@.contains(y as usize));
                    let j = choose|j: int| 0 <= j < order@.len() && order@[j] == y as usize;
                    assert(j < k);
                    assert(order@.subrange(0, k as int)[j] == y as usize);
                }
                assert(!done[id as int]) by {
                    if done[id as int] {
                        let j = choose|j: int| 0 <= j < k && order@.subrange(0, k as int)[j] == id;
                        assert(order@[j] == order@[k as int]);
                    }
                }
            }
            let ghost pubs0 = publics@.map_values(|s: String| s@);
            let raw = copy_of(loaded[id].as_slice());
            let content = match &flat[id].modifier {
                Modifier::Unmodified => raw,
                Modifier::PathFixup(deps) => {
                    let mut needles: Vec<Vec<u8>> = Vec::new();
                    let mut reps: Vec<Vec<u8>> = Vec::new();
                    let mut m: usize = 0;
                    while m < deps.len()
                        invariant
                            n == flat@.len(),
                            fv == flat@,
                            publics@.len() == n,
                            pubs0 == publics@.map_values(|s: String| s@),
                            m <= deps@.len(),
                            needles@.len() == reps@.len(),
                            fixup_pairs(fv, pubs0, deps@.subrange(0, m as int)).map_values(|p: (Seq<u8>, Seq<u8>)| p.0)
                                == needles@.map_values(|v: Vec<u8>| v@),
                            fixup_pairs(fv, pubs0, deps@.subrange(0, m as int)).map_values(|p: (Seq<u8>, Seq<u8>)| p.1)
                                == reps@.map_values(|v: Vec<u8>| v@),
                        decreases deps@.len() - m,
                    {
                        let ghost sub = deps@.subrange(0, m + 1);
                        proof {
                            assert(sub.drop_last() =~= deps@.subrange(0, m as int));
                            assert(sub.last() == deps@[m as int]);
                        }
                        match index_of_path(flat, &deps[m]) {
                            Some(j) => {
                                if flat[j].hash.is_hashed() {
                                    let ghost n0 = needles@.map_values(|v: Vec<u8>| v@);
                                    let ghost r0 = reps@.map_values(|v: Vec<u8>| v@);
                                    let nb = copy_of(deps[m].as_str().as_bytes());
                                    let rb = copy_of(publics[j].as_str().as_bytes());
                                    assert(nb@ == encode_utf8(deps@[m as int]@));
                                    assert(rb@ == encode_utf8(pubs0[j as int]));
                                    needles.push(nb);
                                    reps.push(rb);
                                    proof {
                                        let f = fixup_pairs(fv, pubs0, sub);
                                        let rest = fixup_pairs(fv, pubs0, deps@.subrange(0, m as int));
                                        assert(f == rest.push((encode_utf8(deps@[m as int]@), encode_utf8(pubs0[j as int]))));
                                        assert(needles@.map_values(|v: Vec<u8>| v@) =~= n0.push(nb@));
                                        assert(reps@.map_values(|v: Vec<u8>| v@) =~= r0.push(rb@));
                                        assert(f.map_values(|p: (Seq<u8>, Seq<u8>)| p.0) =~= needles@.map_values(|v: Vec<u8>| v@));
                                        assert(f.map_values(|p: (Seq<u8>, Seq<u8>)| p.1) =~= reps@.map_values(|v: Vec<u8>| v@));
                                    }
                                }
                            },
                            None => {},
                        }
                        m = m + 1;
                    }
                    assert(deps@.subrange(0, deps@.len() as int) =~= deps@);
                    proof {
                        assert(deps@ == fv[id as int].modifier.deps());
                        lemma_fixup_patterns(fv, pubs0, deps@);
                        assert(needles@.map_values(|v: Vec<u8>| v@) == fixup_patterns(fv, deps@));
                    }
                    match crate::util::replace_all(raw.as_slice(), &needles, &reps) {
                        Some(v) => v,
                        None => {
                            let e = BuildError::Fixup { asset: flat[id].path.clone() };
                            proof {
                                assert(!ac_builds(fixup_patterns(fv, fv[id as int].modifier.deps())));
                                assert(build_reports(fv, e));
                            }
                            return Err(e);
                        },
                    }
                },
                Modifier::Custom(deps) => {
                    let ghost hv = path_map@.map_values(|p: (String, String)| (p.0@, p.1@));
                    let ghost dv = deps@.map_values(|s: String| s@);
                    proof {
                        assert(deps@ == fv[id as int].modifier.deps());
                        assert forall|q: int| 0 <= q < dv.len() implies maps_dependency(
                            fv,
                            pubs0,
                            hv,
                            #[trigger] dv[q],
                        ) by {
                            let d = deps@[q]@;
                            assert(dv[q] == d);
                            crate::catalog::lemma_find_path_found(flat_paths(fv), d, 0);
                            if let Some(j) = find_path(flat_paths(fv), d, 0) {
                                assert(modifier_depends(fv, id as int, j));
                                assert(fv[j].path@ == d);
                                if !(fv[j].hash is Unhashed) {
                                    assert(done[j]);
                                    let i = choose|i: int| 0 <= i < pm_owner.len() && pm_owner[i] == j;
                                    assert(hv[i] == (d, pubs0[j]));
                                    assert forall|i2: int| 0 <= i2 < i implies hv[i2].0 != d by {
                                        assert(path_map@[i2].0@ != path_map@[i].0@);
                                    }
                                } else {
                                    assert forall|i: int| 0 <= i < hv.len() implies #[trigger] hv[i].0 != d by {
                                        let x = pm_owner[i];
                                        if hv[i].0 == d {
                                            assert(fv[x].path@ == d);
                                        }
                                    }
                                }
                            }
                        }
                    }
                    let ctx = ModifierContext {
                        declared_deps: copy_strings(deps),
                        path_map: copy_pairs(&path_map),
                        known: copy_strings(&known),
                        flat: Ghost(fv),
                        publics: Ghost(pubs0),
                        owner: Ghost(id as int),
                    };
                    proof {
                        assert(ctx.declared() =~= fv[id as int].modifier.deps().map_values(|s: String| s@));
                        assert(ctx.declared() == dv);
                        assert(ctx.known_paths() == flat_paths(fv));
                        assert(ctx.hashed() == hv);
                    }
                    custom.modify(flat[id].entry, raw, &ctx)
                },
            };
            let public = path_of(&flat[id].hash, flat[id].path.as_str(), content.as_slice());
            let first = match index_of_path(flat, &flat[id].path) {
                Some(j) => j == id,
                None => false,
            };
            let ghost pm0 = path_map@;
            let ghost own0 = pm_owner;
            if flat[id].hash.is_hashed() && first {
                path_map.push((flat[id].path.clone(), public.clone()));
                proof {
                    pm_owner = pm_owner.push(id as int);
                }
            }
            let ghost c0 = contents@.map_values(|b: Vec<u8>| b@);
            contents.set(id, content);
            publics.set(id, public);
            proof {
                crate::catalog::lemma_find_path_found(flat_paths(fv), fv[id as int].path@, 0);
                assert forall|i: int, i2: int| #![trigger path_map@[i].0@, path_map@[i2].0@]
                    0 <= i < i2 < path_map@.len() implies path_map@[i].0@ != path_map@[i2].0@ by {
                    if i2 == pm0.len() {
                        let x = own0[i];
                        assert(pm_owner[i] == x);
                        assert(path_map@[i] == pm0[i]);
                    } else {
                        assert(path_map@[i] == pm0[i]);
                        assert(path_map@[i2] == pm0[i2]);
                    }
                }
            }
            proof {
                let c1 = contents@.map_values(|b: Vec<u8>| b@);
                let pubs1 = publics@.map_values(|s: String| s@);
                assert(c1 =~= c0.update(id as int, c1[id as int]));
                assert(pubs1 =~= pubs0.update(id as int, pubs1[id as int]));
                assert forall|x: int| 0 <= x < n && (done[x] || x == id) implies is_built(fv, lv, c1, pubs1, x) by {
                    let deps = fv[x].modifier.deps();
                    assert forall|q: int, j: int|
                        0 <= q < deps.len() && find_path(flat_paths(fv), deps[q]@, 0) == Some(j) implies pubs0[j] == pubs1[j] by {
                        assert(modifier_depends(fv, x, j));
                    }
                    lemma_fixup_frame(fv, pubs0, pubs1, deps);
                }
                done = done.update(id as int, true);
                assert forall|i: int| 0 <= i < pm_owner.len() implies {
                    let x = #[trigger] pm_owner[i];
                    &&& 0 <= x < n
                    &&& done[x]
                    &&& !(fv[x].hash is Unhashed)
                    &&& find_path(flat_paths(fv), fv[x].path@, 0) == Some(x)
                    &&& path_map@[i].0@ == fv[x].path@
                    &&& path_map@[i].1@ == publics@[x]@
                } by {
                    if i < own0.len() {
                        assert(pm_owner[i] == own0[i]);
                        assert(path_map@[i] == pm0[i]);
                        assert(pubs1[own0[i]] == pubs0[own0[i]]);
                    }
                }
                assert forall|x: int|
                    0 <= x < n && #[trigger] done[x] && !(fv[x].hash is Unhashed) && find_path(
                        flat_paths(fv),
                        fv[x].path@,
                        0,
                    ) == Some(x) implies exists|i: int| 0 <= i < pm_owner.len() && pm_owner[i] == x by {
                    if x == id {
                        assert(pm_owner[pm_owner.len() - 1] == x);
                    } else {
                        let i = choose|i: int| 0 <= i < own0.len() && own0[i] == x;
                        assert(pm_owner[i] == x);
                    }
                }
                let s0 = order@.subrange(0, k as int);
                let s1 = order@.subrange(0, k + 1);
                assert(s1 =~= s0.push(id));
                assert forall|x: int| 0 <= x < n implies (#[trigger] done[x] <==> s1.contains(x as usize)) by {
                    if x != id {
                        if s1.contains(x as usize) {
                            let j = choose|j: int| 0 <= j < s1.len() && s1[j] == x as usize;
                            assert(s0[j] == x as usize);
                        }
                        if s0.contains(x as usize) {
                            let j = choose|j: int| 0 <= j < s0.len() && s0[j] == x as usize;
                            assert(s1[j] == x as usize);
                        }
                    } else {
                        assert(s1[k as int] == id);
                    }
                }
            }
            k = k + 1;
        }
        proof {
            assert(order@.subrange(0, n as int) =~= order@);
            assert forall|x: int| 0 <= x < n && fv[x].modifier is PathFixup implies ac_builds(
                #[trigger] fixup_patterns(fv, fv[x].modifier.deps()),
            ) by {
                assert(order@.contains(x as usize));
                assert(done[x]);
            }
        }
        let ghost cv = contents@.map_values(|b: Vec<u8>| b@);
        let ghost pv = publics@.map_values(|s: String| s@);
        proof {
            assert(order@.subrange(0, n as int) =~= order@);
            assert forall|x: int| 0 <= x < n implies #[trigger] is_built(fv, lv, cv, pv, x) by {
                assert(order@.contains(x as usize));
                assert(done[x]);
            }
            assert(built_as(fv, lv, cv, pv));
        }
        let entries = keep_last(flat, &contents, &publics);
        assert(kept_last(fv, cv, pv, entries@));
        assert(lv == loaded_view(loaded@));
        assert(built_as(fv, loaded_view(loaded@), cv, pv) && kept_last(fv, cv, pv, entries@));
        proof {
            assert forall|e: BuildError| !build_reports(fv, e) by {
                match e {
                    BuildError::CyclicDependencies(names) => {
                        if build_reports(fv, e) {
                            let ids = choose|ids: Seq<usize>|
                                #[trigger] is_modifier_cycle(fv, ids) && ids.no_duplicates() && names@.len() == ids.len()
                                    && forall|k: int|
                                    0 <= k < ids.len() ==> #[trigger] names@[k]@ == fv[ids[k] as int].path@;
                            assert(!is_modifier_cycle(fv, ids));
                        }
                    },
                    BuildError::Fixup { asset } => {},
                }
            }
        }
        Ok(Assets { entries })
    }
}

fn copy_pairs(v: &Vec<(String, String)>) -> (r: Vec<(String, String)>)
    ensures
        r@.map_values(|p: (String, String)| (p.0@, p.1@)) == v@.map_values(
            |p: (String, String)| (p.0@, p.1@),
        ),
{
    let mut r: Vec<(String, String)> = Vec::new();
    let mut k: usize = 0;
    while k < v.len()
        invariant
            k <= v@.len(),
            r@.len() == k,
            forall|m: int| 0 <= m < k ==> #[trigger] r@[m].0@ == v@[m].0@ && r@[m].1@ == v@[m].1@,
        decreases v@.len() - k,
    {
        r.push((v[k].0.clone(), v[k].1.clone()));
        k = k + 1;
    }
    assert(r@.map_values(|p: (String, String)| (p.0@, p.1@)) =~= v@.map_values(
        |p: (String, String)| (p.0@, p.1@),
    ));
    r
}

/// No asset has a `Custom` modifier.
pub open spec fn no_custom(flat: Seq<FlatAsset>) -> bool {
    forall|i: int| 0 <= i < flat.len() ==> !(#[trigger] flat[i].modifier is Custom)
}

/// A dependency of `x` whose content differs between two builds.
spec fn next_difference(flat: Seq<FlatAsset>, c1: Seq<Seq<u8>>, c2: Seq<Seq<u8>>, x: int) -> int {
    choose|y: int| 0 <= y < flat.len() && modifier_depends(flat, x, y) && c1[y] != c2[y]
}

spec fn difference_walk(flat: Seq<FlatAsset>, c1: Seq<Seq<u8>>, c2: Seq<Seq<u8>>, x: int, k: nat) -> int
    decreases k,
{
    if k == 0 {
        x
    } else {
        next_difference(flat, c1, c2, difference_walk(flat, c1, c2, x, (k - 1) as nat))
    }
}

proof fn lemma_difference_step(
    flat: Seq<FlatAsset>,
    loaded: Seq<Seq<u8>>,
    c1: Seq<Seq<u8>>,
    pubs1: Seq<Seq<char>>,
    c2: Seq<Seq<u8>>,
    pubs2: Seq<Seq<char>>,
    x: int,
)
    requires
        no_custom(flat),
        built_as(flat, loaded, c1, pubs1),
        built_as(flat, loaded, c2, pubs2),
        0 <= x < flat.len(),
        c1[x] != c2[x],
    ensures
        exists|y: int| 0 <= y < flat.len() && modifier_depends(flat, x, y) && c1[y] != c2[y],
{
    assert(is_built(flat, loaded, c1, pubs1, x));
    assert(is_built(flat, loaded, c2, pubs2, x));
    assert(!(flat[x].modifier is Custom));
    if !exists|y: int| 0 <= y < flat.len() && modifier_depends(flat, x, y) && c1[y] != c2[y] {
        let deps = flat[x].modifier.deps();
        assert forall|q: int, j: int|
            0 <= q < deps.len() && find_path(flat_paths(flat), deps[q]@, 0) == Some(j) implies pubs1[j]
            == pubs2[j] by {
            crate::catalog::lemma_find_path_found(flat_paths(flat), deps[q]@, 0);
            assert(modifier_depends(flat, x, j));
            assert(is_built(flat, loaded, c1, pubs1, j));
            assert(is_built(flat, loaded, c2, pubs2, j));
        }
        lemma_fixup_frame(flat, pubs1, pubs2, deps);
    }
}

proof fn lemma_difference_walk(
    flat: Seq<FlatAsset>,
    loaded: Seq<Seq<u8>>,
    c1: Seq<Seq<u8>>,
    pubs1: Seq<Seq<char>>,
    c2: Seq<Seq<u8>>,
    pubs2: Seq<Seq<char>>,
    x: int,
    k: nat,
)
    requires
        no_custom(flat),
        built_as(flat, loaded, c1, pubs1),
        built_as(flat, loaded, c2, pubs2),
        0 <= x < flat.len(),
        c1[x] != c2[x],
    ensures
        0 <= difference_walk(flat, c1, c2, x, k) < flat.len(),
        c1[difference_walk(flat, c1, c2, x, k)] != c2[difference_walk(flat, c1, c2, x, k)],
        modifier_depends(flat, difference_walk(flat, c1, c2, x, k), difference_walk(flat, c1, c2, x, k + 1)),
    decreases k,
{
    if k > 0 {
        lemma_difference_walk(flat, loaded, c1, pubs1, c2, pubs2, x, (k - 1) as nat);
        let prev = difference_walk(flat, c1, c2, x, (k - 1) as nat);
        lemma_difference_step(flat, loaded, c1, pubs1, c2, pubs2, prev);
        assert(difference_walk(flat, c1, c2, x, k) == next_difference(flat, c1, c2, prev));
    }
    let w = difference_walk(flat, c1, c2, x, k);
    lemma_difference_step(flat, loaded, c1, pubs1, c2, pubs2, w);
    assert(difference_walk(flat, c1, c2, x, k + 1) == next_difference(flat, c1, c2, w));
}

/// A build without custom modifiers and without modifier cycles has one outcome only:
/// two builds of the same assets from the same loaded bytes agree on every content and
/// every public path.
pub proof fn build_is_unique(
    flat: Seq<FlatAsset>,
    loaded: Seq<Seq<u8>>,
    c1: Seq<Seq<u8>>,
    pubs1: Seq<Seq<char>>,
    c2: Seq<Seq<u8>>,
    pubs2: Seq<Seq<char>>,
)
    requires
        flat.len() <= usize::MAX,
        no_custom(flat),
        modifiers_acyclic(flat),
        built_as(flat, loaded, c1, pubs1),
        built_as(flat, loaded, c2, pubs2),
    ensures
        c1 == c2,
        pubs1 == pubs2,
{
    let n = flat.len();
    assert forall|x: int| 0 <= x < n implies c1[x] == c2[x] by {
        if c1[x] != c2[x] {
            let s = Seq::new((n + 1) as nat, |k: int| difference_walk(flat, c1, c2, x, k as nat) as usize);
            assert forall|k: int| 0 <= k < s.len() implies (s[k] as nat) < n && s[k] as int
                == difference_walk(flat, c1, c2, x, k as nat) by {
                lemma_difference_walk(flat, loaded, c1, pubs1, c2, pubs2, x, k as nat);
            }
            if s.no_duplicates() {
                crate::graph::lemma_distinct_nodes(s, n);
            }
            let (i, j) = choose|i: int, j: int| 0 <= i < s.len() && 0 <= j < s.len() && i != j && s[i] == s[j];
            let (a, b) = if i < j { (i, j) } else { (j, i) };
            let ids = s.subrange(a, b);
            let len = ids.len() as int;
            assert forall|k: int| 0 <= k < len implies #[trigger] modifier_depends(
                flat,
                ids[k] as int,
                ids[(k + 1) % len] as int,
            ) by {
                lemma_difference_walk(flat, loaded, c1, pubs1, c2, pubs2, x, (a + k) as nat);
                if k + 1 < len {
                    vstd::arithmetic::div_mod::lemma_small_mod((k + 1) as nat, len as nat);
                } else {
                    vstd::arithmetic::div_mod::lemma_mod_self_0(len);
                }
            }
            assert(is_modifier_cycle(flat, ids));
        }
    }
    assert(c1 =~= c2);
    assert forall|x: int| 0 <= x < n implies pubs1[x] == pubs2[x] by {
        assert(is_built(flat, loaded, c1, pubs1, x));
        assert(is_built(flat, loaded, c2, pubs2, x));
    }
    assert(pubs1 =~= pubs2);
}

/// Two builds whose contents and public paths agree show the same assets: each entry of
/// one has an entry in the other with the same public path, content and hash flag.
pub proof fn built_entries_agree(
    flat: Seq<FlatAsset>,
    contents: Seq<Seq<u8>>,
    publics: Seq<Seq<char>>,
    e1: Seq<(String, Asset)>,
    e2: Seq<(String, Asset)>,
    k1: int,
)
    requires
        kept_last(flat, contents, publics, e1),
        kept_last(flat, contents, publics, e2),
        0 <= k1 < e1.len(),
    ensures
        exists|k2: int|
            0 <= k2 < e2.len() && e2[k2].0@ == e1[k1].0@ && e2[k2].1.content@ == e1[k1].1.content@
                && e2[k2].1.hashed_filename == e1[k1].1.hashed_filename,
{
    let idx1 = choose|idx: Seq<int>| #[trigger] kept_via(flat, contents, publics, e1, idx);
    let idx2 = choose|idx: Seq<int>| #[trigger] kept_via(flat, contents, publics, e2, idx);
    let i = idx1[k1];
    assert(0 <= i < flat.len() && is_last(publics, i) && shows(flat, contents, publics, e1[k1], i));
    let k2 = choose|k: int| 0 <= k < idx2.len() && #[trigger] idx2[k] == i;
    assert(shows(flat, contents, publics, e2[k2], idx2[k2]));
}

} // verus!
