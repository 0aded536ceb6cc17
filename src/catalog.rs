//! The catalog of asset definitions that a resolution pass works on.
use vstd::prelude::*;

use crate::hash::PathHash;
use crate::template::append_range;

verus! {

/// Refers to one asset of a catalog by its position.
#[derive(Clone, Copy, PartialEq, Eq, Structural, Hash, Debug)]
pub struct AssetId(pub u32);

/// One asset of a catalog.
#[derive(Debug, Clone)]
pub struct AssetDef {
    /// The logical path, the asset's key.
    pub path: String,
    /// Whether the asset may be fetched directly.
    pub serve: bool,
    /// Whether the asset is loaded from disk at resolve time.
    pub dynamic: bool,
    /// Where its public path carries a content hash.
    pub hash: PathHash,
    /// Whether its content is scanned for fragments.
    pub template: bool,
    /// Bytes added after the loaded content.
    pub append: Option<Vec<u8>>,
    /// Bytes added before the loaded content.
    pub prepend: Option<Vec<u8>>,
    /// The content stored with the program, used when the asset is not `dynamic`.
    pub content: Vec<u8>,
}

impl AssetDef {
    /// Whether the asset's public path carries a hash.
    pub fn hashed_filename(&self) -> (r: bool)
        ensures
            r == !(self.hash is Unhashed),
    {
        match self.hash {
            PathHash::Unhashed => false,
            _ => true,
        }
    }
}

/// The bytes of an optional byte string, none when absent.
pub open spec fn opt_bytes(o: Option<Vec<u8>>) -> Seq<u8> {
    match o {
        Some(v) => v@,
        None => Seq::empty(),
    }
}

/// `bytes` with `prepend` before and `append` after, as given.
pub open spec fn with_affixes(
    prepend: Option<Vec<u8>>,
    bytes: Seq<u8>,
    append: Option<Vec<u8>>,
) -> Seq<u8> {
    opt_bytes(prepend) + bytes + opt_bytes(append)
}

/// The raw content of an asset whose source held `loaded`: the asset's `prepend` bytes,
/// then `loaded`, then its `append` bytes.
pub fn raw_content(def: &AssetDef, loaded: &[u8]) -> (r: Vec<u8>)
    ensures
        r@ == with_affixes(def.prepend, loaded@, def.append),
{
    let mut out: Vec<u8> = Vec::new();
    match &def.prepend {
        Some(p) => append_range(&mut out, p.as_slice(), 0, p.len()),
        None => {},
    }
    append_range(&mut out, loaded, 0, loaded.len());
    match &def.append {
        Some(a) => append_range(&mut out, a.as_slice(), 0, a.len()),
        None => {},
    }
    proof {
        let p = opt_bytes(def.prepend);
        let a = opt_bytes(def.append);
        assert(p.subrange(0, p.len() as int) =~= p);
        assert(a.subrange(0, a.len() as int) =~= a);
        assert(loaded@.subrange(0, loaded@.len() as int) =~= loaded@);
        assert(out@ =~= p + loaded@ + a);
    }
    out
}

/// The first position at or after `i` that holds `name`.
pub open spec fn find_path(paths: Seq<Seq<char>>, name: Seq<char>, i: int) -> Option<int>
    decreases paths.len() - i,
{
    if i < 0 || i >= paths.len() {
        None
    } else if paths[i] == name {
        Some(i)
    } else {
        find_path(paths, name, i + 1)
    }
}

proof fn lemma_find_path(paths: Seq<Seq<char>>, name: Seq<char>, i: int, j: int)
    requires
        0 <= i <= j <= paths.len(),
        forall|k: int| i <= k < j ==> paths[k] != name,
    ensures
        find_path(paths, name, i) == find_path(paths, name, j),
    decreases j - i,
{
    if i < j {
        lemma_find_path(paths, name, i + 1, j);
    }
}

pub proof fn lemma_find_path_found(paths: Seq<Seq<char>>, name: Seq<char>, i: int)
    requires
        0 <= i,
    ensures
        find_path(paths, name, i) matches Some(k) ==> i <= k < paths.len() && paths[k] == name,
    decreases paths.len() - i,
{
    if 0 <= i < paths.len() && paths[i] != name {
        lemma_find_path_found(paths, name, i + 1);
    }
}

/// The assets of a program, in a fixed order; an asset's id is its position.
#[derive(Debug, Clone)]
pub struct Setup {
    pub assets: Vec<AssetDef>,
    /// Directory that the paths of dynamic assets are relative to.
    pub base_path: String,
}

impl Setup {
    pub open spec fn paths(&self) -> Seq<Seq<char>> {
        self.assets@.map_values(|d: AssetDef| d.path@)
    }

    /// The id of the asset at `name`: the first one with that path.
    pub open spec fn id_of(&self, name: Seq<char>) -> Option<int> {
        find_path(self.paths(), name, 0)
    }

    pub open spec fn wf(&self) -> bool {
        self.assets@.len() <= u32::MAX
    }

    pub open spec fn is_hashed(&self, i: int) -> bool {
        !(self.assets@[i].hash is Unhashed)
    }

    /// The id of the asset at `path`.
    pub fn path_to_id(&self, path: &str) -> (r: Option<AssetId>)
        requires
            self.wf(),
        ensures
            r matches Some(id) ==> self.id_of(path@) == Some(id.0 as int) && (id.0 as int)
                < self.assets@.len(),
            r is None ==> self.id_of(path@) is None,
    {
        let key = path.to_owned();
        let mut i: usize = 0;
        while i < self.assets.len()
            invariant
                self.wf(),
                key@ == path@,
                i <= self.assets@.len(),
                forall|k: int| 0 <= k < i ==> self.paths()[k] != path@,
            decreases self.assets@.len() - i,
        {
            if self.assets[i].path == key {
                proof {
                    lemma_find_path(self.paths(), path@, 0, i as int);
                }
                return Some(AssetId(i as u32));
            }
            i = i + 1;
        }
        proof {
            lemma_find_path(self.paths(), path@, 0, i as int);
        }
        None
    }

    /// The definition of asset `id`.
    pub fn def(&self, id: AssetId) -> (r: &AssetDef)
        requires
            (id.0 as int) < self.assets@.len(),
        ensures
            *r == self.assets@[id.0 as int],
    {
        &self.assets[id.0 as usize]
    }

    /// The definition of the asset at `path`.
    pub fn asset_by_path(&self, path: &str) -> (r: Option<&AssetDef>)
        requires
            self.wf(),
        ensures
            r matches Some(d) ==> exists|i: int|
                self.id_of(path@) == Some(i) && 0 <= i < self.assets@.len() && *d
                    == self.assets@[i],
            r is None ==> self.id_of(path@) is None,
    {
        match self.path_to_id(path) {
            Some(id) => Some(self.def(id)),
            None => None,
        }
    }
}

} // verus!
