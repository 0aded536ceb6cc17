//! Resolution of a whole catalog: parse the templates, order the assets by their
//! dependencies, then render and hash them in that order.
use vstd::prelude::*;
use vstd::utf8::encode_utf8;

use crate::catalog::{AssetId, Setup};
use crate::graph::{has_edge, is_topological_order, IdGraph};
use crate::hash::{path_of, public_path};
use crate::template::{
    fails_with, fragment_spans, fragment_text, has_prefix, include_prefix, parses_to,
    path_prefix, render_spans, var_prefix, Error, Fragment, Template,
};

verus! {

/// Why a resolution pass failed.
#[derive(Debug, Clone)]
pub enum ResolveError {
    /// A fragment of `file` does not parse.
    Template { err: Error, file: String },
    /// An `include:` fragment of `in_file` names no asset.
    UnresolvedInclude { in_file: String, included: String },
    /// A `path:` fragment of `in_file` names no asset.
    UnresolvedPath { in_file: String, referenced: String },
    /// The assets on a cycle, each depending on the next and the last on the first.
    CyclicInclude(Vec<String>),
    /// A `var:` fragment of `file` names a variable without value.
    MissingVariable { key: String, file: String },
}

/// The outcome of a resolution pass, by asset id.
pub struct ResolveResult {
    /// Final content.
    pub assets: Vec<Vec<u8>>,
    /// Public path: the logical path, with the content hash where one is asked for.
    pub public_paths: Vec<String>,
}

pub open spec fn name_after(t: Seq<char>, p: Seq<char>) -> Seq<char> {
    t.subrange(p.len() as int, t.len() as int)
}

/// The trimmed text of fragment `k` of `raw`.
pub open spec fn span_text(raw: Seq<u8>, k: int) -> Seq<char> {
    fragment_text(raw.subrange(fragment_spans(raw)[k].0, fragment_spans(raw)[k].1))
}

/// The asset that must be resolved before a fragment with text `t` can be: the target of
/// an `include:`, or of a `path:` when the target's path carries a hash.
pub open spec fn dependency_of_text(setup: Setup, t: Seq<char>) -> Option<int> {
    if has_prefix(t, include_prefix()) {
        setup.id_of(name_after(t, include_prefix()))
    } else if has_prefix(t, path_prefix()) {
        match setup.id_of(name_after(t, path_prefix())) {
            Some(j) => if setup.is_hashed(j) {
                Some(j)
            } else {
                None
            },
            None => None,
        }
    } else {
        None
    }
}

/// Asset `a` is a template one of whose fragments makes it depend on asset `b`.
pub open spec fn depends(setup: Setup, raws: Seq<Seq<u8>>, a: int, b: int) -> bool {
    &&& 0 <= a < setup.assets@.len()
    &&& setup.assets@[a].template
    &&& exists|k: int|
        0 <= k < fragment_spans(raws[a]).len() && dependency_of_text(setup, span_text(raws[a], k))
            == Some(b)
}

/// Some fragment of a template with bytes `raw` makes it depend on asset `b`.
pub open spec fn fragment_depends(setup: Setup, raw: Seq<u8>, b: int) -> bool {
    exists|k: int|
        0 <= k < fragment_spans(raw).len() && dependency_of_text(setup, span_text(raw, k)) == Some(
            b,
        )
}

/// A fragment with text `t` names an asset that does not exist.
pub open spec fn text_unresolved(setup: Setup, t: Seq<char>) -> bool {
    (has_prefix(t, include_prefix()) && setup.id_of(name_after(t, include_prefix())) is None) || (
    has_prefix(t, path_prefix()) && setup.id_of(name_after(t, path_prefix())) is None)
}

/// A fragment with text `t` is a `var:` fragment.
pub open spec fn is_var_text(t: Seq<char>) -> bool {
    has_prefix(t, var_prefix()) && !has_prefix(t, include_prefix()) && !has_prefix(t, path_prefix())
}

/// Every fragment of the template with bytes `raw` names existing assets.
pub open spec fn references_resolve(setup: Setup, raw: Seq<u8>) -> bool {
    forall|k: int|
        0 <= k < fragment_spans(raw).len() ==> !text_unresolved(setup, #[trigger] span_text(raw, k))
}

/// Every `var:` fragment of the template with bytes `raw` has a value.
pub open spec fn variables_present(raw: Seq<u8>, vars: Seq<(Seq<char>, Seq<char>)>) -> bool {
    forall|k: int|
        0 <= k < fragment_spans(raw).len() && is_var_text(#[trigger] span_text(raw, k)) ==> var_from(
            vars,
            name_after(span_text(raw, k), var_prefix()),
            0,
        ) is Some
}

/// Every fragment of every template names existing assets.
pub open spec fn all_references_resolve(setup: Setup, raws: Seq<Seq<u8>>) -> bool {
    forall|a: int|
        0 <= a < setup.assets@.len() && setup.assets@[a].template ==> #[trigger] references_resolve(
            setup,
            raws[a],
        )
}

/// `ids` is a non-empty cycle of `depends`.
pub open spec fn is_dependency_cycle(setup: Setup, raws: Seq<Seq<u8>>, ids: Seq<usize>) -> bool {
    &&& ids.len() > 0
    &&& forall|k: int|
        0 <= k < ids.len() ==> #[trigger] depends(
            setup,
            raws,
            ids[k] as int,
            ids[(k + 1) % (ids.len() as int)] as int,
        )
}

/// The value of the first variable called `key`, searching from position `i`.
pub open spec fn var_from(vars: Seq<(Seq<char>, Seq<char>)>, key: Seq<char>, i: int) -> Option<
    Seq<char>,
>
    decreases vars.len() - i,
{
    if i < 0 || i >= vars.len() {
        None
    } else if vars[i].0 == key {
        Some(vars[i].1)
    } else {
        var_from(vars, key, i + 1)
    }
}

pub open spec fn vars_view(vars: Seq<(String, String)>) -> Seq<(Seq<char>, Seq<char>)> {
    vars.map_values(|p: (String, String)| (p.0@, p.1@))
}

/// The bytes that replace a fragment with text `t`, given the final contents of all
/// assets.
pub open spec fn value_of(
    setup: Setup,
    t: Seq<char>,
    contents: Seq<Seq<u8>>,
    vars: Seq<(Seq<char>, Seq<char>)>,
) -> Seq<u8> {
    if has_prefix(t, include_prefix()) {
        match setup.id_of(name_after(t, include_prefix())) {
            Some(j) => contents[j],
            None => Seq::empty(),
        }
    } else if has_prefix(t, path_prefix()) {
        match setup.id_of(name_after(t, path_prefix())) {
            Some(j) => encode_utf8(
                public_path(setup.assets@[j].hash, setup.paths()[j], contents[j]),
            ),
            None => Seq::empty(),
        }
    } else {
        match var_from(vars, name_after(t, var_prefix()), 0) {
            Some(v) => encode_utf8(v),
            None => Seq::empty(),
        }
    }
}

/// What asset `i` resolves to, given the final contents of all assets: a template has
/// each fragment replaced by its value, any other asset stays as loaded.
pub open spec fn expected_content(
    setup: Setup,
    raws: Seq<Seq<u8>>,
    contents: Seq<Seq<u8>>,
    vars: Seq<(Seq<char>, Seq<char>)>,
    i: int,
) -> Seq<u8> {
    let raw = raws[i];
    let spans = fragment_spans(raw);
    if setup.assets@[i].template {
        render_spans(
            raw,
            spans,
            Seq::new(spans.len(), |k: int| value_of(setup, span_text(raw, k), contents, vars)),
            0,
        )
    } else {
        raw
    }
}

/// What a parsed fragment makes its asset depend on (see `dependency_of_text`).
pub open spec fn fragment_dependency(setup: Setup, f: Fragment) -> Option<int> {
    match f {
        Fragment::Include(p) => setup.id_of(p@),
        Fragment::Path(p) => match setup.id_of(p@) {
            Some(j) => if setup.is_hashed(j) {
                Some(j)
            } else {
                None
            },
            None => None,
        },
        Fragment::Var(_) => None,
    }
}

/// The fragment names an asset that does not exist.
pub open spec fn fragment_unresolved(setup: Setup, f: Fragment) -> bool {
    match f {
        Fragment::Include(p) => setup.id_of(p@) is None,
        Fragment::Path(p) => setup.id_of(p@) is None,
        Fragment::Var(_) => false,
    }
}

/// `e` reports that `f`, a fragment of asset `parent`, names no asset.
pub open spec fn reports_unresolved(setup: Setup, parent: int, f: Fragment, e: ResolveError) -> bool {
    match e {
        ResolveError::UnresolvedInclude { in_file, included } => f is Include && in_file@
            == setup.paths()[parent] && included@ == f->Include_0@,
        ResolveError::UnresolvedPath { in_file, referenced } => f is Path && in_file@
            == setup.paths()[parent] && referenced@ == f->Path_0@,
        _ => false,
    }
}

proof fn lemma_fragment_text(setup: Setup, b: Seq<u8>, f: Fragment)
    requires
        parses_to(b, f),
    ensures
        fragment_dependency(setup, f) == dependency_of_text(setup, fragment_text(b)),
        fragment_unresolved(setup, f) ==> (has_prefix(fragment_text(b), include_prefix())
            || has_prefix(fragment_text(b), path_prefix())),
        f is Include ==> has_prefix(fragment_text(b), include_prefix()) && f->Include_0@
            == name_after(fragment_text(b), include_prefix()),
        f is Path ==> has_prefix(fragment_text(b), path_prefix()) && f->Path_0@ == name_after(
            fragment_text(b),
            path_prefix(),
        ),
        !fragment_unresolved(setup, f) ==> !text_unresolved(setup, fragment_text(b)),
        f is Include ==> !has_prefix(fragment_text(b), path_prefix()),
        f is Path ==> !has_prefix(fragment_text(b), include_prefix()),
        f is Var ==> !has_prefix(fragment_text(b), include_prefix()) && !has_prefix(
            fragment_text(b),
            path_prefix(),
        ) && has_prefix(fragment_text(b), var_prefix()) && f->Var_0@ == name_after(
            fragment_text(b),
            var_prefix(),
        ),
{
    let t = fragment_text(b);
    match f {
        Fragment::Path(_) => {
            assert(t[0] == 'p');
            assert(!has_prefix(t, include_prefix())) by {
                if has_prefix(t, include_prefix()) {
                    assert(t.subrange(0, 8)[0] == 'i');
                }
            }
        },
        Fragment::Include(_) => {
            assert(t.subrange(0, 8)[0] == 'i');
            assert(!has_prefix(t, path_prefix())) by {
                if has_prefix(t, path_prefix()) {
                    assert(t.subrange(0, 5)[0] == 'p');
                }
            }
        },
        Fragment::Var(_) => {
            assert(t.subrange(0, 4)[0] == 'v');
            assert(!has_prefix(t, include_prefix())) by {
                if has_prefix(t, include_prefix()) {
                    assert(t.subrange(0, 8)[0] == 'i');
                }
            }
            assert(!has_prefix(t, path_prefix())) by {
                if has_prefix(t, path_prefix()) {
                    assert(t.subrange(0, 5)[0] == 'p');
                }
            }
        },
    }
}

/// The asset that `fragment`, found in asset `parent`, makes `parent` depend on, or the
/// error for a fragment that names no asset.
pub fn dependency_in_fragment(fragment: &Fragment, parent: AssetId, setup: &Setup) -> (r: Result<
    Option<AssetId>,
    ResolveError,
>)
    requires
        setup.wf(),
        (parent.0 as int) < setup.assets@.len(),
    ensures
        r is Ok <==> !fragment_unresolved(*setup, *fragment),
        r matches Ok(d) ==> match d {
            Some(id) => fragment_dependency(*setup, *fragment) == Some(id.0 as int),
            None => fragment_dependency(*setup, *fragment) is None,
        },
        r matches Err(e) ==> reports_unresolved(*setup, parent.0 as int, *fragment, e),
{
    match fragment {
        Fragment::Include(p) => match setup.path_to_id(p.as_str()) {
            Some(id) => Ok(Some(id)),
            None => Err(
                ResolveError::UnresolvedInclude {
                    in_file: setup.def(parent).path.clone(),
                    included: p.clone(),
                },
            ),
        },
        Fragment::Path(p) => match setup.path_to_id(p.as_str()) {
            Some(id) => {
                if setup.def(id).hashed_filename() {
                    Ok(Some(id))
                } else {
                    Ok(None)
                }
            },
            None => Err(
                ResolveError::UnresolvedPath {
                    in_file: setup.def(parent).path.clone(),
                    referenced: p.clone(),
                },
            ),
        },
        Fragment::Var(_) => Ok(None),
    }
}


pub open spec fn bytes_view(v: Seq<Vec<u8>>) -> Seq<Seq<u8>> {
    v.map_values(|b: Vec<u8>| b@)
}

pub open spec fn strings_view(v: Seq<String>) -> Seq<Seq<char>> {
    v.map_values(|s: String| s@)
}

/// `contents` and `publics` are what the catalog resolves to: every asset's content is
/// its expected content over `contents`, and its public path follows from that content.
pub open spec fn is_resolution(
    setup: Setup,
    raws: Seq<Seq<u8>>,
    vars: Seq<(Seq<char>, Seq<char>)>,
    contents: Seq<Seq<u8>>,
    publics: Seq<Seq<char>>,
) -> bool {
    &&& contents.len() == setup.assets@.len()
    &&& publics.len() == setup.assets@.len()
    &&& forall|i: int|
        0 <= i < setup.assets@.len() ==> #[trigger] contents[i] == expected_content(
            setup,
            raws,
            contents,
            vars,
            i,
        ) && publics[i] == public_path(setup.assets@[i].hash, setup.paths()[i], contents[i])
}

/// Fragment `k` of template asset `i` exists.
pub open spec fn is_fragment(setup: Setup, raws: Seq<Seq<u8>>, i: int, k: int) -> bool {
    0 <= i < setup.assets@.len() && setup.assets@[i].template && 0 <= k < fragment_spans(
        raws[i],
    ).len()
}

/// `e` describes a defect of the catalog.
pub open spec fn reports(
    setup: Setup,
    raws: Seq<Seq<u8>>,
    vars: Seq<(Seq<char>, Seq<char>)>,
    e: ResolveError,
) -> bool {
    match e {
        ResolveError::Template { err, file } => exists|i: int, k: int|
            is_fragment(setup, raws, i, k) && file@ == setup.paths()[i] && fails_with(
                raws[i].subrange(fragment_spans(raws[i])[k].0, fragment_spans(raws[i])[k].1),
                err,
            ),
        ResolveError::UnresolvedInclude { in_file, included } => exists|i: int, k: int|
            is_fragment(setup, raws, i, k) && in_file@ == setup.paths()[i] && has_prefix(
                span_text(raws[i], k),
                include_prefix(),
            ) && included@ == name_after(span_text(raws[i], k), include_prefix())
                && setup.id_of(included@) is None,
        ResolveError::UnresolvedPath { in_file, referenced } => exists|i: int, k: int|
            is_fragment(setup, raws, i, k) && in_file@ == setup.paths()[i] && has_prefix(
                span_text(raws[i], k),
                path_prefix(),
            ) && referenced@ == name_after(span_text(raws[i], k), path_prefix())
                && setup.id_of(referenced@) is None,
        ResolveError::CyclicInclude(names) => exists|ids: Seq<usize>|
            is_dependency_cycle(setup, raws, ids) && ids.no_duplicates() && names@.len() == ids.len() && forall|k: int|
                0 <= k < ids.len() ==> #[trigger] names@[k]@ == setup.paths()[ids[k] as int],
        ResolveError::MissingVariable { key, file } => exists|i: int, k: int|
            is_fragment(setup, raws, i, k) && file@ == setup.paths()[i] && has_prefix(
                span_text(raws[i], k),
                var_prefix(),
            ) && !has_prefix(span_text(raws[i], k), include_prefix()) && !has_prefix(
                span_text(raws[i], k),
                path_prefix(),
            ) && key@ == name_after(span_text(raws[i], k), var_prefix()) && var_from(
                vars,
                key@,
                0,
            ) is None,
    }
}

proof fn lemma_var_from(vars: Seq<(Seq<char>, Seq<char>)>, key: Seq<char>, i: int, j: int)
    requires
        0 <= i <= j <= vars.len(),
        forall|k: int| i <= k < j ==> vars[k].0 != key,
    ensures
        var_from(vars, key, i) == var_from(vars, key, j),
    decreases j - i,
{
    if i < j {
        lemma_var_from(vars, key, i + 1, j);
    }
}

/// The value of the first variable called `key`.
fn lookup_var<'a>(vars: &'a Vec<(String, String)>, key: &String) -> (r: Option<&'a String>)
    ensures
        r matches Some(v) ==> var_from(vars_view(vars@), key@, 0) == Some(v@),
        r is None ==> var_from(vars_view(vars@), key@, 0) is None,
{
    let mut i: usize = 0;
    while i < vars.len()
        invariant
            i <= vars@.len(),
            forall|k: int| 0 <= k < i ==> vars_view(vars@)[k].0 != key@,
        decreases vars@.len() - i,
    {
        if vars[i].0 == *key {
            proof {
                lemma_var_from(vars_view(vars@), key@, 0, i as int);
            }
            return Some(&vars[i].1);
        }
        i = i + 1;
    }
    proof {
        lemma_var_from(vars_view(vars@), key@, 0, i as int);
    }
    None
}

fn copy_bytes(b: &[u8]) -> (r: Vec<u8>)
    ensures
        r@ == b@,
{
    let mut r: Vec<u8> = Vec::new();
    crate::template::append_range(&mut r, b, 0, b.len());
    assert(b@.subrange(0, b@.len() as int) =~= b@);
    r
}

/// The bytes that replace `frag`, a fragment of asset `parent` with bytes `b`.
fn fragment_value(
    setup: &Setup,
    parent: usize,
    frag: &Fragment,
    contents: &Vec<Vec<u8>>,
    publics: &Vec<String>,
    vars: &Vec<(String, String)>,
    Ghost(b): Ghost<Seq<u8>>,
) -> (r: Result<Vec<u8>, ResolveError>)
    requires
        setup.wf(),
        parent < setup.assets@.len(),
        parses_to(b, *frag),
        contents@.len() == setup.assets@.len(),
        publics@.len() == setup.assets@.len(),
        forall|j: int|
            0 <= j < setup.assets@.len() && (!setup.is_hashed(j) || dependency_of_text(
                *setup,
                fragment_text(b),
            ) == Some(j)) ==> #[trigger] publics@[j]@ == public_path(
                setup.assets@[j].hash,
                setup.paths()[j],
                contents@[j]@,
            ),
    ensures
        r matches Ok(v) ==> v@ == value_of(
            *setup,
            fragment_text(b),
            bytes_view(contents@),
            vars_view(vars@),
        ),
        r is Ok && *frag is Var ==> var_from(vars_view(vars@), frag->Var_0@, 0) is Some,
        r matches Err(e) ==> (reports_unresolved(*setup, parent as int, *frag, e)
            && fragment_unresolved(*setup, *frag)) || match e {
            ResolveError::MissingVariable { key, file } => frag is Var && key@ == frag->Var_0@
                && file@ == setup.paths()[parent as int] && var_from(vars_view(vars@), key@, 0) is None,
            _ => false,
        },
{
    proof {
        lemma_fragment_text(*setup, b, *frag);
    }
    match frag {
        Fragment::Include(p) => match setup.path_to_id(p.as_str()) {
            Some(id) => Ok(copy_bytes(contents[id.0 as usize].as_slice())),
            None => Err(
                ResolveError::UnresolvedInclude {
                    in_file: setup.assets[parent].path.clone(),
                    included: p.clone(),
                },
            ),
        },
        Fragment::Path(p) => match setup.path_to_id(p.as_str()) {
            Some(id) => {
                let j = id.0 as usize;
                assert(publics@[j as int]@ == public_path(
                    setup.assets@[j as int].hash,
                    setup.paths()[j as int],
                    contents@[j as int]@,
                ));
                Ok(copy_bytes(publics[j].as_str().as_bytes()))
            },
            None => Err(
                ResolveError::UnresolvedPath {
                    in_file: setup.assets[parent].path.clone(),
                    referenced: p.clone(),
                },
            ),
        },
        Fragment::Var(key) => match lookup_var(vars, key) {
            Some(v) => Ok(copy_bytes(v.as_str().as_bytes())),
            None => Err(
                ResolveError::MissingVariable {
                    key: key.clone(),
                    file: setup.assets[parent].path.clone(),
                },
            ),
        },
    }
}

proof fn lemma_expected_frame(
    setup: Setup,
    raws: Seq<Seq<u8>>,
    c1: Seq<Seq<u8>>,
    c2: Seq<Seq<u8>>,
    vars: Seq<(Seq<char>, Seq<char>)>,
    i: int,
)
    requires
        0 <= i < setup.assets@.len(),
        c1.len() == setup.assets@.len(),
        c2.len() == setup.assets@.len(),
        forall|j: int| 0 <= j < setup.assets@.len() && depends(setup, raws, i, j) ==> c1[j] == c2[j],
    ensures
        expected_content(setup, raws, c1, vars, i) == expected_content(setup, raws, c2, vars, i),
{
    if setup.assets@[i].template {
        let raw = raws[i];
        let spans = fragment_spans(raw);
        assert forall|k: int| 0 <= k < spans.len() implies value_of(setup, span_text(raw, k), c1, vars)
            == value_of(setup, span_text(raw, k), c2, vars) by {
            let t = span_text(raw, k);
            if has_prefix(t, include_prefix()) {
                crate::catalog::lemma_find_path_found(setup.paths(), name_after(t, include_prefix()), 0);
                if let Some(j) = setup.id_of(name_after(t, include_prefix())) {
                    assert(dependency_of_text(setup, t) == Some(j));
                    assert(depends(setup, raws, i, j));
                }
            } else if has_prefix(t, path_prefix()) {
                crate::catalog::lemma_find_path_found(setup.paths(), name_after(t, path_prefix()), 0);
                if let Some(j) = setup.id_of(name_after(t, path_prefix())) {
                    if setup.is_hashed(j) {
                        assert(dependency_of_text(setup, t) == Some(j));
                        assert(depends(setup, raws, i, j));
                    }
                }
            }
        }
        assert(Seq::new(spans.len(), |k: int| value_of(setup, span_text(raw, k), c1, vars))
            =~= Seq::new(spans.len(), |k: int| value_of(setup, span_text(raw, k), c2, vars)));
    }
}


proof fn lemma_parse_exclusive(b: Seq<u8>, f: Fragment, e: Error)
    requires
        parses_to(b, f),
    ensures
        !fails_with(b, e),
{
}

/// A catalog whose templates all parse, whose references all resolve, whose variables
/// are all present and which has no dependency cycle has no defect to report.
proof fn lemma_no_defect(
    setup: Setup,
    raws: Seq<Seq<u8>>,
    vars: Seq<(Seq<char>, Seq<char>)>,
    templates: Seq<Option<Template>>,
    e: ResolveError,
)
    requires
        templates.len() == setup.assets@.len(),
        raws.len() == setup.assets@.len(),
        forall|a: int|
            0 <= a < templates.len() ==> (#[trigger] templates[a] is Some
                <==> setup.assets@[a].template) && (templates[a] matches Some(t) ==> t.wf()
                && t.raw() == raws[a]),
        all_references_resolve(setup, raws),
        forall|x: int|
            0 <= x < setup.assets@.len() && setup.assets@[x].template ==> variables_present(
                #[trigger] raws[x],
                vars,
            ),
        dependencies_acyclic(setup, raws),
    ensures
        !reports(setup, raws, vars, e),
{
    if reports(setup, raws, vars, e) {
        match e {
            ResolveError::Template { err, file } => {
                let (i, k) = choose|i: int, k: int|
                    is_fragment(setup, raws, i, k) && file@ == setup.paths()[i] && fails_with(
                        raws[i].subrange(fragment_spans(raws[i])[k].0, fragment_spans(raws[i])[k].1),
                        err,
                    );
                let t = templates[i]->Some_0;
                assert(templates[i] is Some);
                crate::template::lemma_template_spans(t);
                crate::template::lemma_template_kind(t, k);
                lemma_parse_exclusive(
                    raws[i].subrange(fragment_spans(raws[i])[k].0, fragment_spans(raws[i])[k].1),
                    t.kinds()[k],
                    err,
                );
            },
            ResolveError::UnresolvedInclude { in_file, included } => {
                let (i, k) = choose|i: int, k: int|
                    is_fragment(setup, raws, i, k) && in_file@ == setup.paths()[i] && has_prefix(
                        span_text(raws[i], k),
                        include_prefix(),
                    ) && included@ == name_after(span_text(raws[i], k), include_prefix())
                        && setup.id_of(included@) is None;
                assert(references_resolve(setup, raws[i]));
                assert(!text_unresolved(setup, span_text(raws[i], k)));
            },
            ResolveError::UnresolvedPath { in_file, referenced } => {
                let (i, k) = choose|i: int, k: int|
                    is_fragment(setup, raws, i, k) && in_file@ == setup.paths()[i] && has_prefix(
                        span_text(raws[i], k),
                        path_prefix(),
                    ) && referenced@ == name_after(span_text(raws[i], k), path_prefix())
                        && setup.id_of(referenced@) is None;
                assert(references_resolve(setup, raws[i]));
                assert(!text_unresolved(setup, span_text(raws[i], k)));
            },
            ResolveError::CyclicInclude(names) => {
                let ids = choose|ids: Seq<usize>|
                    is_dependency_cycle(setup, raws, ids) && ids.no_duplicates() && names@.len() == ids.len() && forall|k: int|
                        0 <= k < ids.len() ==> #[trigger] names@[k]@ == setup.paths()[ids[k] as int];
                assert(!is_dependency_cycle(setup, raws, ids));
            },
            ResolveError::MissingVariable { key, file } => {
                let (i, k) = choose|i: int, k: int|
                    is_fragment(setup, raws, i, k) && file@ == setup.paths()[i] && has_prefix(
                        span_text(raws[i], k),
                        var_prefix(),
                    ) && !has_prefix(span_text(raws[i], k), include_prefix()) && !has_prefix(
                        span_text(raws[i], k),
                        path_prefix(),
                    ) && key@ == name_after(span_text(raws[i], k), var_prefix()) && var_from(
                        vars,
                        key@,
                        0,
                    ) is None;
                assert(variables_present(raws[i], vars));
                assert(is_var_text(span_text(raws[i], k)));
            },
        }
    }
}

/// Graph edges are exactly dependencies, for the assets before `upto`; and only
/// dependencies for the rest.
pub open spec fn graph_matches(
    setup: Setup,
    raws: Seq<Seq<u8>>,
    g: Seq<Seq<usize>>,
    upto: int,
) -> bool {
    &&& forall|a: int, b: int| #[trigger] has_edge(g, a, b) ==> depends(setup, raws, a, b)
    &&& forall|a: int, b: int|
        0 <= a < upto && 0 <= b < g.len() && #[trigger] depends(setup, raws, a, b) ==> has_edge(
            g,
            a,
            b,
        )
}

proof fn lemma_depends_in_range(setup: Setup, raws: Seq<Seq<u8>>, a: int, b: int)
    requires
        depends(setup, raws, a, b),
    ensures
        0 <= b < setup.assets@.len(),
{
    let m = choose|m: int|
        0 <= m < fragment_spans(raws[a]).len() && dependency_of_text(setup, span_text(raws[a], m))
            == Some(b);
    let t = span_text(raws[a], m);
    crate::catalog::lemma_find_path_found(setup.paths(), name_after(t, include_prefix()), 0);
    crate::catalog::lemma_find_path_found(setup.paths(), name_after(t, path_prefix()), 0);
}

/// Parses the templates and builds the dependency graph.
fn prepare(setup: &Setup, raws: &Vec<Vec<u8>>) -> (r: Result<(IdGraph, Vec<Option<Template>>), ResolveError>)
    requires
        setup.wf(),
        raws@.len() == setup.assets@.len(),
    ensures
        r matches Ok((g, ts)) ==> g.wf() && g@.len() == setup.assets@.len() && graph_matches(
            *setup,
            bytes_view(raws@),
            g@,
            setup.assets@.len() as int,
        ) && ts@.len() == setup.assets@.len() && forall|a: int|
            0 <= a < ts@.len() ==> (#[trigger] ts@[a] is Some <==> setup.assets@[a].template) && (
            ts@[a] matches Some(t) ==> t.wf() && t.raw() == raws@[a]@),
        r is Ok ==> forall|a: int|
            0 <= a < setup.assets@.len() && setup.assets@[a].template ==> #[trigger] references_resolve(
                *setup,
                bytes_view(raws@)[a],
            ),
        r matches Err(e) ==> reports(*setup, bytes_view(raws@), Seq::empty(), e) && !(e is CyclicInclude)
            && !(e is MissingVariable),
{
    let ghost rv = bytes_view(raws@);
    let n = setup.assets.len();
    let mut graph = IdGraph::new();
    if n > 0 {
        graph.add_node(n - 1);
    }
    let mut templates: Vec<Option<Template>> = Vec::new();
    let mut i: usize = 0;
    while i < n
        invariant
            setup.wf(),
            n == setup.assets@.len(),
            raws@.len() == n,
            rv == bytes_view(raws@),
            graph.wf(),
            graph@.len() == n,
            i <= n,
            templates@.len() == i,
            forall|a: int|
                0 <= a < i ==> (#[trigger] templates@[a] is Some <==> setup.assets@[a].template) && (
                templates@[a] matches Some(t) ==> t.wf() && t.raw() == raws@[a]@),
            graph_matches(*setup, rv, graph@, i as int),
            forall|a: int|
                0 <= a < i && setup.assets@[a].template ==> #[trigger] references_resolve(*setup, rv[a]),
        decreases n - i,
    {
        if setup.assets[i].template {
            let bytes = copy_bytes(raws[i].as_slice());
            match Template::parse(bytes) {
                Err(err) => {
                    proof {
                        let k = choose|k: int|
                            0 <= k < fragment_spans(rv[i as int]).len() && fails_with(
                                rv[i as int].subrange(
                                    fragment_spans(rv[i as int])[k].0,
                                    fragment_spans(rv[i as int])[k].1,
                                ),
                                err,
                            );
                        assert(is_fragment(*setup, rv, i as int, k));
                    }
                    return Err(ResolveError::Template { err, file: setup.assets[i].path.clone() });
                },
                Ok(t) => {
                    let frags = t.fragments();
                    let ghost sp = t.spans();
                    proof {
                        crate::template::lemma_template_spans(t);
                    }
                    let mut k: usize = 0;
                    while k < frags.len()
                        invariant
                            setup.wf(),
                            n == setup.assets@.len(),
                            raws@.len() == n,
                            rv == bytes_view(raws@),
                            i < n,
                            setup.assets@[i as int].template,
                            t.wf(),
                            t.raw() == rv[i as int],
                            sp == t.spans(),
                            sp == fragment_spans(rv[i as int]),
                            frags@.len() == sp.len(),
                            forall|m: int| 0 <= m < frags@.len() ==> *frags@[m] == t.kinds()[m],
                            graph.wf(),
                            graph@.len() == n,
                            k <= frags@.len(),
                            graph_matches(*setup, rv, graph@, i as int),
                            forall|m: int, b: int|
                                0 <= m < k && dependency_of_text(*setup, span_text(rv[i as int], m))
                                    == Some(b) ==> has_edge(graph@, i as int, b),
                            forall|a: int|
                                0 <= a < i && setup.assets@[a].template ==> #[trigger] references_resolve(*setup, rv[a]),
                            forall|m: int| 0 <= m < k ==> !text_unresolved(*setup, #[trigger] span_text(rv[i as int], m)),
                        decreases frags@.len() - k,
                    {
                        let ghost b = rv[i as int].subrange(sp[k as int].0, sp[k as int].1);
                        proof {
                            crate::template::lemma_template_kind(t, k as int);
                            lemma_fragment_text(*setup, b, *frags@[k as int]);
                            assert(span_text(rv[i as int], k as int) == fragment_text(b));
                        }
                        match dependency_in_fragment(frags[k], AssetId(i as u32), setup) {
                            Err(e) => {
                                proof {
                                    assert(is_fragment(*setup, rv, i as int, k as int));
                                }
                                return Err(e);
                            },
                            Ok(Some(id)) => {
                                proof {
                                    crate::catalog::lemma_find_path_found(
                                        setup.paths(),
                                        name_after(fragment_text(b), include_prefix()),
                                        0,
                                    );
                                    crate::catalog::lemma_find_path_found(
                                        setup.paths(),
                                        name_after(fragment_text(b), path_prefix()),
                                        0,
                                    );
                                }
                                let ghost before = graph@;
                                graph.add_edge(i, id.0 as usize);
                                proof {
                                    assert(depends(*setup, rv, i as int, id.0 as int));
                                    assert forall|a: int, c: int| #[trigger] has_edge(graph@, a, c)
                                        implies depends(*setup, rv, a, c) by {
                                        if has_edge(before, a, c) {
                                        }
                                    }
                                    assert forall|a: int, c: int|
                                        0 <= a < i && 0 <= c < graph@.len() && #[trigger] depends(
                                            *setup,
                                            rv,
                                            a,
                                            c,
                                        ) implies has_edge(graph@, a, c) by {
                                        assert(has_edge(before, a, c));
                                    }
                                    assert forall|m: int, c: int|
                                        0 <= m < k + 1 && dependency_of_text(
                                            *setup,
                                            span_text(rv[i as int], m),
                                        ) == Some(c) implies has_edge(graph@, i as int, c) by {
                                        if m < k {
                                            assert(has_edge(before, i as int, c));
                                        }
                                    }
                                }
                            },
                            Ok(None) => {},
                        }
                        k = k + 1;
                    }
                    proof {
                        assert forall|a: int, c: int|
                            0 <= a < i + 1 && 0 <= c < graph@.len() && #[trigger] depends(
                                *setup,
                                rv,
                                a,
                                c,
                            ) implies has_edge(graph@, a, c) by {
                            if a == i {
                                let m = choose|m: int|
                                    0 <= m < fragment_spans(rv[a]).len() && dependency_of_text(
                                        *setup,
                                        span_text(rv[a], m),
                                    ) == Some(c);
                            }
                        }
                    }
                    proof {
                        assert(references_resolve(*setup, rv[i as int]));
                        assert forall|a: int|
                            0 <= a < i + 1 && setup.assets@[a].template implies #[trigger] references_resolve(*setup, rv[a]) by {}
                    }
                    templates.push(Some(t));
                },
            }
        } else {
            templates.push(None);
            proof {
                assert forall|a: int, c: int|
                    0 <= a < i + 1 && 0 <= c < graph@.len() && #[trigger] depends(*setup, rv, a, c)
                        implies has_edge(graph@, a, c) by {
                    if a == i {
                        assert(!setup.assets@[a].template);
                    }
                }
            }
        }
        proof {
            assert forall|a: int|
                0 <= a < i + 1 implies (#[trigger] templates@[a] is Some <==> setup.assets@[a].template) && (
                templates@[a] matches Some(t) ==> t.wf() && t.raw() == raws@[a]@) by {
                if a < i {
                }
            }
        }
        i = i + 1;
    }
    Ok((graph, templates))
}


/// The paths of the given assets, in the same order.
fn paths_of(setup: &Setup, ids: &Vec<usize>) -> (r: Vec<String>)
    requires
        forall|k: int| 0 <= k < ids@.len() ==> ids@[k] < setup.assets@.len(),
    ensures
        r@.len() == ids@.len(),
        forall|k: int| 0 <= k < ids@.len() ==> #[trigger] r@[k]@ == setup.paths()[ids@[k] as int],
{
    let mut r: Vec<String> = Vec::new();
    let mut k: usize = 0;
    while k < ids.len()
        invariant
            k <= ids@.len(),
            r@.len() == k,
            forall|m: int| 0 <= m < ids@.len() ==> ids@[m] < setup.assets@.len(),
            forall|m: int| 0 <= m < k ==> #[trigger] r@[m]@ == setup.paths()[ids@[m] as int],
        decreases ids@.len() - k,
    {
        r.push(setup.assets[ids[k]].path.clone());
        k = k + 1;
    }
    r
}

/// Resolves every asset of `setup`, whose raw contents (prepend and append bytes
/// included) are `raws`, with the variables `vars` (the first entry with a name counts).
///
/// Either every asset is resolved, or the pass stops at the first defect found and
/// returns nothing else: a fragment that does not parse, one that names no asset, a
/// cycle of dependencies, or a variable without value.
pub fn resolve(setup: &Setup, raws: &Vec<Vec<u8>>, vars: &Vec<(String, String)>) -> (r: Result<
    ResolveResult,
    ResolveError,
>)
    requires
        setup.wf(),
        raws@.len() == setup.assets@.len(),
    ensures
        r matches Ok(res) ==> is_resolution(
            *setup,
            bytes_view(raws@),
            vars_view(vars@),
            bytes_view(res.assets@),
            strings_view(res.public_paths@),
        ),
        r matches Err(e) ==> reports(*setup, bytes_view(raws@), vars_view(vars@), e),
        (forall|e: ResolveError| !reports(*setup, bytes_view(raws@), vars_view(vars@), e))
            ==> r is Ok,
        r is Ok ==> dependencies_acyclic(*setup, bytes_view(raws@)),
        r is Ok ==> forall|e: ResolveError| !reports(*setup, bytes_view(raws@), vars_view(vars@), e),
{
    let ghost rv = bytes_view(raws@);
    let ghost vv = vars_view(vars@);
    let n = setup.assets.len();
    let (graph, templates) = match prepare(setup, raws) {
        Ok(p) => p,
        Err(e) => {
            return Err(e);
        },
    };
    assert(all_references_resolve(*setup, rv));
    let order = match graph.topological_sort() {
        Ok(order) => order,
        Err(ids) => {
            proof {
                let len = ids@.len() as int;
                assert forall|k: int| 0 <= k < len implies #[trigger] depends(
                    *setup,
                    rv,
                    ids@[k] as int,
                    ids@[(k + 1) % len] as int,
                ) by {
                    assert(has_edge(graph@, ids@[k] as int, ids@[(k + 1) % len] as int));
                }
                assert forall|k: int| 0 <= k < len implies #[trigger] ids@[k] < n by {
                    assert(has_edge(graph@, ids@[k] as int, ids@[(k + 1) % len] as int));
                }
            }
            let names = paths_of(setup, &ids);
            let e = ResolveError::CyclicInclude(names);
            proof {
                assert(is_dependency_cycle(*setup, rv, ids@));
                assert(reports(*setup, rv, vv, e));
            }
            return Err(e);
        },
    };
    let mut contents: Vec<Vec<u8>> = Vec::new();
    let mut publics: Vec<String> = Vec::new();
    let mut i: usize = 0;
    while i < n
        invariant
            n == setup.assets@.len(),
            raws@.len() == n,
            rv == bytes_view(raws@),
            i <= n,
            contents@.len() == i,
            publics@.len() == i,
            forall|a: int| 0 <= a < i ==> #[trigger] contents@[a]@ == rv[a],
            forall|a: int| 0 <= a < i ==> #[trigger] publics@[a]@ == setup.paths()[a],
            all_references_resolve(*setup, rv),
        decreases n - i,
    {
        contents.push(copy_bytes(raws[i].as_slice()));
        publics.push(setup.assets[i].path.clone());
        i = i + 1;
    }
    proof {
        crate::graph::lemma_distinct_nodes(order@, n as nat);
        crate::graph::lemma_ordered_graph_is_acyclic(graph@, order@);
        assert forall|ids: Seq<usize>| !#[trigger] is_dependency_cycle(*setup, rv, ids) by {
            if is_dependency_cycle(*setup, rv, ids) {
                let len = ids.len() as int;
                assert forall|k: int| 0 <= k < len implies #[trigger] has_edge(
                    graph@,
                    ids[k] as int,
                    ids[(k + 1) % len] as int,
                ) by {
                    assert(depends(*setup, rv, ids[k] as int, ids[(k + 1) % len] as int));
                    lemma_depends_in_range(*setup, rv, ids[k] as int, ids[(k + 1) % len] as int);
                }
                assert(crate::graph::is_cycle(graph@, ids));
            }
        }
    }
    let ghost mut done: Seq<bool> = Seq::new(n as nat, |x: int| false);
    let mut k: usize = 0;
    while k < n
        invariant
            setup.wf(),
            n == setup.assets@.len(),
            raws@.len() == n,
            rv == bytes_view(raws@),
            vv == vars_view(vars@),
            graph.wf(),
            graph@.len() == n,
            graph_matches(*setup, rv, graph@, n as int),
            is_topological_order(graph@, order@),
            forall|v: usize| (v as nat) < n ==> order@.contains(v),
            templates@.len() == n,
            forall|a: int|
                0 <= a < n ==> (#[trigger] templates@[a] is Some <==> setup.assets@[a].template) && (
                templates@[a] matches Some(t) ==> t.wf() && t.raw() == raws@[a]@),
            k <= n,
            contents@.len() == n,
            publics@.len() == n,
            done.len() == n,
            forall|x: int| 0 <= x < n ==> (#[trigger] done[x] <==> order@.subrange(0, k as int).contains(x as usize)),
            forall|x: int|
                0 <= x < n && #[trigger] done[x] ==> contents@[x]@ == expected_content(
                    *setup,
                    rv,
                    bytes_view(contents@),
                    vv,
                    x,
                ) && publics@[x]@ == public_path(
                    setup.assets@[x].hash,
                    setup.paths()[x],
                    contents@[x]@,
                ),
            forall|x: int| 0 <= x < n && !done[x] ==> #[trigger] publics@[x]@ == setup.paths()[x],
            forall|x: int|
                0 <= x < n && !done[x] && !setup.assets@[x].template ==> #[trigger] contents@[x]@
                    == rv[x],
            forall|x: int, y: int|
                0 <= x < n && done[x] && #[trigger] depends(*setup, rv, x, y) ==> 0 <= y < n && done[y],
            all_references_resolve(*setup, rv),
            forall|x: int|
                0 <= x < n && #[trigger] done[x] && setup.assets@[x].template ==> variables_present(rv[x], vv),
        decreases n - k,
    {
        let id = order[k];
        proof {
            assert forall|y: int| #[trigger] depends(*setup, rv, id as int, y) implies 0 <= y < n && done[y] && y != id by {
                lemma_depends_in_range(*setup, rv, id as int, y);
                assert(has_edge(graph@, id as int, y));
                assert(order@.contains(y as usize));
                let j = choose|j: int| 0 <= j < order@.len() && order@[j] == y as usize;
                assert(j < k);
                assert(order@.subrange(0, k as int)[j] == y as usize);
            }
            assert(!done[id as int]) by {
                if done[id as int] {
                    let j = choose|j: int| 0 <= j < k && order@.subrange(0, k as int)[j] == id;
                    assert(order@[j] == order@[k as int]);
                }
            }
        }
        let ghost c0 = bytes_view(contents@);
        if setup.assets[id].template {
            let t = templates[id].as_ref().unwrap();
            proof {
                crate::template::lemma_template_spans(*t);
            }
            let frags = t.fragments();
            let ghost sp = t.spans();
            let mut values: Vec<Vec<u8>> = Vec::new();
            let mut m: usize = 0;
            while m < frags.len()
                invariant
                    setup.wf(),
                    n == setup.assets@.len(),
                    rv == bytes_view(raws@),
                    vv == vars_view(vars@),
                    id < n,
                    setup.assets@[id as int].template,
                    t.wf(),
                    t.raw() == rv[id as int],
                    sp == t.spans(),
                    sp == fragment_spans(rv[id as int]),
                    frags@.len() == sp.len(),
                    forall|q: int| 0 <= q < frags@.len() ==> *frags@[q] == t.kinds()[q],
                    contents@.len() == n,
                    publics@.len() == n,
                    c0 == bytes_view(contents@),
                    forall|x: int|
                        0 <= x < n && #[trigger] done[x] ==> publics@[x]@ == public_path(
                            setup.assets@[x].hash,
                            setup.paths()[x],
                            contents@[x]@,
                        ),
                    forall|x: int| 0 <= x < n && !done[x] ==> #[trigger] publics@[x]@ == setup.paths()[x],
                    forall|y: int| #[trigger] depends(*setup, rv, id as int, y) ==> 0 <= y < n && done[y],
                    forall|q: int|
                        0 <= q < m && is_var_text(#[trigger] span_text(rv[id as int], q)) ==> var_from(
                            vv,
                            name_after(span_text(rv[id as int], q), var_prefix()),
                            0,
                        ) is Some,
                    m <= frags@.len(),
                    values@.len() == m,
                    forall|q: int|
                        0 <= q < m ==> #[trigger] values@[q]@ == value_of(
                            *setup,
                            span_text(rv[id as int], q),
                            c0,
                            vv,
                        ),
                decreases frags@.len() - m,
            {
                let ghost b = rv[id as int].subrange(sp[m as int].0, sp[m as int].1);
                proof {
                    crate::template::lemma_template_kind(*t, m as int);
                    lemma_fragment_text(*setup, b, *frags@[m as int]);
                    assert(span_text(rv[id as int], m as int) == fragment_text(b));
                    assert forall|j: int|
                        0 <= j < n && (!setup.is_hashed(j) || dependency_of_text(
                            *setup,
                            fragment_text(b),
                        ) == Some(j)) implies #[trigger] publics@[j]@ == public_path(
                        setup.assets@[j].hash,
                        setup.paths()[j],
                        contents@[j]@,
                    ) by {
                        if dependency_of_text(*setup, fragment_text(b)) == Some(j) {
                            assert(depends(*setup, rv, id as int, j));
                        }
                    }
                }
                match fragment_value(setup, id, frags[m], &contents, &publics, vars, Ghost(b)) {
                    Ok(v) => {
                        proof {
                            let t = fragment_text(b);
                            if is_var_text(t) {
                                assert(*frags@[m as int] is Var);
                            }
                        }
                        values.push(v);
                    },
                    Err(e) => {
                        proof {
                            assert(is_fragment(*setup, rv, id as int, m as int));
                            assert(reports(*setup, rv, vv, e));
                        }
                        return Err(e);
                    },
                }
                m = m + 1;
            }
            let rendered = t.render_borrowed(&values);
            proof {
                assert(values@.map_values(|v: Vec<u8>| v@) =~= Seq::new(
                    sp.len(),
                    |q: int| value_of(*setup, span_text(rv[id as int], q), c0, vv),
                ));
            }
            contents.set(id, rendered);
        }
        let ghost c1 = bytes_view(contents@);
        proof {
            assert(c1 =~= c0.update(id as int, contents@[id as int]@));
            lemma_expected_frame(*setup, rv, c0, c1, vv, id as int);
            assert forall|x: int| 0 <= x < n && done[x] implies expected_content(*setup, rv, c0, vv, x)
                == expected_content(*setup, rv, c1, vv, x) by {
                lemma_expected_frame(*setup, rv, c0, c1, vv, x);
            }
        }
        if setup.assets[id].hashed_filename() {
            let p = path_of(&setup.assets[id].hash, setup.assets[id].path.as_str(), contents[id].as_slice());
            publics.set(id, p);
        }
        proof {
            done = done.update(id as int, true);
            let s0 = order@.subrange(0, k as int);
            let s1 = order@.subrange(0, k + 1);
            assert(s1 =~= s0.push(id));
            assert forall|x: int| 0 <= x < n implies (#[trigger] done[x] <==> s1.contains(x as usize)) by {
                if x != id {
                    if s1.contains(x as usize) {
                        let j = choose|j: int| 0 <= j < s1.len() && s1[j] == x as usize;
                        assert(s0[j] == x as usize);
                    }
                    if s0.contains(x as usize) {
                        let j = choose|j: int| 0 <= j < s0.len() && s0[j] == x as usize;
                        assert(s1[j] == x as usize);
                    }
                } else {
                    assert(s1[k as int] == id);
                }
            }
        }
        k = k + 1;
    }
    proof {
        assert(order@.subrange(0, n as int) =~= order@);
        assert forall|x: int| 0 <= x < n implies #[trigger] bytes_view(contents@)[x] == expected_content(
            *setup,
            rv,
            bytes_view(contents@),
            vv,
            x,
        ) && strings_view(publics@)[x] == public_path(
            setup.assets@[x].hash,
            setup.paths()[x],
            bytes_view(contents@)[x],
        ) by {
            assert(order@.contains(x as usize));
            assert(done[x]);
        }
    }
    proof {
        assert forall|x: int|
            0 <= x < n && setup.assets@[x].template implies variables_present(#[trigger] rv[x], vv) by {
            assert(order@.contains(x as usize));
            assert(order@.subrange(0, n as int) =~= order@);
            assert(done[x]);
        }
        assert forall|e: ResolveError| !reports(*setup, rv, vv, e) by {
            lemma_no_defect(*setup, rv, vv, templates@, e);
        }
    }
    Ok(ResolveResult { assets: contents, public_paths: publics })
}


/// The catalog has no cycle of dependencies.
pub open spec fn dependencies_acyclic(setup: Setup, raws: Seq<Seq<u8>>) -> bool {
    forall|ids: Seq<usize>| !#[trigger] is_dependency_cycle(setup, raws, ids)
}

/// An asset on which `x` depends and where the two contents differ.
spec fn next_difference(
    setup: Setup,
    raws: Seq<Seq<u8>>,
    c1: Seq<Seq<u8>>,
    c2: Seq<Seq<u8>>,
    x: int,
) -> int {
    choose|y: int| 0 <= y < setup.assets@.len() && depends(setup, raws, x, y) && c1[y] != c2[y]
}

spec fn difference_walk(
    setup: Setup,
    raws: Seq<Seq<u8>>,
    c1: Seq<Seq<u8>>,
    c2: Seq<Seq<u8>>,
    x: int,
    k: nat,
) -> int
    decreases k,
{
    if k == 0 {
        x
    } else {
        next_difference(setup, raws, c1, c2, difference_walk(setup, raws, c1, c2, x, (k - 1) as nat))
    }
}

proof fn lemma_difference_step(
    setup: Setup,
    raws: Seq<Seq<u8>>,
    vars: Seq<(Seq<char>, Seq<char>)>,
    c1: Seq<Seq<u8>>,
    pubs1: Seq<Seq<char>>,
    c2: Seq<Seq<u8>>,
    pubs2: Seq<Seq<char>>,
    x: int,
)
    requires
        is_resolution(setup, raws, vars, c1, pubs1),
        is_resolution(setup, raws, vars, c2, pubs2),
        0 <= x < setup.assets@.len(),
        c1[x] != c2[x],
    ensures
        exists|y: int| 0 <= y < setup.assets@.len() && depends(setup, raws, x, y) && c1[y] != c2[y],
{
    if !exists|y: int| 0 <= y < setup.assets@.len() && depends(setup, raws, x, y) && c1[y] != c2[y] {
        lemma_expected_frame(setup, raws, c1, c2, vars, x);
        assert(c1[x] == expected_content(setup, raws, c1, vars, x));
        assert(c2[x] == expected_content(setup, raws, c2, vars, x));
    }
}

proof fn lemma_difference_walk(
    setup: Setup,
    raws: Seq<Seq<u8>>,
    vars: Seq<(Seq<char>, Seq<char>)>,
    c1: Seq<Seq<u8>>,
    pubs1: Seq<Seq<char>>,
    c2: Seq<Seq<u8>>,
    pubs2: Seq<Seq<char>>,
    x: int,
    k: nat,
)
    requires
        is_resolution(setup, raws, vars, c1, pubs1),
        is_resolution(setup, raws, vars, c2, pubs2),
        0 <= x < setup.assets@.len(),
        c1[x] != c2[x],
    ensures
        0 <= difference_walk(setup, raws, c1, c2, x, k) < setup.assets@.len(),
        c1[difference_walk(setup, raws, c1, c2, x, k)] != c2[difference_walk(setup, raws, c1, c2, x, k)],
        depends(
            setup,
            raws,
            difference_walk(setup, raws, c1, c2, x, k),
            difference_walk(setup, raws, c1, c2, x, k + 1),
        ),
    decreases k,
{
    if k > 0 {
        lemma_difference_walk(setup, raws, vars, c1, pubs1, c2, pubs2, x, (k - 1) as nat);
        let prev = difference_walk(setup, raws, c1, c2, x, (k - 1) as nat);
        lemma_difference_step(setup, raws, vars, c1, pubs1, c2, pubs2, prev);
        assert(difference_walk(setup, raws, c1, c2, x, k) == next_difference(setup, raws, c1, c2, prev));
    }
    let w = difference_walk(setup, raws, c1, c2, x, k);
    lemma_difference_step(setup, raws, vars, c1, pubs1, c2, pubs2, w);
    assert(difference_walk(setup, raws, c1, c2, x, k + 1) == next_difference(setup, raws, c1, c2, w));
}

/// A catalog without dependency cycles resolves in one way only: two resolutions of the
/// same assets, contents and variables have the same contents and the same public
/// paths. So every successful `resolve` of the same inputs gives the same bytes and
/// the same hashed names.
pub proof fn resolution_is_unique(
    setup: Setup,
    raws: Seq<Seq<u8>>,
    vars: Seq<(Seq<char>, Seq<char>)>,
    c1: Seq<Seq<u8>>,
    pubs1: Seq<Seq<char>>,
    c2: Seq<Seq<u8>>,
    pubs2: Seq<Seq<char>>,
)
    requires
        setup.wf(),
        dependencies_acyclic(setup, raws),
        is_resolution(setup, raws, vars, c1, pubs1),
        is_resolution(setup, raws, vars, c2, pubs2),
    ensures
        c1 == c2,
        pubs1 == pubs2,
{
    let n = setup.assets@.len();
    assert forall|x: int| 0 <= x < n implies c1[x] == c2[x] by {
        if c1[x] != c2[x] {
            let s = Seq::new((n + 1) as nat, |k: int| difference_walk(setup, raws, c1, c2, x, k as nat) as usize);
            assert forall|k: int| 0 <= k < s.len() implies (s[k] as nat) < n && s[k] as int
                == difference_walk(setup, raws, c1, c2, x, k as nat) by {
                lemma_difference_walk(setup, raws, vars, c1, pubs1, c2, pubs2, x, k as nat);
            }
            if s.no_duplicates() {
                crate::graph::lemma_distinct_nodes(s, n);
            }
            let (i, j) = choose|i: int, j: int| 0 <= i < s.len() && 0 <= j < s.len() && i != j && s[i] == s[j];
            let (a, b) = if i < j { (i, j) } else { (j, i) };
            let ids = s.subrange(a, b);
            let len = ids.len() as int;
            assert forall|k: int| 0 <= k < len implies #[trigger] depends(
                setup,
                raws,
                ids[k] as int,
                ids[(k + 1) % len] as int,
            ) by {
                lemma_difference_walk(setup, raws, vars, c1, pubs1, c2, pubs2, x, (a + k) as nat);
                if k + 1 < len {
                    vstd::arithmetic::div_mod::lemma_small_mod((k + 1) as nat, len as nat);
                } else {
                    vstd::arithmetic::div_mod::lemma_mod_self_0(len);
                }
            }
            assert(is_dependency_cycle(setup, raws, ids));
        }
    }
    assert(c1 =~= c2);
    assert forall|x: int| 0 <= x < n implies pubs1[x] == pubs2[x] by {
        assert(c1[x] == c2[x]);
    }
    assert(pubs1 =~= pubs2);
}


/// The contents a per-request pass works with: the loaded bytes, and nothing for an
/// asset that was not loaded.
pub open spec fn loaded_or_empty(loaded: Seq<Option<Vec<u8>>>) -> Seq<Seq<u8>> {
    loaded.map_values(
        |o: Option<Vec<u8>>|
            match o {
                Some(v) => v@,
                None => Seq::empty(),
            },
    )
}

/// A per-request pass: resolves one asset, loading only the assets it depends on,
/// transitively. The caller loads what `next_to_load` names and hands it to `loaded`,
/// until `next_to_load` names nothing; `finish` then resolves.
pub struct SingleAssetWalk {
    requested: usize,
    stack: Vec<usize>,
    loaded: Vec<Option<Vec<u8>>>,
}

impl SingleAssetWalk {
    pub closed spec fn requested(&self) -> int {
        self.requested as int
    }

    /// The raw content of each asset so far, `None` for those not loaded.
    pub closed spec fn contents(&self) -> Seq<Option<Vec<u8>>> {
        self.loaded@
    }

    /// The assets still to look at, the last one first.
    pub closed spec fn queued(&self) -> Seq<usize> {
        self.stack@
    }

    pub closed spec fn wf(&self, n: int) -> bool {
        &&& self.loaded@.len() == n
        &&& self.requested < n
        &&& forall|k: int| 0 <= k < self.stack@.len() ==> self.stack@[k] < n
    }

    /// Starts a pass for the asset at `path`; `None` when there is none.
    pub fn new(setup: &Setup, path: &str) -> (r: Option<SingleAssetWalk>)
        requires
            setup.wf(),
        ensures
            r matches Some(w) ==> w.wf(setup.assets@.len() as int) && setup.id_of(path@)
                == Some(w.requested()) && forall|k: int|
                0 <= k < w.contents().len() ==> w.contents()[k] is None,
            r is None ==> setup.id_of(path@) is None,
    {
        let id = match setup.path_to_id(path) {
            Some(id) => id.0 as usize,
            None => {
                return None;
            },
        };
        let mut loaded: Vec<Option<Vec<u8>>> = Vec::new();
        let mut i: usize = 0;
        while i < setup.assets.len()
            invariant
                i <= setup.assets@.len(),
                loaded@.len() == i,
                forall|k: int| 0 <= k < i ==> loaded@[k] is None,
            decreases setup.assets@.len() - i,
        {
            loaded.push(None);
            i = i + 1;
        }
        let mut stack: Vec<usize> = Vec::new();
        stack.push(id);
        Some(SingleAssetWalk { requested: id, stack, loaded })
    }

    /// The next asset to load, `None` when all that are needed are loaded.
    pub fn next_to_load(&mut self) -> (r: Option<AssetId>)
        requires
            old(self).wf(old(self).contents().len() as int),
            old(self).contents().len() <= u32::MAX,
        ensures
            final(self).wf(old(self).contents().len() as int),
            final(self).contents() == old(self).contents(),
            final(self).requested() == old(self).requested(),
            r matches Some(id) ==> (id.0 as int) < old(self).contents().len() && (old(
                self,
            ).contents()[id.0 as int] is None) && old(self).queued().contains(id.0 as usize),
            r is None ==> final(self).queued().len() == 0 && forall|k: int|
                0 <= k < old(self).queued().len() ==> old(self).contents()[old(
                    self,
                ).queued()[k] as int] is Some,
    {
        let ghost n = self.loaded@.len() as int;
        while self.stack.len() > 0
            invariant
                self.wf(n),
                n == old(self).contents().len(),
                n <= u32::MAX,
                self.loaded@ == old(self).contents(),
                self.requested == old(self).requested,
                self.stack@.len() <= old(self).queued().len(),
                self.stack@ == old(self).queued().subrange(0, self.stack@.len() as int),
                forall|k: int|
                    self.stack@.len() <= k < old(self).queued().len() ==> self.loaded@[old(
                        self,
                    ).queued()[k] as int] is Some,
            decreases self.stack@.len(),
        {
            let ghost before = self.stack@;
            let id = self.stack.pop().unwrap();
            assert(before[before.len() - 1] == id);
            assert(self.stack@ =~= before.subrange(0, before.len() - 1));
            if self.loaded[id].is_none() {
                assert(old(self).queued()[before.len() - 1] == id);
                return Some(AssetId(id as u32));
            }
        }
        None
    }

    /// Records the raw content of asset `id` and, for a template, queues the assets its
    /// fragments depend on.
    pub fn loaded(&mut self, setup: &Setup, id: AssetId, raw: Vec<u8>) -> (r: Result<(), ResolveError>)
        requires
            setup.wf(),
            old(self).wf(setup.assets@.len() as int),
            (id.0 as int) < setup.assets@.len(),
        ensures
            final(self).wf(setup.assets@.len() as int),
            final(self).requested() == old(self).requested(),
            final(self).contents().len() == old(self).contents().len(),
            r is Ok ==> (final(self).contents()[id.0 as int] matches Some(v) && v@ == raw@),
            r is Ok && setup.assets@[id.0 as int].template ==> forall|j: int|
                #[trigger] fragment_depends(*setup, raw@, j) ==> final(self).queued().contains(
                    j as usize,
                ),
            forall|k: int| 0 <= k < old(self).queued().len() ==> final(self).queued().contains(old(self).queued()[k]),
            r matches Err(e) ==> setup.assets@[id.0 as int].template && reports(
                *setup,
                loaded_or_empty(old(self).contents()).update(id.0 as int, raw@),
                Seq::empty(),
                e,
            ),
            forall|k: int| 0 <= k < old(self).contents().len() && k != id.0 ==> final(self).contents()[k] == old(self).contents()[k],
    {
        let i = id.0 as usize;
        let ghost rs = loaded_or_empty(old(self).contents()).update(id.0 as int, raw@);
        assert(rs[id.0 as int] == raw@);
        if setup.assets[i].template {
            let t = match Template::parse(copy_bytes(raw.as_slice())) {
                Ok(t) => t,
                Err(err) => {
                    let e = ResolveError::Template { err, file: setup.assets[i].path.clone() };
                    proof {
                        let k = choose|k: int|
                            0 <= k < fragment_spans(raw@).len() && fails_with(
                                raw@.subrange(fragment_spans(raw@)[k].0, fragment_spans(raw@)[k].1),
                                err,
                            );
                        assert(is_fragment(*setup, rs, id.0 as int, k));
                        assert(reports(*setup, rs, Seq::empty(), e));
                    }
                    return Err(e);
                },
            };
            proof {
                crate::template::lemma_template_spans(t);
            }
            let frags = t.fragments();
            let ghost sp = t.spans();
            let mut k: usize = 0;
            while k < frags.len()
                invariant
                    setup.wf(),
                    self.wf(setup.assets@.len() as int),
                    self.requested == old(self).requested,
                    self.loaded@ == old(self).contents(),
                    (id.0 as int) < setup.assets@.len(),
                    t.wf(),
                    t.raw() == raw@,
                    sp == t.spans(),
                    sp == fragment_spans(raw@),
                    frags@.len() == sp.len(),
                    forall|q: int| 0 <= q < frags@.len() ==> *frags@[q] == t.kinds()[q],
                    k <= frags@.len(),
                    rs == loaded_or_empty(old(self).contents()).update(id.0 as int, raw@),
                    rs[id.0 as int] == raw@,
                    setup.assets@[id.0 as int].template,
                    forall|q: int| 0 <= q < old(self).queued().len() ==> self.stack@.contains(old(self).queued()[q]),
                    forall|m: int, b: int|
                        0 <= m < k && dependency_of_text(*setup, span_text(raw@, m)) == Some(b)
                            ==> self.stack@.contains(b as usize),
                decreases frags@.len() - k,
            {
                let ghost b = raw@.subrange(sp[k as int].0, sp[k as int].1);
                proof {
                    crate::template::lemma_template_kind(t, k as int);
                    lemma_fragment_text(*setup, b, *frags@[k as int]);
                    assert(span_text(raw@, k as int) == fragment_text(b));
                }
                match dependency_in_fragment(frags[k], id, setup) {
                    Ok(Some(dep)) => {
                        proof {
                            crate::catalog::lemma_find_path_found(setup.paths(), match *frags@[k as int] {
                                Fragment::Include(p) => p@,
                                Fragment::Path(p) => p@,
                                Fragment::Var(p) => p@,
                            }, 0);
                        }
                        let ghost before = self.stack@;
                        self.stack.push(dep.0 as usize);
                        proof {
                            assert(self.stack@[before.len() as int] == dep.0 as usize);
                            assert forall|q: int| 0 <= q < old(self).queued().len() implies self.stack@.contains(old(self).queued()[q]) by {
                                let j = choose|j: int| 0 <= j < before.len() && before[j] == old(self).queued()[q];
                                assert(self.stack@[j] == before[j]);
                            }
                            assert forall|m: int, c: int|
                                0 <= m < k + 1 && dependency_of_text(*setup, span_text(raw@, m)) == Some(c)
                                    implies self.stack@.contains(c as usize) by {
                                if m < k {
                                    let j = choose|j: int| 0 <= j < before.len() && before[j] == c as usize;
                                    assert(self.stack@[j] == before[j]);
                                }
                            }
                        }
                    },
                    Ok(None) => {},
                    Err(e) => {
                        proof {
                            assert(is_fragment(*setup, rs, id.0 as int, k as int));
                            assert(span_text(rs[id.0 as int], k as int) == fragment_text(b));
                            assert(reports(*setup, rs, Seq::empty(), e));
                        }
                        return Err(e);
                    },
                }
                k = k + 1;
            }
            proof {
                assert forall|j: int| #[trigger] fragment_depends(*setup, raw@, j) implies self.stack@.contains(j as usize) by {
                    let m = choose|m: int|
                        0 <= m < fragment_spans(raw@).len() && dependency_of_text(
                            *setup,
                            span_text(raw@, m),
                        ) == Some(j);
                }
            }
        }
        self.loaded.set(i, Some(raw));
        Ok(())
    }

    /// Resolves the requested asset over the contents loaded so far, assets not loaded
    /// counting as empty.
    pub fn finish(self, setup: &Setup, vars: &Vec<(String, String)>) -> (r: Result<Vec<u8>, ResolveError>)
        requires
            setup.wf(),
            self.wf(setup.assets@.len() as int),
        ensures
            r matches Ok(c) ==> exists|contents: Seq<Seq<u8>>, publics: Seq<Seq<char>>|
                is_resolution(*setup, loaded_or_empty(self.contents()), vars_view(vars@), contents, publics)
                    && c@ == contents[self.requested()],
            r matches Err(e) ==> reports(*setup, loaded_or_empty(self.contents()), vars_view(vars@), e),
    {
        let mut raws: Vec<Vec<u8>> = Vec::new();
        let mut i: usize = 0;
        while i < self.loaded.len()
            invariant
                i <= self.loaded@.len(),
                raws@.len() == i,
                forall|k: int| 0 <= k < i ==> #[trigger] raws@[k]@ == loaded_or_empty(self.loaded@)[k],
            decreases self.loaded@.len() - i,
        {
            match &self.loaded[i] {
                Some(v) => raws.push(copy_bytes(v.as_slice())),
                None => raws.push(Vec::new()),
            }
            i = i + 1;
        }
        assert(bytes_view(raws@) =~= loaded_or_empty(self.loaded@));
        match resolve(setup, &raws, vars) {
            Ok(res) => {
                let c = copy_bytes(res.assets[self.requested].as_slice());
                proof {
                    let contents = bytes_view(res.assets@);
                    let publics = strings_view(res.public_paths@);
                    assert(is_resolution(*setup, loaded_or_empty(self.loaded@), vars_view(vars@), contents, publics));
                    assert(c@ == contents[self.requested()]);
                    assert(is_resolution(*setup, loaded_or_empty(self.contents()), vars_view(vars@), contents, publics)
                        && c@ == contents[self.requested()]);
                }
                Ok(c)
            },
            Err(e) => Err(e),
        }
    }
}

/// The next of three assets, in a ring.
pub open spec fn next_of_three(x: int) -> int {
    if x == 2 {
        0
    } else {
        x + 1
    }
}

/// Three templates that each depend on the next, the last on the first, and on nothing
/// else: the catalog has a dependency cycle, so `resolve` cannot succeed, and every cycle
/// it reports names all three assets.
pub proof fn three_file_cycle_is_reported(
    setup: Setup,
    raws: Seq<Seq<u8>>,
    vars: Seq<(Seq<char>, Seq<char>)>,
    names: Vec<String>,
)
    requires
        setup.assets@.len() == 3,
        forall|a: int, b: int|
            #[trigger] depends(setup, raws, a, b) <==> (0 <= a < 3 && b == next_of_three(a)),
    ensures
        !dependencies_acyclic(setup, raws),
        reports(setup, raws, vars, ResolveError::CyclicInclude(names)) ==> forall|x: int|
            0 <= x < 3 ==> #[trigger] strings_view(names@).contains(setup.paths()[x]),
{
    let ring = seq![0usize, 1usize, 2usize];
    assert forall|k: int| 0 <= k < 3 implies #[trigger] depends(
        setup,
        raws,
        ring[k] as int,
        ring[(k + 1) % 3] as int,
    ) by {
        assert(depends(setup, raws, ring[k] as int, next_of_three(ring[k] as int)));
    }
    assert(is_dependency_cycle(setup, raws, ring));
    if reports(setup, raws, vars, ResolveError::CyclicInclude(names)) {
        let ids = choose|ids: Seq<usize>|
            is_dependency_cycle(setup, raws, ids) && ids.no_duplicates() && names@.len() == ids.len()
                && forall|k: int| 0 <= k < ids.len() ==> #[trigger] names@[k]@ == setup.paths()[ids[k] as int];
        let len = ids.len() as int;
        assert forall|k: int| 0 <= k < len implies #[trigger] ids[k] < 3 && (k + 1 < len ==> ids[k + 1] as int == next_of_three(ids[k] as int)) by {
            vstd::arithmetic::div_mod::lemma_mod_self_0(len);
            if k + 1 < len {
                vstd::arithmetic::div_mod::lemma_small_mod((k + 1) as nat, len as nat);
            }
            assert(depends(setup, raws, ids[k] as int, ids[(k + 1) % len] as int));
        }
        crate::graph::lemma_distinct_nodes(ids, 3);
        vstd::arithmetic::div_mod::lemma_mod_self_0(len);
        let last = ids[len - 1] as int;
        assert(depends(setup, raws, ids[len - 1] as int, ids[(len - 1 + 1) % len] as int));
        assert(ids[0] as int == next_of_three(last));
        if len == 1 {
            assert(ids[0] as int == next_of_three(ids[0] as int));
        } else if len == 2 {
            assert(ids[1] as int == next_of_three(ids[0] as int));
        }
        assert(len == 3);
        assert forall|x: int| 0 <= x < 3 implies #[trigger] strings_view(names@).contains(setup.paths()[x]) by {
            let a = ids[0] as int;
            let nv = strings_view(names@);
            if x == a {
                assert(nv[0] == setup.paths()[x]);
            } else if x == next_of_three(a) {
                assert(nv[1] == setup.paths()[x]);
            } else {
                assert(nv[2] == setup.paths()[x]);
            }
        }
    }
}

/// A template whose only fragment is `path:` naming another asset resolves to its text
/// around the fragment with that asset's public path in between: the hashed name when
/// the asset's path carries a hash, computed over its final content.
pub proof fn path_reference_gets_public_path(
    setup: Setup,
    raws: Seq<Seq<u8>>,
    vars: Seq<(Seq<char>, Seq<char>)>,
    contents: Seq<Seq<u8>>,
    publics: Seq<Seq<char>>,
    i: int,
    j: int,
)
    requires
        is_resolution(setup, raws, vars, contents, publics),
        0 <= i < setup.assets@.len(),
        setup.assets@[i].template,
        fragment_spans(raws[i]).len() == 1,
        has_prefix(span_text(raws[i], 0), path_prefix()),
        setup.id_of(name_after(span_text(raws[i], 0), path_prefix())) == Some(j),
    ensures
        0 <= j < setup.assets@.len(),
        publics[j] == public_path(setup.assets@[j].hash, setup.paths()[j], contents[j]),
        contents[i] == raws[i].subrange(0, fragment_spans(raws[i])[0].0 - 4) + encode_utf8(publics[j])
            + raws[i].subrange(fragment_spans(raws[i])[0].1 + 4, raws[i].len() as int),
{
    let t = span_text(raws[i], 0);
    crate::catalog::lemma_find_path_found(setup.paths(), name_after(t, path_prefix()), 0);
    assert(!has_prefix(t, include_prefix())) by {
        assert(t.subrange(0, 5)[0] == 'p');
        if has_prefix(t, include_prefix()) {
            assert(t.subrange(0, 8)[0] == 'i');
        }
    }
    let raw = raws[i];
    let spans = fragment_spans(raw);
    let vals = Seq::new(spans.len(), |k: int| value_of(setup, span_text(raw, k), contents, vars));
    assert(contents[i] == expected_content(setup, raws, contents, vars, i));
    assert(vals =~= seq![encode_utf8(publics[j])]);
    crate::template::substitution_is_single_pass(raw, encode_utf8(publics[j]));
}

} // verus!
