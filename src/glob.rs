//! Embed patterns: telling a plain path from a glob, and splitting a glob after its
//! fixed leading segments.
use vstd::prelude::*;
use vstd::string::StrSliceExecFns;

use crate::hash::string_of;

verus! {

pub open spec fn is_meta(c: char) -> bool {
    c == '?' || c == '*' || c == '[' || c == ']'
}

/// `s` starts with a meta character escaped by brackets: `[?]`, `[*]`, `[]]` or `[[]`.
pub open spec fn escaped_at_start(s: Seq<char>) -> bool {
    s.len() >= 3 && s[0] == '[' && s[2] == ']' && is_meta(s[1])
}

/// The path that `s` names when it is no glob (escapes undone), or `None` for a glob.
pub open spec fn unescaped(s: Seq<char>) -> Option<Seq<char>>
    decreases s.len(),
{
    if s.len() == 0 {
        Some(Seq::empty())
    } else if escaped_at_start(s) {
        match unescaped(s.subrange(3, s.len() as int)) {
            Some(rest) => Some(seq![s[1]] + rest),
            None => None,
        }
    } else if is_meta(s[0]) {
        None
    } else {
        match unescaped(s.drop_first()) {
            Some(rest) => Some(seq![s[0]] + rest),
            None => None,
        }
    }
}

/// Whether an embed pattern names one file or is a glob.
#[derive(Debug, Clone, PartialEq, Eq)]
pub enum Globness {
    /// A plain path, with escaped meta characters undone.
    NotGlob(String),
    Glob,
}

impl Globness {
    /// Classifies `s`: a meta character (`?`, `*`, `[`, `]`) makes it a glob unless it
    /// stands escaped as `[?]`, `[*]`, `[]]` or `[[]`.
    pub fn check(s: &str) -> (r: Globness)
        ensures
            r matches Globness::NotGlob(p) ==> unescaped(s@) == Some(p@),
            r is Glob ==> unescaped(s@) is None,
    {
        let len = s.unicode_len();
        let mut out: Vec<char> = Vec::new();
        let mut i: usize = 0;
        proof {
            assert(s@.subrange(0, len as int) =~= s@);
            if let Some(r) = unescaped(s@) {
                assert(out@ + r =~= r);
            }
        }
        while i < len
            invariant
                len == s@.len(),
                i <= len,
                unescaped(s@) == match unescaped(s@.subrange(i as int, len as int)) {
                    Some(rest) => Some(out@ + rest),
                    None => None,
                },
            decreases len - i,
        {
            let ghost rest = s@.subrange(i as int, len as int);
            let c = s.get_char(i);
            assert(rest[0] == c);
            if c == '[' && len - i > 2 && s.get_char(i + 2) == ']' && (s.get_char(i + 1) == '?'
                || s.get_char(i + 1) == '*' || s.get_char(i + 1) == '[' || s.get_char(i + 1)
                == ']') {
                let e = s.get_char(i + 1);
                proof {
                    assert(rest[1] == e);
                    assert(rest[2] == ']');
                    assert(rest.subrange(3, rest.len() as int) =~= s@.subrange(i + 3, len as int));
                    assert(out@.push(e) + s@.subrange(i + 3, len as int) =~= out@ + (seq![e]
                        + s@.subrange(i + 3, len as int)));
                    if let Some(r2) = unescaped(s@.subrange(i + 3, len as int)) {
                        assert(out@.push(e) + r2 =~= out@ + (seq![e] + r2));
                    }
                }
                out.push(e);
                i = i + 3;
            } else if c == '?' || c == '*' || c == '[' || c == ']' {
                proof {
                    if c == '[' {
                        assert(!escaped_at_start(rest)) by {
                            if escaped_at_start(rest) {
                                assert(rest[2] == s@[i + 2]);
                                assert(rest[1] == s@[i + 1]);
                            }
                        }
                    }
                }
                return Globness::Glob;
            } else {
                proof {
                    assert(rest.drop_first() =~= s@.subrange(i + 1, len as int));
                    if let Some(r2) = unescaped(s@.subrange(i + 1, len as int)) {
                        assert(out@.push(c) + r2 =~= out@ + (seq![c] + r2));
                    }
                }
                out.push(c);
                i = i + 1;
            }
        }
        proof {
            assert(s@.subrange(len as int, len as int) =~= Seq::<char>::empty());
            assert(out@ + Seq::<char>::empty() =~= out@);
        }
        Globness::NotGlob(string_of(&out))
    }
}

/// Where the first segment with a meta character starts, scanning from `i` inside a
/// segment that starts at `seg`; the length when there is none.
pub open spec fn split_from(s: Seq<char>, seg: int, i: int) -> int
    decreases s.len() - i,
{
    if i < 0 || i >= s.len() {
        s.len() as int
    } else if s[i] == '/' {
        split_from(s, i + 1, i + 1)
    } else if is_meta(s[i]) {
        seg
    } else {
        split_from(s, seg, i + 1)
    }
}

/// A glob split after its leading segments without meta characters.
#[derive(Debug, Clone, PartialEq, Eq)]
pub struct SplitGlob {
    /// The leading segments without meta characters, each with its `/`.
    pub prefix: String,
    /// The rest, from the first segment with a meta character on.
    pub suffix: String,
}

impl SplitGlob {
    pub fn new(glob: &str) -> (r: SplitGlob)
        ensures
            r.prefix@ == glob@.subrange(0, split_from(glob@, 0, 0)),
            r.suffix@ == glob@.subrange(split_from(glob@, 0, 0), glob@.len() as int),
    {
        let len = glob.unicode_len();
        let mut seg: usize = 0;
        let mut i: usize = 0;
        let mut at = len;
        while at == len && i < len
            invariant
                len == glob@.len(),
                seg <= i <= len,
                at <= len,
                at == len ==> split_from(glob@, 0, 0) == split_from(glob@, seg as int, i as int),
                at < len ==> split_from(glob@, 0, 0) == at,
            decreases len - i,
        {
            let c = glob.get_char(i);
            if c == '/' {
                seg = i + 1;
            } else if c == '?' || c == '*' || c == '[' || c == ']' {
                at = seg;
            }
            i = i + 1;
        }
        let prefix = glob.substring_char(0, at).to_owned();
        let suffix = glob.substring_char(at, len).to_owned();
        SplitGlob { prefix, suffix }
    }
}

/// Whether `glob::Pattern::new` accepts `pattern` and the pattern matches `s`.
pub uninterp spec fn glob_matches(pattern: Seq<char>, s: Seq<char>) -> bool;

/// Whether `glob::Pattern::new` accepts `pattern`.
pub uninterp spec fn glob_valid(pattern: Seq<char>) -> bool;

/// Relies on `glob::Pattern::new` and `Pattern::matches`: `false` for a pattern that does
/// not compile, otherwise whether it matches; depends on the two strings alone.
#[verifier::external_body]
fn pattern_matches(pattern: &str, s: &str) -> (r: bool)
    ensures
        r == glob_matches(pattern@, s@),
{
    match glob::Pattern::new(pattern) {
        Ok(p) => p.matches(s),
        Err(_) => false,
    }
}

/// Relies on `glob::Pattern::new`: whether it accepts `pattern`.
#[verifier::external_body]
fn pattern_valid(pattern: &str) -> (r: bool)
    ensures
        r == glob_valid(pattern@),
{
    glob::Pattern::new(pattern).is_ok()
}

impl SplitGlob {
    /// Whether the part after the fixed prefix is a valid glob pattern.
    pub fn is_valid(&self) -> (r: bool)
        ensures
            r == glob_valid(self.suffix@),
    {
        pattern_valid(self.suffix.as_str())
    }

    /// Whether a glob entry mounted at `http_prefix` serves `http_path`: the path starts
    /// with the prefix and the rest matches the glob's part after its fixed prefix.
    pub fn matches(&self, http_prefix: &str, http_path: &str) -> (r: bool)
        ensures
            r == (crate::template::has_prefix(http_path@, http_prefix@) && glob_matches(
                self.suffix@,
                http_path@.subrange(http_prefix@.len() as int, http_path@.len() as int),
            )),
    {
        let plen = http_prefix.unicode_len();
        let len = http_path.unicode_len();
        if plen > len {
            return false;
        }
        let mut i: usize = 0;
        while i < plen
            invariant
                plen == http_prefix@.len(),
                len == http_path@.len(),
                plen <= len,
                i <= plen,
                forall|k: int| 0 <= k < i ==> http_path@[k] == http_prefix@[k],
            decreases plen - i,
        {
            if http_path.get_char(i) != http_prefix.get_char(i) {
                assert(http_path@.subrange(0, plen as int)[i as int] != http_prefix@[i as int]);
                return false;
            }
            i = i + 1;
        }
        assert(http_path@.subrange(0, plen as int) =~= http_prefix@);
        let rest = http_path.substring_char(plen, len);
        pattern_matches(self.suffix.as_str(), rest)
    }
}

} // verus!
