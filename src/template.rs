//! Template fragments: `{{: path:x :}}`, `{{: include:x :}}` and `{{: var:x :}}`.
//!
//! A fragment opens with the four bytes `{{: ` and closes with the four bytes ` :}}`. The
//! candidate, both markers included, must hold no line break and be at most
//! `MAX_FRAGMENT_LEN` bytes long; otherwise the opening marker is plain text and the scan
//! goes on right after it. The closing marker is searched only after the opening marker
//! (the two never share bytes). The text between the markers is trimmed and classified
//! by its prefix.
use vstd::prelude::*;
use vstd::string::StrSliceExecFns;
use vstd::utf8::{decode_utf8, valid_utf8};

verus! {

/// Fragments longer than this, markers included, are not recognised.
pub const MAX_FRAGMENT_LEN: usize = 256;

/// The bytes `{{: `.
pub open spec fn start_marker() -> Seq<u8> {
    seq![123u8, 123u8, 58u8, 32u8]
}

/// The bytes ` :}}`.
pub open spec fn end_marker() -> Seq<u8> {
    seq![32u8, 58u8, 125u8, 125u8]
}

pub open spec fn occurs_at(h: Seq<u8>, i: int, n: Seq<u8>) -> bool {
    0 <= i && i + n.len() <= h.len() && h.subrange(i, i + n.len()) == n
}

/// For a candidate whose opening marker starts at `st`: the offset from `st` of the first
/// closing marker at offset `p` or later, provided no line break comes before it and the
/// fragment stays within `MAX_FRAGMENT_LEN` bytes.
pub open spec fn end_from(s: Seq<u8>, st: int, p: int) -> Option<int>
    decreases 253 - p,
{
    if p < 0 || p > 252 || st + p + 4 > s.len() {
        None
    } else if s[st + p] == 10u8 {
        None
    } else if occurs_at(s, st + p, end_marker()) {
        Some(p)
    } else {
        end_from(s, st, p + 1)
    }
}

/// The spans `(a, b)` of all fragments of `s` at or after position `i`, left to right;
/// `s[a..b]` is the text between the markers.
pub open spec fn spans_from(s: Seq<u8>, i: int) -> Seq<(int, int)>
    decreases s.len() - i,
    via spans_from_decreases
{
    if i < 0 || i >= s.len() {
        Seq::empty()
    } else if occurs_at(s, i, start_marker()) {
        match end_from(s, i, 4) {
            Some(p) => seq![(i + 4, i + p)] + spans_from(s, i + p + 4),
            None => spans_from(s, i + 4),
        }
    } else {
        spans_from(s, i + 1)
    }
}

#[via_fn]
proof fn spans_from_decreases(s: Seq<u8>, i: int) {
    lemma_end_from(s, i, 4);
}

/// The spans of all fragments of `s`.
pub open spec fn fragment_spans(s: Seq<u8>) -> Seq<(int, int)> {
    spans_from(s, 0)
}

/// Spans that lie in order in a buffer of length `len`, the first one opening at or after
/// `from`.
pub open spec fn spans_ordered(len: int, spans: Seq<(int, int)>, from: int) -> bool
    decreases spans.len(),
{
    if spans.len() == 0 {
        0 <= from <= len
    } else {
        &&& 0 <= from <= spans[0].0 - 4
        &&& spans[0].0 <= spans[0].1
        &&& spans[0].1 + 4 <= len
        &&& spans_ordered(len, spans.drop_first(), spans[0].1 + 4)
    }
}

/// `raw` from `from` on, with the fragment at each span replaced by the matching value.
/// Values are inserted as they are: nothing in them is scanned again.
pub open spec fn render_spans(
    raw: Seq<u8>,
    spans: Seq<(int, int)>,
    values: Seq<Seq<u8>>,
    from: int,
) -> Seq<u8>
    decreases spans.len(),
{
    if spans.len() == 0 {
        raw.subrange(from, raw.len() as int)
    } else {
        raw.subrange(from, spans[0].0 - 4) + values[0] + render_spans(
            raw,
            spans.drop_first(),
            values.drop_first(),
            spans[0].1 + 4,
        )
    }
}

proof fn lemma_end_from(s: Seq<u8>, st: int, p: int)
    requires
        0 <= p,
    ensures
        end_from(s, st, p) matches Some(q) ==> p <= q <= 252 && st + q + 4 <= s.len()
            && occurs_at(s, st + q, end_marker()),
    decreases 253 - p,
{
    if p <= 252 && st + p + 4 <= s.len() && s[st + p] != 10u8 && !occurs_at(
        s,
        st + p,
        end_marker(),
    ) {
        lemma_end_from(s, st, p + 1);
    }
}

pub proof fn lemma_spans_ordered(s: Seq<u8>, i: int)
    requires
        0 <= i <= s.len(),
    ensures
        spans_ordered(s.len() as int, spans_from(s, i), i),
    decreases s.len() - i,
{
    if i < s.len() {
        if occurs_at(s, i, start_marker()) {
            lemma_end_from(s, i, 4);
            match end_from(s, i, 4) {
                Some(p) => {
                    lemma_spans_ordered(s, i + p + 4);
                    let rest = spans_from(s, i + p + 4);
                    assert((seq![(i + 4, i + p)] + rest).drop_first() =~= rest);
                },
                None => {
                    lemma_spans_ordered(s, i + 4);
                    lemma_ordered_from_earlier(s.len() as int, spans_from(s, i + 4), i + 4, i);
                },
            }
        } else {
            lemma_spans_ordered(s, i + 1);
            lemma_ordered_from_earlier(s.len() as int, spans_from(s, i + 1), i + 1, i);
        }
    }
}

proof fn lemma_ordered_from_earlier(len: int, spans: Seq<(int, int)>, from: int, earlier: int)
    requires
        spans_ordered(len, spans, from),
        0 <= earlier <= from,
    ensures
        spans_ordered(len, spans, earlier),
{
    if spans.len() > 0 {
        assert(spans_ordered(len, spans.drop_first(), spans[0].1 + 4));
    }
}

/// Nothing before position `j` opens a fragment, so scanning from `i` finds what scanning
/// from `j` finds.
proof fn lemma_skip(s: Seq<u8>, i: int, j: int)
    requires
        0 <= i <= j <= s.len(),
        forall|k: int| i <= k < j ==> !occurs_at(s, k, start_marker()),
    ensures
        spans_from(s, i) == spans_from(s, j),
    decreases j - i,
{
    if i < j {
        lemma_skip(s, i + 1, j);
    }
}

/// Position of the first occurrence of `needle` in `haystack`, if there is one.
pub fn find(haystack: &[u8], needle: &[u8]) -> (r: Option<usize>)
    requires
        needle@.len() > 0,
    ensures
        r matches Some(i) ==> occurs_at(haystack@, i as int, needle@) && forall|j: int|
            0 <= j < i ==> !occurs_at(haystack@, j, needle@),
        r is None ==> forall|j: int| 0 <= j ==> !occurs_at(haystack@, j, needle@),
{
    find_from(haystack, needle, 0)
}

fn occurs_at_exec(h: &[u8], i: usize, n: &[u8]) -> (r: bool)
    requires
        i + n@.len() <= h@.len(),
    ensures
        r == occurs_at(h@, i as int, n@),
{
    let hl = h.len();
    let mut k: usize = 0;
    while k < n.len()
        invariant
            hl == h@.len(),
            i + n@.len() <= h@.len(),
            k <= n@.len(),
            forall|m: int| 0 <= m < k ==> h@[i + m] == n@[m],
        decreases n@.len() - k,
    {
        if h[i + k] != n[k] {
            assert(h@.subrange(i as int, i + n@.len())[k as int] != n@[k as int]);
            return false;
        }
        k = k + 1;
    }
    assert(h@.subrange(i as int, i + n@.len()) =~= n@);
    true
}

/// First position at or after `from` where `needle` occurs.
fn find_from(haystack: &[u8], needle: &[u8], from: usize) -> (r: Option<usize>)
    requires
        needle@.len() > 0,
    ensures
        r matches Some(i) ==> from <= i && occurs_at(haystack@, i as int, needle@) && forall|
            j: int,
        | from <= j < i ==> !occurs_at(haystack@, j, needle@),
        r is None ==> forall|j: int| from <= j ==> !occurs_at(haystack@, j, needle@),
{
    if needle.len() > haystack.len() {
        return None;
    }
    let hl = haystack.len();
    let last = hl - needle.len();
    let mut i = from;
    while i <= last
        invariant
            hl == haystack@.len(),
            needle@.len() > 0,
            last + needle@.len() == haystack@.len(),
            from <= i,
            forall|j: int| from <= j < i ==> !occurs_at(haystack@, j, needle@),
        decreases last + 1 - i,
    {
        if occurs_at_exec(haystack, i, needle) {
            return Some(i);
        }
        i = i + 1;
    }
    None
}

/// The offset from `st` of the closing marker of the candidate opening at `st`.
fn find_end(input: &[u8], st: usize) -> (r: Option<usize>)
    requires
        st + 4 <= input@.len(),
    ensures
        r matches Some(p) ==> end_from(input@, st as int, 4) == Some(p as int),
        r is None ==> end_from(input@, st as int, 4) is None,
{
    let end: Vec<u8> = vec![32u8, 58u8, 125u8, 125u8];
    assert(end@ =~= end_marker());
    let mut p: usize = 4;
    while p <= 252 && p + 4 <= input.len() - st
        invariant
            4 <= p <= 253,
            st + 4 <= input@.len(),
            end@ == end_marker(),
            end_from(input@, st as int, 4) == end_from(input@, st as int, p as int),
        decreases 253 - p,
    {
        if input[st + p] == 10u8 {
            return None;
        }
        if occurs_at_exec(input, st + p, end.as_slice()) {
            return Some(p);
        }
        p = p + 1;
    }
    None
}

/// The spans of all fragments in `input`, in order; see `fragment_spans`.
pub struct FragmentSpans<'a> {
    input: &'a [u8],
    idx: usize,
}

impl<'a> FragmentSpans<'a> {
    /// The spans that `next` has still to return.
    pub closed spec fn remaining(&self) -> Seq<(int, int)> {
        spans_from(self.input@, self.idx as int)
    }

    pub closed spec fn input(&self) -> Seq<u8> {
        self.input@
    }

    pub closed spec fn wf(&self) -> bool {
        self.idx <= self.input@.len()
    }

    pub fn new(input: &'a [u8]) -> (r: Self)
        ensures
            r.wf(),
            r.input() == input@,
            r.remaining() == fragment_spans(input@),
    {
        FragmentSpans { input, idx: 0 }
    }

    /// The next span, as `(start, end)`: `input[start..end]` is the text between the
    /// markers, surrounding whitespace included.
    pub fn next(&mut self) -> (r: Option<(usize, usize)>)
        requires
            old(self).wf(),
        ensures
            final(self).wf(),
            final(self).input() == old(self).input(),
            r is None ==> old(self).remaining().len() == 0 && final(self).remaining().len() == 0,
            r matches Some(span) ==> old(self).remaining() == seq![(span.0 as int, span.1 as int)]
                + final(self).remaining(),
    {
        if self.idx >= self.input.len() {
            return None;
        }
        let start: Vec<u8> = vec![123u8, 123u8, 58u8, 32u8];
        assert(start@ =~= start_marker());
        while self.idx < self.input.len()
            invariant
                self.idx <= self.input@.len(),
                self.input == old(self).input,
                start@ == start_marker(),
                spans_from(self.input@, self.idx as int) == old(self).remaining(),
            decreases self.input@.len() - self.idx,
        {
            match find_from(self.input, start.as_slice(), self.idx) {
                None => {
                    proof {
                        lemma_skip(self.input@, self.idx as int, self.input@.len() as int);
                    }
                    self.idx = self.input.len();
                    return None;
                },
                Some(st) => {
                    proof {
                        lemma_skip(self.input@, self.idx as int, st as int);
                    }
                    match find_end(self.input, st) {
                        None => {
                            self.idx = st + 4;
                        },
                        Some(p) => {
                            proof {
                                lemma_end_from(self.input@, st as int, 4);
                            }
                            self.idx = st + p + 4;
                            return Some((st + 4, st + p));
                        },
                    }
                },
            }
        }
        None
    }
}

/// All fragment spans of `input`, in order.
pub fn spans_of(input: &[u8]) -> (r: Vec<(usize, usize)>)
    ensures
        r@.len() == fragment_spans(input@).len(),
        forall|k: int|
            0 <= k < r@.len() ==> (r@[k].0 as int, r@[k].1 as int) == #[trigger] fragment_spans(
                input@,
            )[k],
{
    let mut it = FragmentSpans::new(input);
    let mut r: Vec<(usize, usize)> = Vec::new();
    loop
        invariant
            it.wf(),
            it.input() == input@,
            r@.len() + it.remaining().len() == fragment_spans(input@).len(),
            forall|k: int|
                0 <= k < r@.len() ==> (r@[k].0 as int, r@[k].1 as int) == fragment_spans(
                    input@,
                )[k],
            forall|k: int|
                0 <= k < it.remaining().len() ==> it.remaining()[k] == fragment_spans(
                    input@,
                )[r@.len() + k],
        decreases it.remaining().len(),
    {
        let ghost before = it.remaining();
        match it.next() {
            None => {
                return r;
            },
            Some(span) => {
                proof {
                    assert(before[0] == (span.0 as int, span.1 as int));
                    assert forall|k: int| 0 <= k < it.remaining().len() implies it.remaining()[k]
                        == fragment_spans(input@)[r@.len() + 1 + k] by {
                        assert(before[k + 1] == it.remaining()[k]);
                    }
                }
                r.push(span);
            },
        }
    }
}

/// A byte string that the value of a fragment is written to.
pub struct Appender {
    buf: Vec<u8>,
}

impl Appender {
    pub closed spec fn view(&self) -> Seq<u8> {
        self.buf@
    }

    pub fn new() -> (r: Appender)
        ensures
            r@ == Seq::<u8>::empty(),
    {
        Appender { buf: Vec::new() }
    }

    pub fn append(&mut self, s: &[u8])
        ensures
            final(self)@ == old(self)@ + s@,
    {
        append_range(&mut self.buf, s, 0, s.len());
    }

    pub fn into_bytes(self) -> (r: Vec<u8>)
        ensures
            r@ == self@,
    {
        self.buf
    }
}

/// Appends `src[lo..hi]` to `out`.
pub fn append_range(out: &mut Vec<u8>, src: &[u8], lo: usize, hi: usize)
    requires
        lo <= hi <= src@.len(),
    ensures
        final(out)@ == old(out)@ + src@.subrange(lo as int, hi as int),
{
    let mut i = lo;
    while i < hi
        invariant
            lo <= i <= hi <= src@.len(),
            out@ == old(out)@ + src@.subrange(lo as int, i as int),
        decreases hi - i,
    {
        out.push(src[i]);
        assert(src@.subrange(lo as int, i + 1) =~= src@.subrange(lo as int, i as int).push(
            src@[i as int],
        ));
        i = i + 1;
    }
}


/// The Unicode `White_Space` characters.
pub open spec fn is_white_space(c: char) -> bool {
    let u = c as u32;
    (9 <= u <= 13) || u == 32 || u == 0x85 || u == 0xa0 || u == 0x1680 || (0x2000 <= u <= 0x200a)
        || u == 0x2028 || u == 0x2029 || u == 0x202f || u == 0x205f || u == 0x3000
}

/// `s` without leading white space.
pub open spec fn trim_start(s: Seq<char>) -> Seq<char>
    decreases s.len(),
{
    if s.len() > 0 && is_white_space(s[0]) {
        trim_start(s.drop_first())
    } else {
        s
    }
}

/// `s` without trailing white space.
pub open spec fn trim_end(s: Seq<char>) -> Seq<char>
    decreases s.len(),
{
    if s.len() > 0 && is_white_space(s.last()) {
        trim_end(s.drop_last())
    } else {
        s
    }
}

/// `s` without leading and trailing white space.
pub open spec fn trimmed(s: Seq<char>) -> Seq<char> {
    trim_end(trim_start(s))
}

/// Relies on `std::str::from_utf8`: it accepts exactly the valid UTF-8 byte strings and
/// then holds the characters they encode.
#[verifier::external_body]
fn decode(b: &[u8]) -> (r: Option<String>)
    ensures
        r is Some <==> valid_utf8(b@),
        r matches Some(s) ==> s@ == decode_utf8(b@),
{
    match std::str::from_utf8(b) {
        Ok(s) => Some(s.to_owned()),
        Err(_) => None,
    }
}

fn is_white_space_char(c: char) -> (r: bool)
    ensures
        r == is_white_space(c),
{
    let u = c as u32;
    (9 <= u && u <= 13) || u == 32 || u == 0x85 || u == 0xa0 || u == 0x1680 || (0x2000 <= u && u
        <= 0x200a) || u == 0x2028 || u == 0x2029 || u == 0x202f || u == 0x205f || u == 0x3000
}

proof fn lemma_trim_start(s: Seq<char>, i: int)
    requires
        0 <= i <= s.len(),
        forall|k: int| 0 <= k < i ==> is_white_space(s[k]),
        i == s.len() || !is_white_space(s[i]),
    ensures
        trim_start(s) == s.subrange(i, s.len() as int),
    decreases s.len(),
{
    if i > 0 {
        lemma_trim_start(s.drop_first(), i - 1);
        assert(s.drop_first().subrange(i - 1, s.len() - 1) =~= s.subrange(i, s.len() as int));
    } else {
        assert(s.subrange(0, s.len() as int) =~= s);
    }
}

proof fn lemma_trim_end(t: Seq<char>, j: int)
    requires
        0 <= j <= t.len(),
        forall|k: int| j <= k < t.len() ==> is_white_space(t[k]),
        j == 0 || !is_white_space(t[j - 1]),
    ensures
        trim_end(t) == t.subrange(0, j),
    decreases t.len(),
{
    if j < t.len() {
        lemma_trim_end(t.drop_last(), j);
        assert(t.drop_last().subrange(0, j) =~= t.subrange(0, j));
    } else {
        assert(t.subrange(0, j) =~= t);
    }
}

/// `s` without leading and trailing Unicode white space.
fn trim(s: &str) -> (r: String)
    ensures
        r@ == trimmed(s@),
{
    let len = s.unicode_len();
    let mut start: usize = 0;
    while start < len && is_white_space_char(s.get_char(start))
        invariant
            len == s@.len(),
            start <= len,
            forall|k: int| 0 <= k < start ==> is_white_space(s@[k]),
        decreases len - start,
    {
        start = start + 1;
    }
    let mut end = len;
    while end > start && is_white_space_char(s.get_char(end - 1))
        invariant
            len == s@.len(),
            start <= end <= len,
            forall|k: int| end <= k < len ==> is_white_space(s@[k]),
        decreases end,
    {
        end = end - 1;
    }
    proof {
        lemma_trim_start(s@, start as int);
        let t = s@.subrange(start as int, len as int);
        lemma_trim_end(t, end - start);
        assert(t.subrange(0, end - start) =~= s@.subrange(start as int, end as int));
    }
    s.substring_char(start, end).to_owned()
}

pub open spec fn path_prefix() -> Seq<char> {
    seq!['p', 'a', 't', 'h', ':']
}

pub open spec fn include_prefix() -> Seq<char> {
    seq!['i', 'n', 'c', 'l', 'u', 'd', 'e', ':']
}

pub open spec fn var_prefix() -> Seq<char> {
    seq!['v', 'a', 'r', ':']
}

pub open spec fn has_prefix(s: Seq<char>, p: Seq<char>) -> bool {
    p.len() <= s.len() && s.subrange(0, p.len() as int) == p
}

/// `s` up to its first `:`, or all of `s`.
pub open spec fn before_colon(s: Seq<char>) -> Seq<char>
    decreases s.len(),
{
    if s.len() == 0 {
        s
    } else if s[0] == ':' {
        Seq::empty()
    } else {
        seq![s[0]] + before_colon(s.drop_first())
    }
}

/// The trimmed text of a fragment whose bytes are `b`.
pub open spec fn fragment_text(b: Seq<u8>) -> Seq<char> {
    trimmed(decode_utf8(b))
}

/// A parsed template fragment.
#[derive(Debug, Clone, PartialEq, Eq)]
pub enum Fragment {
    /// Inserts the public path of another asset: `{{: path:bundle.js :}}`.
    Path(String),
    /// Inserts another asset: `{{: include:fonts.css :}}`.
    Include(String),
    /// Inserts a variable's value: `{{: var:name :}}`.
    Var(String),
}

/// Why a fragment could not be parsed.
#[derive(Debug, Clone, PartialEq, Eq)]
pub enum Error {
    /// The bytes between the markers are not valid UTF-8.
    NonUtf8TemplateFragment(Vec<u8>),
    /// The trimmed text starts with none of `path:`, `include:`, `var:`; holds the text
    /// up to the first `:`.
    UnknownTemplateSpecifier(String),
}

/// `f` is what the fragment with bytes `b` parses to.
pub open spec fn parses_to(b: Seq<u8>, f: Fragment) -> bool {
    let t = fragment_text(b);
    valid_utf8(b) && match f {
        Fragment::Path(n) => has_prefix(t, path_prefix()) && n@ == t.subrange(
            path_prefix().len() as int,
            t.len() as int,
        ),
        Fragment::Include(n) => has_prefix(t, include_prefix()) && n@ == t.subrange(
            include_prefix().len() as int,
            t.len() as int,
        ),
        Fragment::Var(n) => has_prefix(t, var_prefix()) && n@ == t.subrange(
            var_prefix().len() as int,
            t.len() as int,
        ),
    }
}

/// Fragment `j` of `input` parses.
pub open spec fn span_parses(input: Seq<u8>, j: int) -> bool {
    exists|f: Fragment|
        parses_to(input.subrange(fragment_spans(input)[j].0, fragment_spans(input)[j].1), f)
}

/// `e` is why the fragment with bytes `b` does not parse.
pub open spec fn fails_with(b: Seq<u8>, e: Error) -> bool {
    let t = fragment_text(b);
    match e {
        Error::NonUtf8TemplateFragment(v) => !valid_utf8(b) && v@ == b,
        Error::UnknownTemplateSpecifier(spec) => valid_utf8(b) && !has_prefix(t, path_prefix())
            && !has_prefix(t, include_prefix()) && !has_prefix(t, var_prefix()) && spec@
            == before_colon(t),
    }
}

fn starts_with(s: &str, slen: usize, p: &Vec<char>) -> (r: bool)
    requires
        slen == s@.len(),
    ensures
        r == has_prefix(s@, p@),
{
    if p.len() > slen {
        return false;
    }
    let mut i: usize = 0;
    while i < p.len()
        invariant
            p@.len() <= slen == s@.len(),
            i <= p@.len(),
            forall|k: int| 0 <= k < i ==> s@[k] == p@[k],
        decreases p@.len() - i,
    {
        if s.get_char(i) != p[i] {
            assert(s@.subrange(0, p@.len() as int)[i as int] != p@[i as int]);
            return false;
        }
        i = i + 1;
    }
    assert(s@.subrange(0, p@.len() as int) =~= p@);
    true
}

fn text_before_colon(s: &str, slen: usize) -> (r: String)
    requires
        slen == s@.len(),
    ensures
        r@ == before_colon(s@),
{
    let mut i: usize = 0;
    while i < slen && s.get_char(i) != ':'
        invariant
            slen == s@.len(),
            i <= slen,
            forall|k: int| 0 <= k < i ==> s@[k] != ':',
        decreases slen - i,
    {
        i = i + 1;
    }
    proof {
        lemma_before_colon(s@, i as int);
    }
    s.substring_char(0, i).to_owned()
}

proof fn lemma_before_colon(s: Seq<char>, i: int)
    requires
        0 <= i <= s.len(),
        forall|k: int| 0 <= k < i ==> s[k] != ':',
        i == s.len() || s[i] == ':',
    ensures
        before_colon(s) == s.subrange(0, i),
    decreases s.len(),
{
    if s.len() > 0 && i > 0 {
        lemma_before_colon(s.drop_first(), i - 1);
        assert(s.subrange(0, i) =~= seq![s[0]] + s.drop_first().subrange(0, i - 1));
    } else if s.len() > 0 {
        assert(s.subrange(0, i) =~= Seq::<char>::empty());
    } else {
        assert(s.subrange(0, i) =~= s);
    }
}

impl Fragment {
    /// Parses the bytes between the markers of a fragment.
    pub fn parse(bytes: &[u8]) -> (r: Result<Fragment, Error>)
        ensures
            r matches Ok(f) ==> parses_to(bytes@, f),
            r matches Err(e) ==> fails_with(bytes@, e),
    {
        let decoded = match decode(bytes) {
            Some(d) => d,
            None => {
                let mut copy: Vec<u8> = Vec::new();
                append_range(&mut copy, bytes, 0, bytes.len());
                assert(copy@ =~= bytes@);
                return Err(Error::NonUtf8TemplateFragment(copy));
            },
        };
        let text = trim(decoded.as_str());
        let t = text.as_str();
        let len = t.unicode_len();
        let path: Vec<char> = vec!['p', 'a', 't', 'h', ':'];
        let incl: Vec<char> = vec!['i', 'n', 'c', 'l', 'u', 'd', 'e', ':'];
        let var: Vec<char> = vec!['v', 'a', 'r', ':'];
        assert(path@ =~= path_prefix());
        assert(incl@ =~= include_prefix());
        assert(var@ =~= var_prefix());
        if starts_with(t, len, &path) {
            Ok(Fragment::Path(t.substring_char(5, len).to_owned()))
        } else if starts_with(t, len, &incl) {
            Ok(Fragment::Include(t.substring_char(8, len).to_owned()))
        } else if starts_with(t, len, &var) {
            Ok(Fragment::Var(t.substring_char(4, len).to_owned()))
        } else {
            Err(Error::UnknownTemplateSpecifier(text_before_colon(t, len)))
        }
    }

    /// The included asset's path, for an `include:` fragment.
    pub fn as_include(&self) -> (r: Option<&String>)
        ensures
            r matches Some(p) ==> *self == Fragment::Include(*p),
            r is None ==> !(self is Include),
    {
        match self {
            Fragment::Include(p) => Some(p),
            _ => None,
        }
    }
}

/// A fragment and its span.
pub struct SpannedFragment {
    pub start: usize,
    pub end: usize,
    pub kind: Fragment,
}

/// A parsed template: the raw bytes and the fragments found in them.
pub struct Template {
    raw: Vec<u8>,
    fragments: Vec<SpannedFragment>,
}

impl Template {
    pub closed spec fn raw(&self) -> Seq<u8> {
        self.raw@
    }

    pub closed spec fn spans(&self) -> Seq<(int, int)> {
        self.fragments@.map_values(|f: SpannedFragment| (f.start as int, f.end as int))
    }

    pub closed spec fn kinds(&self) -> Seq<Fragment> {
        self.fragments@.map_values(|f: SpannedFragment| f.kind)
    }

    pub closed spec fn wf(&self) -> bool {
        &&& self.spans() == fragment_spans(self.raw@)
        &&& forall|k: int|
            0 <= k < self.fragments@.len() ==> parses_to(
                self.raw@.subrange(self.spans()[k].0, self.spans()[k].1),
                #[trigger] self.kinds()[k],
            )
    }

    /// Parses `input`: finds its fragments and parses each of them, or fails on the first
    /// fragment that does not parse.
    pub fn parse(input: Vec<u8>) -> (r: Result<Template, Error>)
        ensures
            r matches Ok(t) ==> t.wf() && t.raw() == input@,
            r matches Err(e) ==> exists|k: int|
                0 <= k < fragment_spans(input@).len() && fails_with(
                    input@.subrange(fragment_spans(input@)[k].0, fragment_spans(input@)[k].1),
                    e,
                ) && forall|j: int| 0 <= j < k ==> #[trigger] span_parses(input@, j),
    {
        let spans = spans_of(input.as_slice());
        proof {
            lemma_spans_ordered(input@, 0);
            lemma_spans_in_bounds(input@.len() as int, fragment_spans(input@), 0);
        }
        let mut fragments: Vec<SpannedFragment> = Vec::new();
        let mut k: usize = 0;
        while k < spans.len()
            invariant
                k <= spans@.len(),
                spans@.len() == fragment_spans(input@).len(),
                forall|m: int|
                    0 <= m < spans@.len() ==> (spans@[m].0 as int, spans@[m].1 as int)
                        == fragment_spans(input@)[m],
                forall|m: int|
                    0 <= m < spans@.len() ==> 0 <= #[trigger] fragment_spans(input@)[m].0
                        <= fragment_spans(input@)[m].1 <= input@.len(),
                fragments@.len() == k,
                forall|m: int|
                    0 <= m < k ==> fragments@[m].start == spans@[m].0 && fragments@[m].end
                        == spans@[m].1,
                forall|m: int|
                    0 <= m < k ==> parses_to(
                        input@.subrange(spans@[m].0 as int, spans@[m].1 as int),
                        #[trigger] fragments@[m].kind,
                    ),
            decreases spans@.len() - k,
        {
            let (a, b) = spans[k];
            assert(fragment_spans(input@)[k as int].0 == a);
            let mut bytes: Vec<u8> = Vec::new();
            append_range(&mut bytes, input.as_slice(), a, b);
            match Fragment::parse(bytes.as_slice()) {
                Ok(kind) => {
                    fragments.push(SpannedFragment { start: a, end: b, kind });
                },
                Err(e) => {
                    proof {
                        assert forall|j: int| 0 <= j < k implies #[trigger] span_parses(input@, j) by {
                            let f = fragments@[j].kind;
                            assert((spans@[j].0 as int, spans@[j].1 as int) == fragment_spans(input@)[j]);
                            assert(parses_to(
                                input@.subrange(spans@[j].0 as int, spans@[j].1 as int),
                                f,
                            ));
                            assert(parses_to(
                                input@.subrange(fragment_spans(input@)[j].0, fragment_spans(input@)[j].1),
                                f,
                            ));
                        }
                    }
                    return Err(e);
                },
            }
            k = k + 1;
        }
        let t = Template { raw: input, fragments };
        proof {
            assert(t.spans() =~= fragment_spans(t.raw@));
            assert forall|m: int| 0 <= m < t.fragments@.len() implies parses_to(
                t.raw@.subrange(t.spans()[m].0, t.spans()[m].1),
                #[trigger] t.kinds()[m],
            ) by {
                assert(t.kinds()[m] == fragments@[m].kind);
            }
        }
        Ok(t)
    }

    /// The fragments, in order.
    pub fn fragments(&self) -> (r: Vec<&Fragment>)
        ensures
            r@.len() == self.kinds().len(),
            forall|k: int| 0 <= k < r@.len() ==> *r@[k] == self.kinds()[k],
    {
        let mut r: Vec<&Fragment> = Vec::new();
        let mut k: usize = 0;
        while k < self.fragments.len()
            invariant
                k <= self.fragments@.len(),
                r@.len() == k,
                forall|m: int| 0 <= m < k ==> *r@[m] == self.kinds()[m],
            decreases self.fragments@.len() - k,
        {
            r.push(&self.fragments[k].kind);
            k = k + 1;
        }
        r
    }

    /// The bytes that were parsed.
    pub fn raw_input(&self) -> (r: &Vec<u8>)
        ensures
            r@ == self.raw(),
    {
        &self.raw
    }

    /// `Ok` with the raw bytes when there is no fragment, else the template back.
    pub fn into_already_rendered(self) -> (r: Result<Vec<u8>, Template>)
        ensures
            r matches Ok(b) ==> self.spans().len() == 0 && b@ == self.raw(),
            r matches Err(t) ==> self.spans().len() > 0 && t == self,
    {
        if self.fragments.len() == 0 {
            Ok(self.raw)
        } else {
            Err(self)
        }
    }

    /// The raw bytes with the fragment at each span replaced by the value of the same
    /// index; text outside fragments is copied as it is. Without fragments the raw bytes
    /// are returned themselves.
    pub fn render(self, values: &Vec<Vec<u8>>) -> (r: Vec<u8>)
        requires
            self.wf(),
            values@.len() == self.spans().len(),
        ensures
            r@ == render_spans(
                self.raw(),
                self.spans(),
                values@.map_values(|v: Vec<u8>| v@),
                0,
            ),
            self.spans().len() == 0 ==> r@ == self.raw(),
    {
        if self.fragments.len() == 0 {
            assert(self.raw@.subrange(0, self.raw@.len() as int) =~= self.raw@);
            return self.raw;
        }
        self.render_borrowed(values)
    }

    /// Like `render`, but leaves the template as it is.
    pub fn render_borrowed(&self, values: &Vec<Vec<u8>>) -> (r: Vec<u8>)
        requires
            self.wf(),
            values@.len() == self.spans().len(),
        ensures
            r@ == render_spans(
                self.raw(),
                self.spans(),
                values@.map_values(|v: Vec<u8>| v@),
                0,
            ),
    {
        let ghost vals = values@.map_values(|v: Vec<u8>| v@);
        let ghost spans = self.spans();
        let ghost raw = self.raw@;
        proof {
            lemma_spans_ordered(raw, 0);
        }
        let n = self.fragments.len();
        let rl = self.raw.len();
        let mut out = Appender::new();
        let mut last: usize = 0;
        let mut k: usize = 0;
        assert(spans.subrange(0, n as int) =~= spans);
        assert(vals.subrange(0, n as int) =~= vals);
        assert(out@ + render_spans(raw, spans, vals, 0) =~= render_spans(raw, spans, vals, 0));
        while k < n
            invariant
                rl == raw.len(),
                n == spans.len(),
                values@.len() == n,
                vals == values@.map_values(|v: Vec<u8>| v@),
                spans == self.spans(),
                raw == self.raw@,
                k <= n,
                spans_ordered(raw.len() as int, spans.subrange(k as int, n as int), last as int),
                out@ + render_spans(
                    raw,
                    spans.subrange(k as int, n as int),
                    vals.subrange(k as int, n as int),
                    last as int,
                ) == render_spans(raw, spans, vals, 0),
            decreases n - k,
        {
            let ghost rest = spans.subrange(k as int, n as int);
            let ghost rvals = vals.subrange(k as int, n as int);
            assert(rest[0] == spans[k as int]);
            assert(rest.drop_first() =~= spans.subrange(k + 1, n as int));
            assert(rvals.drop_first() =~= vals.subrange(k + 1, n as int));
            let start = self.fragments[k].start;
            let end = self.fragments[k].end;
            assert(rest[0] == (start as int, end as int));
            let ghost before = out@;
            let mut piece: Vec<u8> = Vec::new();
            append_range(&mut piece, self.raw.as_slice(), last, start - 4);
            out.append(piece.as_slice());
            out.append(values[k].as_slice());
            proof {
                let r1 = render_spans(raw, rest.drop_first(), rvals.drop_first(), end + 4);
                assert(rvals[0] == values@[k as int]@);
                assert(render_spans(raw, rest, rvals, last as int) == raw.subrange(
                    last as int,
                    start - 4,
                ) + rvals[0] + r1);
                assert(before + (raw.subrange(last as int, start - 4) + rvals[0] + r1) =~= out@
                    + r1);
            }
            last = end + 4;
            k = k + 1;
        }
        let mut tail: Vec<u8> = Vec::new();
        append_range(&mut tail, self.raw.as_slice(), last, self.raw.len());
        out.append(tail.as_slice());
        out.into_bytes()
    }
}

/// A value is inserted as it is and never scanned for fragments again: with one fragment,
/// rendering gives the text before the fragment, the value, and the text after it, for
/// every value, one that holds fragment markers itself included.
pub proof fn substitution_is_single_pass(raw: Seq<u8>, value: Seq<u8>)
    requires
        fragment_spans(raw).len() == 1,
    ensures
        render_spans(raw, fragment_spans(raw), seq![value], 0) == raw.subrange(
            0,
            fragment_spans(raw)[0].0 - 4,
        ) + value + raw.subrange(fragment_spans(raw)[0].1 + 4, raw.len() as int),
{
    let spans = fragment_spans(raw);
    let vals = seq![value];
    assert(spans.drop_first() =~= Seq::<(int, int)>::empty());
    assert(vals.drop_first() =~= Seq::<Seq<u8>>::empty());
    let rest = render_spans(raw, spans.drop_first(), vals.drop_first(), spans[0].1 + 4);
    assert(rest == raw.subrange(spans[0].1 + 4, raw.len() as int));
    assert(render_spans(raw, spans, vals, 0) == raw.subrange(0, spans[0].0 - 4) + vals[0] + rest);
}

/// Rendering is one substitution pass: every value appears as it is in the output, at
/// the place of its fragment, whatever fragment syntax it holds itself.
pub proof fn every_value_is_inserted_verbatim(
    raw: Seq<u8>,
    spans: Seq<(int, int)>,
    values: Seq<Seq<u8>>,
    from: int,
    k: int,
)
    requires
        spans_ordered(raw.len() as int, spans, from),
        values.len() == spans.len(),
        0 <= k < spans.len(),
    ensures
        exists|off: int|
            0 <= off && off + values[k].len() <= render_spans(raw, spans, values, from).len()
                && #[trigger] render_spans(raw, spans, values, from).subrange(
                off,
                off + values[k].len(),
            ) == values[k],
    decreases spans.len(),
{
    let head = raw.subrange(from, spans[0].0 - 4);
    let rest = render_spans(raw, spans.drop_first(), values.drop_first(), spans[0].1 + 4);
    let out = render_spans(raw, spans, values, from);
    assert(out == head + values[0] + rest);
    if k == 0 {
        let off = head.len() as int;
        assert(out.subrange(off, off + values[0].len()) =~= values[0]);
    } else {
        every_value_is_inserted_verbatim(raw, spans.drop_first(), values.drop_first(), spans[0].1 + 4, k - 1);
        let v = values.drop_first()[k - 1];
        assert(v == values[k]);
        let off2 = choose|off: int|
            0 <= off && off + v.len() <= rest.len() && #[trigger] rest.subrange(off, off + v.len())
                == v;
        let off = head.len() + values[0].len() + off2;
        assert(out.subrange(off, off + v.len()) =~= rest.subrange(off2, off2 + v.len()));
    }
}

/// A well-formed template has one kind per span, and its spans are those of its bytes.
pub proof fn lemma_template_spans(t: Template)
    requires
        t.wf(),
    ensures
        t.spans() == fragment_spans(t.raw()),
        t.kinds().len() == t.spans().len(),
{
}

/// The kind of fragment `k` of a well-formed template is what its bytes parse to.
pub proof fn lemma_template_kind(t: Template, k: int)
    requires
        t.wf(),
        0 <= k < t.spans().len(),
    ensures
        t.spans() == fragment_spans(t.raw()),
        t.kinds().len() == t.spans().len(),
        parses_to(t.raw().subrange(t.spans()[k].0, t.spans()[k].1), t.kinds()[k]),
{
    assert(parses_to(t.raw@.subrange(t.spans()[k].0, t.spans()[k].1), t.kinds()[k]));
}

proof fn lemma_spans_in_bounds(len: int, spans: Seq<(int, int)>, from: int)
    requires
        spans_ordered(len, spans, from),
    ensures
        forall|m: int|
            0 <= m < spans.len() ==> 0 <= #[trigger] spans[m].0 <= spans[m].1 <= len && spans[m].0
                >= 4,
    decreases spans.len(),
{
    if spans.len() > 0 {
        lemma_spans_in_bounds(len, spans.drop_first(), spans[0].1 + 4);
        assert forall|m: int| 0 <= m < spans.len() implies 0 <= #[trigger] spans[m].0
            <= spans[m].1 <= len && spans[m].0 >= 4 by {
            if m > 0 {
                assert(spans[m] == spans.drop_first()[m - 1]);
            }
        }
    }
}

} // verus!
