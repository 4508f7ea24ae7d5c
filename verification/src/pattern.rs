//! Regular-expression searches, and the rewriting of what they find.
//!
//! The searches are those of the `regex` crate. They report byte positions;
//! here these become character positions, so that what a group matched is a
//! part of the text.

use vstd::prelude::*;
use vstd::string::StringExecFns;
use vstd::utf8::{encode_scalar, encode_utf8};

use crate::export_html::woven_from;
use crate::text::{chars_of, opt_view, or_empty, part, push_part, views};

verus! {

/// A part of a text: from `start` up to `end`.
#[derive(Debug, Clone, Copy, PartialEq, Eq, Structural)]
pub struct Span {
    pub start: usize,
    pub end: usize,
}

/// One match: the span of the whole, then the span of each group that took
/// part in it.
#[derive(Debug)]
pub struct Found {
    pub groups: Vec<Option<Span>>,
}

impl View for Found {
    type V = Seq<Option<Span>>;

    open spec fn view(&self) -> Seq<Option<Span>> {
        self.groups@
    }
}

/// The views of a list of matches.
pub open spec fn found_views(v: Seq<Found>) -> Seq<Seq<Option<Span>>> {
    Seq::new(v.len(), |i: int| v[i]@)
}

/// Every group of a match lies in the whole match, and that in a text of
/// length `len`.
pub open spec fn fits(len: nat, m: Seq<Option<Span>>) -> bool {
    &&& m.len() >= 1
    &&& m[0] is Some
    &&& m[0]->0.end <= len
    &&& forall|k: int|
        0 <= k < m.len() && (#[trigger] m[k]) is Some ==> m[0]->0.start <= m[k]->0.start
            <= m[k]->0.end <= m[0]->0.end
}

/// The matches of a search lie in a text of length `len`, one behind the
/// other.
pub open spec fn well_placed(len: nat, ms: Seq<Seq<Option<Span>>>) -> bool {
    &&& forall|i: int| 0 <= i < ms.len() ==> fits(len, #[trigger] ms[i])
    &&& forall|i: int, j: int|
        0 <= i < j < ms.len() ==> (#[trigger] ms[i])[0]->0.end <= (#[trigger] ms[j])[0]->0.start
}

// ── The outside searches ───────────────────────────────────────────

/// The byte spans of all matches that `Regex::captures_iter` finds.
pub uninterp spec fn regex_all(pattern: Seq<char>, text: Seq<char>) -> Seq<Seq<Option<Span>>>;

/// The byte spans of the match that `Regex::captures` finds.
pub uninterp spec fn regex_first(pattern: Seq<char>, text: Seq<char>) -> Option<Seq<Option<Span>>>;

/// `Regex::captures_iter` of the `regex` crate: the successive matches of the
/// pattern, which do not overlap, with the byte span of every group. A
/// pattern that does not compile finds nothing.
#[verifier::external_body]
fn regex_captures_iter(pattern: &str, text: &str) -> (r: Vec<Found>)
    ensures
        found_views(r@) == regex_all(pattern@, text@),
        well_placed(encode_utf8(text@).len(), found_views(r@)),
{
    match regex::Regex::new(pattern) {
        Ok(re) => re
            .captures_iter(text)
            .map(|c| Found {
                groups: c
                    .iter()
                    .map(|g| g.map(|m| Span { start: m.start(), end: m.end() }))
                    .collect(),
            })
            .collect(),
        Err(_) => Vec::new(),
    }
}

/// `Regex::captures` of the `regex` crate: the leftmost match of the pattern,
/// with the byte span of every group. A pattern that does not compile finds
/// nothing.
#[verifier::external_body]
fn regex_captures(pattern: &str, text: &str) -> (r: Option<Found>)
    ensures
        match r {
            Some(m) => regex_first(pattern@, text@) == Some(m@) && fits(
                encode_utf8(text@).len(),
                m@,
            ),
            None => regex_first(pattern@, text@) is None,
        },
{
    let re = regex::Regex::new(pattern).ok()?;
    let c = re.captures(text)?;
    Some(Found {
        groups: c
            .iter()
            .map(|g| g.map(|m| Span { start: m.start(), end: m.end() }))
            .collect(),
    })
}

// ── Character positions ────────────────────────────────────────────

/// The number of bytes that a character takes in UTF-8.
pub open spec fn width(c: char) -> nat {
    encode_scalar(c as u32).len()
}

/// The number of characters of `t` that stand before the byte position `b`.
pub open spec fn char_index(t: Seq<char>, b: int) -> int
    decreases t.len(),
{
    if b <= 0 || t.len() == 0 {
        0
    } else {
        1 + char_index(t.drop_first(), b - width(t[0]))
    }
}

/// The character span for a byte span.
pub open spec fn char_span(t: Seq<char>, s: Span) -> Span {
    Span {
        start: char_index(t, s.start as int) as usize,
        end: char_index(t, s.end as int) as usize,
    }
}

/// The character spans for the byte spans of a match.
pub open spec fn char_spans(t: Seq<char>, m: Seq<Option<Span>>) -> Seq<Option<Span>> {
    Seq::new(
        m.len(),
        |k: int|
            match m[k] {
                Some(s) => Some(char_span(t, s)),
                None => None,
            },
    )
}

/// All matches of the pattern in `t`, in character positions.
pub open spec fn all_matches(pattern: Seq<char>, t: Seq<char>) -> Seq<Seq<Option<Span>>> {
    Seq::new(
        regex_all(pattern, t).len(),
        |i: int| char_spans(t, regex_all(pattern, t)[i]),
    )
}

/// The first match of the pattern in `t`, in character positions.
pub open spec fn first_match(pattern: Seq<char>, t: Seq<char>) -> Option<Seq<Option<Span>>> {
    match regex_first(pattern, t) {
        Some(m) => Some(char_spans(t, m)),
        None => None,
    }
}

/// A later byte position has no fewer characters before it.
pub proof fn lemma_char_index_monotone(t: Seq<char>, a: int, b: int)
    requires
        a <= b,
    ensures
        0 <= char_index(t, a) <= char_index(t, b) <= t.len(),
    decreases t.len(),
{
    if t.len() > 0 && b > 0 {
        lemma_char_index_monotone(t.drop_first(), a - width(t[0]), b - width(t[0]));
    }
}

/// The number of bytes that a character takes in UTF-8.
fn char_width(c: char) -> (r: usize)
    ensures
        r == width(c),
{
    proof {
        vstd::utf8::char_is_scalar(c);
    }
    let n: u32 = c as u32;
    if n <= 0x7f {
        1
    } else if n <= 0x7ff {
        2
    } else if n <= 0xffff {
        3
    } else {
        4
    }
}

/// For every byte position, up to the end of the text, the number of
/// characters before it.
fn char_indices(t: &str) -> (r: Vec<usize>)
    ensures
        r.len() == encode_utf8(t@).len() + 1,
        forall|b: int| 0 <= b < r.len() ==> (#[trigger] r[b]) == char_index(t@, b),
{
    let tc = chars_of(t);
    let mut r: Vec<usize> = Vec::new();
    r.push(0);
    let mut i: usize = 0;
    while i < tc.len()
        invariant
            tc@ == t@,
            i <= tc.len(),
            r.len() == encode_utf8(t@.take(i as int)).len() + 1,
            forall|b: int| 0 <= b < r.len() ==> (#[trigger] r[b]) == char_index(t@, b),
        decreases tc.len() - i,
    {
        let w = char_width(tc[i]);
        let ghost start = r@;
        let ghost off = encode_utf8(t@.take(i as int)).len();
        proof {
            lemma_encode_take(t@, i as int);
        }
        let mut k: usize = 0;
        while k < w
            invariant
                k <= w,
                w == width(t@[i as int]),
                i < t@.len(),
                t@.len() == tc.len(),
                r.len() == off + 1 + k,
                off == encode_utf8(t@.take(i as int)).len(),
                forall|b: int| 0 <= b < r.len() ==> (#[trigger] r[b]) == char_index(t@, b),
            decreases w - k,
        {
            proof {
                lemma_char_index_inside(t@, i as int, off + 1 + k);
            }
            r.push(i + 1);
            k += 1;
        }
        i += 1;
    }
    assert(t@.take(t@.len() as int) =~= t@);
    r
}

proof fn lemma_encode_take(t: Seq<char>, i: int)
    requires
        0 <= i < t.len(),
    ensures
        encode_utf8(t.take(i + 1)).len() == encode_utf8(t.take(i)).len() + width(t[i]),
    decreases t.len(),
{
    reveal_with_fuel(encode_utf8, 2);
    if i == 0 {
        assert(t.take(1).drop_first() =~= Seq::empty());
    } else {
        lemma_encode_take(t.drop_first(), i - 1);
        assert(t.take(i + 1).drop_first() =~= t.drop_first().take(i));
        assert(t.take(i).drop_first() =~= t.drop_first().take(i - 1));
    }
}

/// A part of a text takes no more bytes than the text.
proof fn lemma_encode_grows(t: Seq<char>, i: int)
    requires
        0 <= i <= t.len(),
    ensures
        encode_utf8(t.take(i)).len() <= encode_utf8(t).len(),
    decreases t.len() - i,
{
    if i < t.len() {
        lemma_encode_take(t, i);
        lemma_encode_grows(t, i + 1);
    } else {
        assert(t.take(i) =~= t);
    }
}

/// A byte position inside or at the end of character `i` has `i + 1`
/// characters before it.
proof fn lemma_char_index_inside(t: Seq<char>, i: int, b: int)
    requires
        0 <= i < t.len(),
        encode_utf8(t.take(i)).len() < b <= encode_utf8(t.take(i)).len() + width(t[i]),
    ensures
        char_index(t, b) == i + 1,
    decreases t.len(),
{
    reveal_with_fuel(encode_utf8, 2);
    reveal_with_fuel(char_index, 2);
    if i > 0 {
        assert(t.take(i).drop_first() =~= t.drop_first().take(i - 1));
        lemma_char_index_inside(t.drop_first(), i - 1, b - width(t[0]));
    } else {
        assert(t.take(0).len() == 0);
    }
}

proof fn lemma_char_index_beyond(t: Seq<char>, b: int)
    requires
        b >= encode_utf8(t).len(),
    ensures
        char_index(t, b) == t.len(),
    decreases t.len(),
{
    if t.len() > 0 {
        assert(encode_utf8(t).len() == width(t[0]) + encode_utf8(t.drop_first()).len());
        lemma_char_index_beyond(t.drop_first(), b - width(t[0]));
    }
}

/// A match is told by the characters at which its bytes are: where a group of
/// it starts and ends with the bytes of characters, its span counts the
/// characters before them.
pub proof fn law_spans_count_characters(
    pattern: Seq<char>,
    t: Seq<char>,
    i: int,
    g: int,
    s: Span,
    a: usize,
    b: usize,
)
    requires
        0 <= i < regex_all(pattern, t).len(),
        0 <= g < regex_all(pattern, t)[i].len(),
        regex_all(pattern, t)[i][g] == Some(s),
        a <= t.len(),
        b <= t.len(),
        s.start == encode_utf8(t.take(a as int)).len(),
        s.end == encode_utf8(t.take(b as int)).len(),
    ensures
        all_matches(pattern, t)[i][g] == Some(Span { start: a, end: b }),
{
    lemma_char_index_at(t, a as int);
    lemma_char_index_at(t, b as int);
}

proof fn lemma_char_index_at(t: Seq<char>, k: int)
    requires
        0 <= k <= t.len(),
    ensures
        char_index(t, encode_utf8(t.take(k)).len() as int) == k,
{
    if k > 0 {
        lemma_encode_take(t, k - 1);
        assert(width(t[k - 1]) > 0);
        lemma_char_index_inside(t, k - 1, encode_utf8(t.take(k)).len() as int);
    } else {
        assert(t.take(0) =~= Seq::empty());
    }
}

/// The character that starts at a byte position, or the end of the text; none
/// inside a character or beyond the end.
pub open spec fn byte_place(t: Seq<char>, b: int) -> Option<int> {
    let k = char_index(t, b);
    if encode_utf8(t.take(k)).len() == b {
        Some(k)
    } else {
        None
    }
}

/// The byte positions at which the characters of a text start, and its end.
fn char_offsets(t: &str) -> (r: Vec<usize>)
    ensures
        r.len() == t@.len() + 1,
        forall|k: int| 0 <= k < r.len() ==> (#[trigger] r[k]) == encode_utf8(t@.take(k)).len(),
{
    let tc = chars_of(t);
    let indices = char_indices(t);
    let len: usize = indices.len();
    let mut r: Vec<usize> = Vec::new();
    assert(t@.take(0) =~= Seq::empty());
    r.push(0);
    let mut i: usize = 0;
    let mut off: usize = 0;
    while i < tc.len()
        invariant
            tc@ == t@,
            len == encode_utf8(t@).len() + 1,
            i <= tc.len(),
            r.len() == i + 1,
            off == encode_utf8(t@.take(i as int)).len(),
            forall|k: int| 0 <= k < r.len() ==> (#[trigger] r[k]) == encode_utf8(t@.take(k)).len(),
        decreases tc.len() - i,
    {
        let w = char_width(tc[i]);
        proof {
            lemma_encode_take(t@, i as int);
            lemma_encode_grows(t@, i + 1);
        }
        off = off + w;
        r.push(off);
        i += 1;
    }
    r
}

/// Finds the characters that start at byte positions of a text.
pub struct CharTable {
    indices: Vec<usize>,
    offsets: Vec<usize>,
    text: Ghost<Seq<char>>,
}

impl CharTable {
    /// The text that the table was made for.
    pub closed spec fn text(&self) -> Seq<char> {
        self.text@
    }

    /// Whether the table is that of its text.
    #[verifier::type_invariant]
    spec fn well_formed(&self) -> bool {
        &&& self.indices.len() == encode_utf8(self.text@).len() + 1
        &&& self.offsets.len() == self.text@.len() + 1
        &&& forall|b: int|
            0 <= b < self.indices.len() ==> (#[trigger] self.indices[b]) == char_index(
                self.text@,
                b,
            )
        &&& forall|k: int|
            0 <= k < self.offsets.len() ==> (#[trigger] self.offsets[k]) == encode_utf8(
                self.text@.take(k),
            ).len()
    }

    /// The table of a text.
    pub fn new(t: &str) -> (r: Self)
        ensures
            r.text() == t@,
    {
        CharTable { indices: char_indices(t), offsets: char_offsets(t), text: Ghost(t@) }
    }

    /// The character that starts at a byte position, or the end of the text;
    /// none inside a character or beyond the end.
    pub fn at(&self, b: usize) -> (r: Option<usize>)
        ensures
            match r {
                Some(k) => byte_place(self.text(), b as int) == Some(k as int) && k
                    <= self.text().len(),
                None => byte_place(self.text(), b as int) is None,
            },
    {
        proof {
            use_type_invariant(&*self);
            lemma_char_index_monotone(self.text@, b as int, b as int);
            if b >= self.indices.len() {
                lemma_char_index_beyond(self.text@, b as int);
                assert(self.text@.take(self.text@.len() as int) =~= self.text@);
            }
        }
        if b >= self.indices.len() {
            return None;
        }
        let k: usize = self.indices[b];
        if self.offsets[k] == b {
            Some(k)
        } else {
            None
        }
    }
}

/// Turns the byte spans of a match into character spans.
fn in_chars(indices: &Vec<usize>, m: &Found, Ghost(t): Ghost<Seq<char>>) -> (r: Found)
    requires
        fits(encode_utf8(t).len(), m@),
        indices.len() == encode_utf8(t).len() + 1,
        forall|b: int| 0 <= b < indices.len() ==> (#[trigger] indices[b]) == char_index(t, b),
        t.len() <= usize::MAX,
    ensures
        r@ == char_spans(t, m@),
        fits(t.len(), r@),
{
    let mut groups: Vec<Option<Span>> = Vec::new();
    let mut k: usize = 0;
    while k < m.groups.len()
        invariant
            fits(encode_utf8(t).len(), m@),
            indices.len() == encode_utf8(t).len() + 1,
            forall|b: int| 0 <= b < indices.len() ==> (#[trigger] indices[b]) == char_index(t, b),
            k <= m.groups.len(),
            groups@ == char_spans(t, m@).take(k as int),
        decreases m.groups.len() - k,
    {
        let ghost g = m@[k as int];
        match m.groups[k] {
            Some(s) => groups.push(Some(Span { start: indices[s.start], end: indices[s.end] })),
            None => groups.push(None),
        }
        assert(groups@ =~= char_spans(t, m@).take(k + 1));
        k += 1;
    }
    proof {
        assert(groups@ =~= char_spans(t, m@));
        let w = m@[0]->0;
        lemma_char_index_monotone(t, w.start as int, w.end as int);
        assert forall|k: int| 0 <= k < groups@.len() && (#[trigger] groups@[k]) is Some implies
            groups@[0]->0.start <= groups@[k]->0.start <= groups@[k]->0.end <= groups@[0]->0.end by {
            let s = m@[k]->0;
            lemma_char_index_monotone(t, w.start as int, s.start as int);
            lemma_char_index_monotone(t, s.start as int, s.end as int);
            lemma_char_index_monotone(t, s.end as int, w.end as int);
        }
    }
    Found { groups }
}

/// All matches of the pattern, in character positions.
pub fn find_all(pattern: &str, t: &str) -> (r: Vec<Found>)
    ensures
        found_views(r@) == all_matches(pattern@, t@),
        well_placed(t@.len(), found_views(r@)),
        t@.len() <= usize::MAX,
{
    let tc = chars_of(t);
    let len: usize = tc.len();
    let found = regex_captures_iter(pattern, t);
    let indices = char_indices(t);
    let mut r: Vec<Found> = Vec::new();
    let ghost raw = found_views(found@);
    let mut i: usize = 0;
    while i < found.len()
        invariant
            t@.len() <= usize::MAX,
            raw == found_views(found@),
            raw == regex_all(pattern@, t@),
            well_placed(encode_utf8(t@).len(), raw),
            indices.len() == encode_utf8(t@).len() + 1,
            forall|b: int| 0 <= b < indices.len() ==> (#[trigger] indices[b]) == char_index(t@, b),
            i <= found.len(),
            r.len() == i,
            forall|j: int|
                0 <= j < i ==> (#[trigger] r[j])@ == char_spans(t@, raw[j]) && fits(
                    t@.len(),
                    r[j]@,
                ),
        decreases found.len() - i,
    {
        assert(raw[i as int] == found[i as int]@);
        r.push(in_chars(&indices, &found[i], Ghost(t@)));
        i += 1;
    }
    proof {
        let out = found_views(r@);
        assert(out =~= all_matches(pattern@, t@));
        assert forall|i: int, j: int| 0 <= i < j < out.len() implies (#[trigger] out[i])[0]->0.end
            <= (#[trigger] out[j])[0]->0.start by {
            assert(raw[i][0]->0.end <= raw[j][0]->0.start);
            assert(r[i]@ == char_spans(t@, raw[i]) && r[j]@ == char_spans(t@, raw[j]));
            lemma_char_index_monotone(t@, raw[i][0]->0.end as int, raw[j][0]->0.start as int);
            lemma_char_index_monotone(t@, raw[j][0]->0.start as int, raw[j][0]->0.start as int);
        }
    }
    r
}

/// The first match of the pattern, in character positions.
pub fn find_first(pattern: &str, t: &str) -> (r: Option<Found>)
    ensures
        match r {
            Some(m) => first_match(pattern@, t@) == Some(m@) && fits(t@.len(), m@),
            None => first_match(pattern@, t@) is None,
        },
        t@.len() <= usize::MAX,
{
    let tc = chars_of(t);
    let len: usize = tc.len();
    match regex_captures(pattern, t) {
        Some(m) => {
            let indices = char_indices(t);
            Some(in_chars(&indices, &m, Ghost(t@)))
        },
        None => None,
    }
}

/// Whether the pattern matches anywhere.
pub fn is_match(pattern: &str, t: &str) -> (r: bool)
    ensures
        r == (first_match(pattern@, t@) is Some),
{
    find_first(pattern, t).is_some()
}

// ── What a match holds ─────────────────────────────────────────────

/// The span of the whole match.
pub open spec fn whole_span(m: Seq<Option<Span>>) -> Span {
    m[0]->0
}

/// The text of the whole match.
pub open spec fn whole_text(t: Seq<char>, m: Seq<Option<Span>>) -> Seq<char> {
    t.subrange(whole_span(m).start as int, whole_span(m).end as int)
}

/// The text of group `k`, if the group took part in the match.
pub open spec fn group(t: Seq<char>, m: Seq<Option<Span>>, k: int) -> Option<Seq<char>> {
    if 0 <= k < m.len() && m[k] is Some {
        Some(t.subrange(m[k]->0.start as int, m[k]->0.end as int))
    } else {
        None
    }
}

/// The text of group `k`; the empty text if the group took no part.
pub open spec fn group_text(t: Seq<char>, m: Seq<Option<Span>>, k: int) -> Seq<char> {
    or_empty(group(t, m, k))
}

/// The text of a group in the first match of a pattern.
pub open spec fn first_group(pattern: Seq<char>, t: Seq<char>, k: int) -> Option<Seq<char>> {
    match first_match(pattern, t) {
        Some(m) => group(t, m, k),
        None => None,
    }
}

impl Found {
    /// The span of the whole match.
    pub fn span(&self) -> (r: Span)
        requires
            self@.len() >= 1,
            self@[0] is Some,
        ensures
            r == whole_span(self@),
    {
        self.groups[0].unwrap()
    }

    /// The text of the whole match.
    pub fn whole(&self, t: &[char]) -> (r: String)
        requires
            fits(t@.len(), self@),
        ensures
            r@ == whole_text(t@, self@),
    {
        let s = self.span();
        part(t, s.start, s.end)
    }

    /// The text of group `k`, if the group took part in the match.
    pub fn group(&self, t: &[char], k: usize) -> (r: Option<String>)
        requires
            fits(t@.len(), self@),
        ensures
            opt_view(r) == group(t@, self@, k as int),
    {
        if k >= self.groups.len() {
            return None;
        }
        match self.groups[k] {
            Some(s) => {
                assert(self@[k as int] is Some);
                Some(part(t, s.start, s.end))
            },
            None => None,
        }
    }

    /// The text of group `k`; the empty text if the group took no part.
    pub fn group_text(&self, t: &[char], k: usize) -> (r: String)
        requires
            fits(t@.len(), self@),
        ensures
            r@ == group_text(t@, self@, k as int),
    {
        match self.group(t, k) {
            Some(s) => s,
            None => String::new(),
        }
    }
}

/// The text of a group in the first match of a pattern.
pub fn first_group_of(pattern: &str, t: &str, k: usize) -> (r: Option<String>)
    ensures
        opt_view(r) == first_group(pattern@, t@, k as int),
{
    match find_first(pattern, t) {
        Some(m) => {
            let tc = chars_of(t);
            m.group(&tc, k)
        },
        None => None,
    }
}

// ── Rewriting matches ──────────────────────────────────────────────

/// The spans lie in a text of length `len`, one behind the other.
pub open spec fn spans_placed(len: nat, spans: Seq<Span>) -> bool {
    &&& forall|i: int|
        0 <= i < spans.len() ==> (#[trigger] spans[i]).start <= spans[i].end <= len
    &&& forall|i: int, j: int|
        0 <= i < j < spans.len() ==> (#[trigger] spans[i]).end <= (#[trigger] spans[j]).start
}

/// The position behind the first `n` spans.
pub open spec fn end_of(spans: Seq<Span>, n: int) -> int {
    if n <= 0 {
        0
    } else {
        spans[n - 1].end as int
    }
}

/// `t` up to the end of the first `n` spans, each of them replaced.
pub open spec fn spliced_upto(
    t: Seq<char>,
    spans: Seq<Span>,
    reps: Seq<Seq<char>>,
    n: int,
) -> Seq<char>
    decreases n,
{
    if n <= 0 {
        Seq::empty()
    } else {
        spliced_upto(t, spans, reps, n - 1) + t.subrange(
            end_of(spans, n - 1),
            spans[n - 1].start as int,
        ) + reps[n - 1]
    }
}

/// `t` with each span replaced by the text of the same number in `reps`.
pub open spec fn spliced(t: Seq<char>, spans: Seq<Span>, reps: Seq<Seq<char>>) -> Seq<char> {
    spliced_upto(t, spans, reps, spans.len() as int) + t.subrange(
        end_of(spans, spans.len() as int),
        t.len() as int,
    )
}

/// Replaces each span by the text of the same number in `reps`.
pub fn splice(t: &[char], spans: &Vec<Span>, reps: &Vec<String>) -> (r: String)
    requires
        spans_placed(t@.len(), spans@),
        reps.len() == spans.len(),
    ensures
        r@ == spliced(t@, spans@, views(reps@)),
{
    let mut out: String = String::new();
    let mut last: usize = 0;
    let mut i: usize = 0;
    while i < spans.len()
        invariant
            spans_placed(t@.len(), spans@),
            reps.len() == spans.len(),
            i <= spans.len(),
            last == end_of(spans@, i as int),
            last <= t@.len(),
            out@ == spliced_upto(t@, spans@, views(reps@), i as int),
        decreases spans.len() - i,
    {
        let s = spans[i];
        assert(i > 0 ==> spans[i - 1].end <= spans[i as int].start);
        push_part(&mut out, t, last, s.start);
        out.append(&reps[i]);
        last = s.end;
        i += 1;
    }
    push_part(&mut out, t, last, t.len());
    out
}

/// The spans of whole matches.
pub open spec fn whole_spans(ms: Seq<Seq<Option<Span>>>) -> Seq<Span> {
    Seq::new(ms.len(), |i: int| whole_span(ms[i]))
}

proof fn lemma_whole_spans_placed(len: nat, ms: Seq<Seq<Option<Span>>>)
    requires
        well_placed(len, ms),
    ensures
        spans_placed(len, whole_spans(ms)),
{
    let spans = whole_spans(ms);
    assert forall|i: int| 0 <= i < spans.len() implies (#[trigger] spans[i]).start <= spans[i].end
        <= len by {
        assert(fits(len, ms[i]));
        assert(ms[i][0] is Some);
    }
    assert forall|i: int, j: int| 0 <= i < j < spans.len() implies (#[trigger] spans[i]).end <= (
    #[trigger] spans[j]).start by {
        assert(ms[i][0]->0.end <= ms[j][0]->0.start);
    }
}

/// `t` with each match of the pattern replaced by what `g` makes of it.
pub open spec fn rewritten(
    pattern: Seq<char>,
    t: Seq<char>,
    g: spec_fn(Seq<char>, Seq<Option<Span>>) -> Seq<char>,
) -> Seq<char> {
    let ms = all_matches(pattern, t);
    spliced(t, whole_spans(ms), Seq::new(ms.len(), |i: int| g(t, ms[i])))
}

/// Replaces each match of the pattern by what `f` makes of it.
pub(crate) fn rewrite<F: Fn(&[char], &Found) -> String>(
    pattern: &str,
    t: &str,
    f: F,
    Ghost(g): Ghost<spec_fn(Seq<char>, Seq<Option<Span>>) -> Seq<char>>,
) -> (r: String)
    requires
        forall|x: &[char], m: &Found| fits(x@.len(), m@) ==> call_requires(f, (x, m)),
        forall|x: &[char], m: &Found, s: String|
            fits(x@.len(), m@) && call_ensures(f, (x, m), s) ==> s@ == g(x@, m@),
    ensures
        r@ == rewritten(pattern@, t@, g),
{
    let tc = chars_of(t);
    let ms = find_all(pattern, t);
    let ghost found = found_views(ms@);
    let mut spans: Vec<Span> = Vec::new();
    let mut reps: Vec<String> = Vec::new();
    let mut i: usize = 0;
    while i < ms.len()
        invariant
            forall|x: &[char], m: &Found| fits(x@.len(), m@) ==> call_requires(f, (x, m)),
            forall|x: &[char], m: &Found, s: String|
                fits(x@.len(), m@) && call_ensures(f, (x, m), s) ==> s@ == g(x@, m@),
            tc@ == t@,
            found == found_views(ms@),
            well_placed(t@.len(), found),
            i <= ms.len(),
            spans.len() == i,
            reps.len() == i,
            forall|j: int| 0 <= j < i ==> (#[trigger] spans[j]) == whole_span(found[j]),
            forall|j: int| 0 <= j < i ==> (#[trigger] reps[j])@ == g(t@, found[j]),
        decreases ms.len() - i,
    {
        assert(fits(t@.len(), found[i as int]));
        spans.push(ms[i].span());
        let s = f(&tc, &ms[i]);
        reps.push(s);
        i += 1;
    }
    proof {
        assert(views(reps@) =~= Seq::new(found.len(), |i: int| g(t@, found[i])));
        assert(spans@ =~= whole_spans(found));
        lemma_whole_spans_placed(t@.len(), found);
    }
    splice(&tc, &spans, &reps)
}

/// `t` with each match of the pattern replaced by what `g` makes of it and of
/// its number.
pub open spec fn rewritten_by_number(
    pattern: Seq<char>,
    t: Seq<char>,
    g: spec_fn(int, Seq<char>, Seq<Option<Span>>) -> Seq<char>,
) -> Seq<char> {
    let ms = all_matches(pattern, t);
    spliced(t, whole_spans(ms), Seq::new(ms.len(), |i: int| g(i, t, ms[i])))
}

/// Replaces each match of the pattern by what `f` makes of it and of its
/// number.
pub(crate) fn rewrite_by_number<F: Fn(usize, &[char], &Found) -> String>(
    pattern: &str,
    t: &str,
    f: F,
    Ghost(g): Ghost<spec_fn(int, Seq<char>, Seq<Option<Span>>) -> Seq<char>>,
) -> (r: String)
    requires
        forall|n: usize, x: &[char], m: &Found|
            fits(x@.len(), m@) ==> call_requires(f, (n, x, m)),
        forall|n: usize, x: &[char], m: &Found, s: String|
            fits(x@.len(), m@) && call_ensures(f, (n, x, m), s) ==> s@ == g(n as int, x@, m@),
    ensures
        r@ == rewritten_by_number(pattern@, t@, g),
{
    let tc = chars_of(t);
    let ms = find_all(pattern, t);
    let ghost found = found_views(ms@);
    let mut spans: Vec<Span> = Vec::new();
    let mut reps: Vec<String> = Vec::new();
    let mut i: usize = 0;
    while i < ms.len()
        invariant
            forall|n: usize, x: &[char], m: &Found|
                fits(x@.len(), m@) ==> call_requires(f, (n, x, m)),
            forall|n: usize, x: &[char], m: &Found, s: String|
                fits(x@.len(), m@) && call_ensures(f, (n, x, m), s) ==> s@ == g(
                    n as int,
                    x@,
                    m@,
                ),
            tc@ == t@,
            found == found_views(ms@),
            well_placed(t@.len(), found),
            i <= ms.len(),
            spans.len() == i,
            reps.len() == i,
            forall|j: int| 0 <= j < i ==> (#[trigger] spans[j]) == whole_span(found[j]),
            forall|j: int| 0 <= j < i ==> (#[trigger] reps[j])@ == g(j, t@, found[j]),
        decreases ms.len() - i,
    {
        assert(fits(t@.len(), found[i as int]));
        spans.push(ms[i].span());
        let s = f(i, &tc, &ms[i]);
        reps.push(s);
        i += 1;
    }
    proof {
        assert(views(reps@) =~= Seq::new(found.len(), |i: int| g(i, t@, found[i])));
        assert(spans@ =~= whole_spans(found));
        lemma_whole_spans_placed(t@.len(), found);
    }
    splice(&tc, &spans, &reps)
}

/// A rewriting that finds nothing leaves the text as it is.
pub proof fn law_rewriting_nothing(
    pattern: Seq<char>,
    t: Seq<char>,
    g: spec_fn(Seq<char>, Seq<Option<Span>>) -> Seq<char>,
)
    requires
        all_matches(pattern, t).len() == 0,
    ensures
        rewritten(pattern, t, g) == t,
{
    assert(rewritten(pattern, t, g) =~= t);
}

proof fn lemma_spliced_same(t: Seq<char>, spans: Seq<Span>, n: int)
    requires
        spans_placed(t.len(), spans),
        0 <= n <= spans.len(),
    ensures
        0 <= end_of(spans, n) <= t.len(),
        spliced_upto(
            t,
            spans,
            Seq::new(spans.len(), |i: int| t.subrange(spans[i].start as int, spans[i].end as int)),
            n,
        ) == t.take(end_of(spans, n)),
    decreases n,
{
    let texts = Seq::new(
        spans.len(),
        |i: int| t.subrange(spans[i].start as int, spans[i].end as int),
    );
    if n > 0 {
        lemma_spliced_same(t, spans, n - 1);
        let s = spans[n - 1];
        assert(s.start <= s.end <= t.len());
        if n >= 2 {
            assert(spans[n - 2].end <= spans[n - 1].start);
        }
        assert(spliced_upto(t, spans, texts, n) =~= t.take(end_of(spans, n)));
    } else {
        assert(spliced_upto(t, spans, texts, n) =~= t.take(0));
    }
}

/// A rewriting that replaces every match by itself leaves the text as it is.
/// The matches of a search lie in the text one behind the other.
pub proof fn law_rewriting_by_itself(
    pattern: Seq<char>,
    t: Seq<char>,
    g: spec_fn(Seq<char>, Seq<Option<Span>>) -> Seq<char>,
)
    requires
        well_placed(t.len(), all_matches(pattern, t)),
        forall|i: int|
            0 <= i < all_matches(pattern, t).len() ==> g(t, #[trigger] all_matches(pattern, t)[i])
                == whole_text(t, all_matches(pattern, t)[i]),
    ensures
        rewritten(pattern, t, g) == t,
{
    let ms = all_matches(pattern, t);
    let spans = whole_spans(ms);
    lemma_whole_spans_placed(t.len(), ms);
    lemma_spliced_same(t, spans, spans.len() as int);
    let texts = Seq::new(
        spans.len(),
        |i: int| t.subrange(spans[i].start as int, spans[i].end as int),
    );
    assert(Seq::new(ms.len(), |i: int| g(t, ms[i])) =~= texts);
    assert(rewritten(pattern, t, g) =~= t);
}

/// The parts of a text between its spans: before the first, between each two,
/// and behind the last.
pub open spec fn parts_between(t: Seq<char>, spans: Seq<Span>) -> Seq<Seq<char>> {
    Seq::new(
        spans.len() + 1,
        |k: int|
            t.subrange(
                if k == 0 {
                    0
                } else {
                    spans[k - 1].end as int
                },
                if k == spans.len() {
                    t.len() as int
                } else {
                    spans[k].start as int
                },
            ),
    )
}

/// The texts of spans.
pub open spec fn texts_of(t: Seq<char>, spans: Seq<Span>) -> Seq<Seq<char>> {
    Seq::new(spans.len(), |k: int| t.subrange(spans[k].start as int, spans[k].end as int))
}

proof fn lemma_woven_behind(t: Seq<char>, spans: Seq<Span>, k: int)
    requires
        spans_placed(t.len(), spans),
        0 <= k <= spans.len(),
    ensures
        0 <= end_of(spans, k) <= t.len(),
        t.skip(end_of(spans, k)) == woven_from(parts_between(t, spans), texts_of(t, spans), k),
    decreases spans.len() - k,
{
    let parts = parts_between(t, spans);
    let texts = texts_of(t, spans);
    if k > 0 {
        assert(spans[k - 1].end <= t.len());
    }
    if k == spans.len() {
        assert(parts[k] =~= t.skip(end_of(spans, k)));
    } else {
        lemma_woven_behind(t, spans, k + 1);
        assert(spans[k].start <= spans[k].end <= t.len());
        if k > 0 {
            assert(spans[k - 1].end <= spans[k].start);
        }
        assert(t.skip(end_of(spans, k)) =~= parts[k] + texts[k] + t.skip(end_of(spans, k + 1)));
    }
}

proof fn lemma_spliced_behind(t: Seq<char>, spans: Seq<Span>, reps: Seq<Seq<char>>, k: int)
    requires
        reps.len() == spans.len(),
        0 <= k <= spans.len(),
    ensures
        spliced(t, spans, reps) == spliced_upto(t, spans, reps, k) + woven_from(
            parts_between(t, spans),
            reps,
            k,
        ),
    decreases spans.len() - k,
{
    let parts = parts_between(t, spans);
    if k < spans.len() {
        lemma_spliced_behind(t, spans, reps, k + 1);
        assert(spliced_upto(t, spans, reps, k + 1) + woven_from(parts, reps, k + 1)
            =~= spliced_upto(t, spans, reps, k) + woven_from(parts, reps, k));
    }
}

/// A text is its parts with the texts of its spans between them; spliced, it
/// is the same parts with the replacements between them, each at its number.
pub proof fn law_splicing_keeps_the_rest(t: Seq<char>, spans: Seq<Span>, reps: Seq<Seq<char>>)
    requires
        spans_placed(t.len(), spans),
        reps.len() == spans.len(),
    ensures
        t == woven_from(parts_between(t, spans), texts_of(t, spans), 0),
        spliced(t, spans, reps) == woven_from(parts_between(t, spans), reps, 0),
{
    lemma_woven_behind(t, spans, 0);
    assert(t.skip(0) =~= t);
    lemma_spliced_behind(t, spans, reps, 0);
    assert(spliced_upto(t, spans, reps, 0) + woven_from(parts_between(t, spans), reps, 0)
        =~= woven_from(parts_between(t, spans), reps, 0));
}

/// A rewriting replaces every match, and keeps all that stands between the
/// matches.
pub proof fn law_rewriting_replaces_every_match(
    pattern: Seq<char>,
    t: Seq<char>,
    g: spec_fn(Seq<char>, Seq<Option<Span>>) -> Seq<char>,
)
    requires
        well_placed(t.len(), all_matches(pattern, t)),
    ensures
        ({
            let ms = all_matches(pattern, t);
            let parts = parts_between(t, whole_spans(ms));
            &&& t == woven_from(parts, Seq::new(ms.len(), |k: int| whole_text(t, ms[k])), 0)
            &&& rewritten(pattern, t, g) == woven_from(
                parts,
                Seq::new(ms.len(), |k: int| g(t, ms[k])),
                0,
            )
        }),
{
    let ms = all_matches(pattern, t);
    let spans = whole_spans(ms);
    lemma_whole_spans_placed(t.len(), ms);
    law_splicing_keeps_the_rest(t, spans, Seq::new(ms.len(), |k: int| g(t, ms[k])));
    assert(texts_of(t, spans) =~= Seq::new(ms.len(), |k: int| whole_text(t, ms[k])));
}

/// A rewriting by number replaces every match by what stands for its number,
/// and keeps all that stands between the matches.
pub proof fn law_rewriting_by_number_keeps_order(
    pattern: Seq<char>,
    t: Seq<char>,
    g: spec_fn(int, Seq<char>, Seq<Option<Span>>) -> Seq<char>,
)
    requires
        well_placed(t.len(), all_matches(pattern, t)),
    ensures
        ({
            let ms = all_matches(pattern, t);
            let parts = parts_between(t, whole_spans(ms));
            &&& t == woven_from(parts, Seq::new(ms.len(), |k: int| whole_text(t, ms[k])), 0)
            &&& rewritten_by_number(pattern, t, g) == woven_from(
                parts,
                Seq::new(ms.len(), |k: int| g(k, t, ms[k])),
                0,
            )
        }),
{
    let ms = all_matches(pattern, t);
    let spans = whole_spans(ms);
    lemma_whole_spans_placed(t.len(), ms);
    law_splicing_keeps_the_rest(t, spans, Seq::new(ms.len(), |k: int| g(k, t, ms[k])));
    assert(texts_of(t, spans) =~= Seq::new(ms.len(), |k: int| whole_text(t, ms[k])));
}

} // verus!
