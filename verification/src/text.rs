//! Operations on text, stated over the sequence of its characters.
//!
//! Positions are character positions: the part of a text `t` from `a` up to
//! `b` is `t.subrange(a, b)`.

use vstd::prelude::*;
use vstd::string::StringExecFns;

verus! {

/// `String::push` appends one character.
pub assume_specification[ String::push ](s: &mut String, c: char)
    ensures
        final(s)@ == old(s)@.push(c),
;

/// The characters of a text.
pub fn chars_of(s: &str) -> (r: Vec<char>)
    ensures
        r@ == s@,
{
    let mut r: Vec<char> = Vec::new();
    for c in it: s.chars()
        invariant
            it.seq() == s@,
            r@ == s@.take(it.index()),
    {
        r.push(c);
    }
    r
}

/// The text made of the characters from `from` up to `to`.
pub fn part(chars: &[char], from: usize, to: usize) -> (r: String)
    requires
        from <= to <= chars.len(),
    ensures
        r@ == chars@.subrange(from as int, to as int),
{
    let mut out: String = String::new();
    push_part(&mut out, chars, from, to);
    out
}

/// Appends the characters from `from` up to `to`.
pub fn push_part(out: &mut String, chars: &[char], from: usize, to: usize)
    requires
        from <= to <= chars.len(),
    ensures
        final(out)@ == old(out)@ + chars@.subrange(from as int, to as int),
{
    let ghost before = out@;
    let mut i: usize = from;
    while i < to
        invariant
            from <= i <= to <= chars.len(),
            out@ == before + chars@.subrange(from as int, i as int),
        decreases to - i,
    {
        out.push(chars[i]);
        i += 1;
    }
}

/// The text made of the given characters.
pub fn text_of(chars: &[char]) -> (r: String)
    ensures
        r@ == chars@,
{
    let r = part(chars, 0, chars.len());
    assert(r@ =~= chars@);
    r
}

/// The concatenation of two texts.
pub fn joined(a: &str, b: &str) -> (r: String)
    ensures
        r@ == a@ + b@,
{
    let mut r: String = a.to_owned();
    r.append(b);
    r
}

/// Whether two texts are equal.
pub fn same_text(a: &str, b: &str) -> (r: bool)
    ensures
        r == (a@ == b@),
{
    a.to_owned() == b.to_owned()
}

// ── Searching ──────────────────────────────────────────────────────

/// Whether `p` stands at position `i` of `t`.
pub open spec fn occurs_at(t: Seq<char>, p: Seq<char>, i: int) -> bool {
    0 <= i && i + p.len() <= t.len() && t.subrange(i, i + p.len()) == p
}

/// The first position, at or after `from`, at which `p` stands in `t`.
pub open spec fn index_from(t: Seq<char>, p: Seq<char>, from: int) -> Option<int>
    decreases t.len() + 1 - from,
{
    if from < 0 || from + p.len() > t.len() {
        None
    } else if occurs_at(t, p, from) {
        Some(from)
    } else {
        index_from(t, p, from + 1)
    }
}

/// The last position, at or before `from`, at which `p` stands in `t`.
pub open spec fn last_index_from(t: Seq<char>, p: Seq<char>, from: int) -> Option<int>
    decreases from + 1,
{
    if from < 0 {
        None
    } else if occurs_at(t, p, from) {
        Some(from)
    } else {
        last_index_from(t, p, from - 1)
    }
}

/// The last position at which `p` stands in `t`.
pub open spec fn last_index(t: Seq<char>, p: Seq<char>) -> Option<int> {
    last_index_from(t, p, t.len() - p.len())
}

/// Whether `p` stands anywhere in `t`.
pub open spec fn occurs_in(t: Seq<char>, p: Seq<char>) -> bool {
    index_from(t, p, 0) is Some
}

pub open spec fn has_prefix(t: Seq<char>, p: Seq<char>) -> bool {
    occurs_at(t, p, 0)
}

pub open spec fn has_suffix(t: Seq<char>, p: Seq<char>) -> bool {
    occurs_at(t, p, t.len() - p.len())
}

/// What a successful search says: `p` stands at the found position, and at no
/// position between `from` and it.
pub proof fn lemma_index_from(t: Seq<char>, p: Seq<char>, from: int)
    requires
        0 <= from,
    ensures
        match index_from(t, p, from) {
            Some(i) => from <= i && occurs_at(t, p, i) && forall|j: int|
                from <= j < i ==> !occurs_at(t, p, j),
            None => forall|j: int| from <= j ==> !occurs_at(t, p, j),
        },
    decreases t.len() + 1 - from,
{
    if from + p.len() <= t.len() && !occurs_at(t, p, from) {
        lemma_index_from(t, p, from + 1);
    }
}

/// What a search finds in the rest of a text behind `k` characters, as a
/// position of the text.
pub open spec fn moved(found: Option<int>, k: int) -> Option<int> {
    match found {
        Some(i) => Some(i + k),
        None => None,
    }
}

/// A search in the rest of a text finds what it finds there in the text.
pub proof fn lemma_index_shift(t: Seq<char>, p: Seq<char>, k: int, i: int)
    requires
        0 <= k <= i <= t.len(),
    ensures
        index_from(t, p, i) == moved(index_from(t.skip(k), p, i - k), k),
    decreases t.len() - i,
{
    let u = t.skip(k);
    if i + p.len() <= t.len() {
        assert(t.subrange(i, i + p.len()) =~= u.subrange(i - k, i - k + p.len()));
        assert(occurs_at(t, p, i) == occurs_at(u, p, i - k));
        if !occurs_at(t, p, i) && i < t.len() {
            lemma_index_shift(t, p, k, i + 1);
        }
    }
}

/// What a search finds in a text, it finds in a longer text too.
pub proof fn lemma_index_extended(a: Seq<char>, b: Seq<char>, p: Seq<char>, i: int)
    requires
        0 <= i,
        index_from(a, p, i) is Some,
    ensures
        index_from(a + b, p, i) == index_from(a, p, i),
    decreases a.len() + 1 - i,
{
    let t = a + b;
    if i + p.len() <= a.len() {
        assert(t.subrange(i, i + p.len()) =~= a.subrange(i, i + p.len()));
        if !occurs_at(a, p, i) {
            lemma_index_extended(a, b, p, i + 1);
        }
    }
}

/// What a successful backward search says.
pub proof fn lemma_last_index_from(t: Seq<char>, p: Seq<char>, from: int)
    ensures
        match last_index_from(t, p, from) {
            Some(i) => i <= from && occurs_at(t, p, i) && forall|j: int|
                i < j <= from ==> !occurs_at(t, p, j),
            None => forall|j: int| j <= from ==> !occurs_at(t, p, j),
        },
    decreases from + 1,
{
    if from >= 0 && !occurs_at(t, p, from) {
        lemma_last_index_from(t, p, from - 1);
    }
}

/// Whether the pattern stands at position `i`.
pub fn stands_at(t: &[char], p: &[char], i: usize) -> (r: bool)
    ensures
        r == occurs_at(t@, p@, i as int),
{
    if p.len() > t.len() || i > t.len() - p.len() {
        return false;
    }
    let mut k: usize = 0;
    while k < p.len()
        invariant
            k <= p.len(),
            i + p.len() <= t.len(),
            forall|j: int| 0 <= j < k ==> t@[i + j] == p@[j],
        decreases p.len() - k,
    {
        if t[i + k] != p[k] {
            assert(t@.subrange(i as int, i + p@.len())[k as int] == t@[i + k]);
            return false;
        }
        k += 1;
    }
    assert(t@.subrange(i as int, i + p@.len()) =~= p@);
    true
}

/// Position of the first occurrence of `p` at or after `from`.
pub fn find_from(t: &[char], p: &str, from: usize) -> (r: Option<usize>)
    requires
        from <= t.len(),
    ensures
        match r {
            Some(i) => index_from(t@, p@, from as int) == Some(i as int) && from <= i && i
                + p@.len() <= t.len(),
            None => index_from(t@, p@, from as int) is None,
        },
{
    let pc = chars_of(p);
    let mut i: usize = from;
    while i <= t.len() && pc.len() <= t.len() - i
        invariant
            from <= i <= t.len() + 1,
            pc@ == p@,
            index_from(t@, p@, from as int) == index_from(t@, p@, i as int),
        decreases t.len() + 1 - i,
    {
        if stands_at(t, &pc, i) {
            return Some(i);
        }
        if i == t.len() {
            assert(index_from(t@, p@, i + 1) is None);
            return None;
        }
        i += 1;
    }
    None
}

/// Position of the last occurrence of `p`.
pub fn find_last(t: &[char], p: &str) -> (r: Option<usize>)
    ensures
        match r {
            Some(i) => last_index(t@, p@) == Some(i as int) && i + p@.len() <= t.len(),
            None => last_index(t@, p@) is None,
        },
{
    let pc = chars_of(p);
    if pc.len() > t.len() {
        return None;
    }
    let mut i: usize = t.len() - pc.len();
    loop
        invariant
            pc@ == p@,
            i + pc.len() <= t.len(),
            last_index(t@, p@) == last_index_from(t@, p@, i as int),
        decreases i,
    {
        if stands_at(t, &pc, i) {
            return Some(i);
        }
        if i == 0 {
            assert(last_index_from(t@, p@, -1) is None);
            return None;
        }
        i -= 1;
    }
}

/// Whether `p` stands anywhere in the text.
pub fn contains(t: &str, p: &str) -> (r: bool)
    ensures
        r == occurs_in(t@, p@),
{
    let tc = chars_of(t);
    find_from(&tc, p, 0).is_some()
}

pub fn starts_with(t: &str, p: &str) -> (r: bool)
    ensures
        r == has_prefix(t@, p@),
{
    let tc = chars_of(t);
    let pc = chars_of(p);
    stands_at(&tc, &pc, 0)
}

pub fn ends_with(t: &str, p: &str) -> (r: bool)
    ensures
        r == has_suffix(t@, p@),
{
    let tc = chars_of(t);
    let pc = chars_of(p);
    if pc.len() > tc.len() {
        return false;
    }
    stands_at(&tc, &pc, tc.len() - pc.len())
}

// ── Replacing ──────────────────────────────────────────────────────

/// `t` from position `i` on, with every occurrence of `p` that does not
/// overlap an earlier one replaced by `q`.
pub open spec fn replaced_from(t: Seq<char>, p: Seq<char>, q: Seq<char>, i: int) -> Seq<char>
    decreases t.len() - i,
{
    if i >= t.len() {
        Seq::empty()
    } else if p.len() > 0 && occurs_at(t, p, i) {
        q + replaced_from(t, p, q, i + p.len())
    } else {
        seq![t[i]] + replaced_from(t, p, q, i + 1)
    }
}

/// `t` with every non-overlapping occurrence of the non-empty text `p`, taken
/// from the left, replaced by `q`.
pub open spec fn replaced(t: Seq<char>, p: Seq<char>, q: Seq<char>) -> Seq<char> {
    replaced_from(t, p, q, 0)
}

/// Replaces every occurrence of `p` by `q`, from the left.
pub fn replace(t: &str, p: &str, q: &str) -> (r: String)
    requires
        p@.len() > 0,
    ensures
        r@ == replaced(t@, p@, q@),
{
    let tc = chars_of(t);
    let pc = chars_of(p);
    let mut out: String = String::new();
    let mut i: usize = 0;
    while i < tc.len()
        invariant
            tc@ == t@,
            pc@ == p@,
            p@.len() > 0,
            i <= tc.len(),
            out@ + replaced_from(t@, p@, q@, i as int) == replaced(t@, p@, q@),
        decreases tc.len() - i,
    {
        if stands_at(&tc, &pc, i) {
            out.append(q);
            i += pc.len();
        } else {
            out.push(tc[i]);
            i += 1;
        }
    }
    assert(out@ =~= replaced(t@, p@, q@));
    out
}

// ── Runs of characters ─────────────────────────────────────────────

/// The Unicode `White_Space` property.
pub open spec fn is_white_space(c: char) -> bool {
    let n = c as u32;
    ||| 0x9 <= n <= 0xd
    ||| n == 0x20
    ||| n == 0x85
    ||| n == 0xa0
    ||| n == 0x1680
    ||| 0x2000 <= n <= 0x200a
    ||| n == 0x2028
    ||| n == 0x2029
    ||| n == 0x202f
    ||| n == 0x205f
    ||| n == 0x3000
}

/// Whether a character is white space.
pub fn white_space(c: char) -> (r: bool)
    ensures
        r == is_white_space(c),
{
    let n: u32 = c as u32;
    (0x9 <= n && n <= 0xd) || n == 0x20 || n == 0x85 || n == 0xa0 || n == 0x1680 || (0x2000 <= n
        && n <= 0x200a) || n == 0x2028 || n == 0x2029 || n == 0x202f || n == 0x205f || n == 0x3000
}

/// The class of white space.
pub open spec fn white() -> spec_fn(char) -> bool {
    |c: char| is_white_space(c)
}

/// The class of everything but white space.
pub open spec fn ink() -> spec_fn(char) -> bool {
    |c: char| !is_white_space(c)
}

/// The class that holds `x` alone.
pub open spec fn only(x: char) -> spec_fn(char) -> bool {
    |c: char| c == x
}

/// The class of everything but `x`.
pub open spec fn but(x: char) -> spec_fn(char) -> bool {
    |c: char| c != x
}

/// The first position, at or after `i`, of a character outside `class`; the
/// length of `t` if there is none.
pub open spec fn skip(t: Seq<char>, class: spec_fn(char) -> bool, i: int) -> int
    decreases t.len() - i,
{
    if i < 0 || i >= t.len() {
        t.len() as int
    } else if class(t[i]) {
        skip(t, class, i + 1)
    } else {
        i
    }
}

/// The position behind the last character, before `j`, outside `class`; 0 if
/// there is none.
pub open spec fn skip_back(t: Seq<char>, class: spec_fn(char) -> bool, j: int) -> int
    decreases j,
{
    if j <= 0 || j > t.len() {
        0
    } else if class(t[j - 1]) {
        skip_back(t, class, j - 1)
    } else {
        j
    }
}

/// `t` without the leading and trailing characters of `class`.
pub open spec fn trimmed(t: Seq<char>, class: spec_fn(char) -> bool) -> Seq<char> {
    let a = skip(t, class, 0);
    let b = skip_back(t, class, t.len() as int);
    if a < b {
        t.subrange(a, b)
    } else {
        Seq::empty()
    }
}

/// `t` without the trailing characters of `class`.
pub open spec fn trimmed_end(t: Seq<char>, class: spec_fn(char) -> bool) -> Seq<char> {
    t.subrange(0, skip_back(t, class, t.len() as int))
}

/// `t` without the leading characters of `class`.
pub open spec fn trimmed_start(t: Seq<char>, class: spec_fn(char) -> bool) -> Seq<char> {
    t.subrange(skip(t, class, 0), t.len() as int)
}

/// The run of `class` that starts at `i` ends where [`skip`] says.
pub proof fn lemma_skip(t: Seq<char>, class: spec_fn(char) -> bool, i: int)
    requires
        0 <= i <= t.len(),
    ensures
        i <= skip(t, class, i) <= t.len(),
        forall|k: int| i <= k < skip(t, class, i) ==> class(#[trigger] t[k]),
        skip(t, class, i) < t.len() ==> !class(t[skip(t, class, i)]),
    decreases t.len() - i,
{
    if i < t.len() && class(t[i]) {
        lemma_skip(t, class, i + 1);
    }
}

/// The run of `class` that ends at `j` starts where [`skip_back`] says.
pub proof fn lemma_skip_back(t: Seq<char>, class: spec_fn(char) -> bool, j: int)
    requires
        0 <= j <= t.len(),
    ensures
        0 <= skip_back(t, class, j) <= j,
        forall|k: int| skip_back(t, class, j) <= k < j ==> class(#[trigger] t[k]),
        skip_back(t, class, j) > 0 ==> !class(t[skip_back(t, class, j) - 1]),
    decreases j,
{
    if j > 0 && class(t[j - 1]) {
        lemma_skip_back(t, class, j - 1);
    }
}

/// First position at or after `from` of a character that is not white space.
pub fn skip_white(t: &[char], from: usize) -> (r: usize)
    requires
        from <= t.len(),
    ensures
        from <= r <= t.len(),
        r == skip(t@, white(), from as int),
{
    let mut i: usize = from;
    while i < t.len() && white_space(t[i])
        invariant
            from <= i <= t.len(),
            skip(t@, white(), from as int) == skip(t@, white(), i as int),
        decreases t.len() - i,
    {
        i += 1;
    }
    i
}

/// First position at or after `from` of white space.
pub fn skip_ink(t: &[char], from: usize) -> (r: usize)
    requires
        from <= t.len(),
    ensures
        from <= r <= t.len(),
        r == skip(t@, ink(), from as int),
{
    let mut i: usize = from;
    while i < t.len() && !white_space(t[i])
        invariant
            from <= i <= t.len(),
            skip(t@, ink(), from as int) == skip(t@, ink(), i as int),
        decreases t.len() - i,
    {
        i += 1;
    }
    i
}

/// First position at or after `from` of a character other than `x`.
pub fn skip_only(t: &[char], x: char, from: usize) -> (r: usize)
    requires
        from <= t.len(),
    ensures
        from <= r <= t.len(),
        r == skip(t@, only(x), from as int),
{
    let mut i: usize = from;
    while i < t.len() && t[i] == x
        invariant
            from <= i <= t.len(),
            skip(t@, only(x), from as int) == skip(t@, only(x), i as int),
        decreases t.len() - i,
    {
        i += 1;
    }
    i
}

/// First position at or after `from` of the character `x`.
pub fn skip_but(t: &[char], x: char, from: usize) -> (r: usize)
    requires
        from <= t.len(),
    ensures
        from <= r <= t.len(),
        r == skip(t@, but(x), from as int),
        r < t.len() ==> t@[r as int] == x,
{
    let mut i: usize = from;
    while i < t.len() && t[i] != x
        invariant
            from <= i <= t.len(),
            skip(t@, but(x), from as int) == skip(t@, but(x), i as int),
        decreases t.len() - i,
    {
        i += 1;
    }
    i
}

/// Position behind the last character that is not white space.
pub fn skip_white_back(t: &[char]) -> (r: usize)
    ensures
        r <= t.len(),
        r == skip_back(t@, white(), t.len() as int),
{
    let mut j: usize = t.len();
    while j > 0 && white_space(t[j - 1])
        invariant
            j <= t.len(),
            skip_back(t@, white(), t.len() as int) == skip_back(t@, white(), j as int),
        decreases j,
    {
        j -= 1;
    }
    j
}

/// Position behind the last character other than `x`.
pub fn skip_only_back(t: &[char], x: char) -> (r: usize)
    ensures
        r <= t.len(),
        r == skip_back(t@, only(x), t.len() as int),
{
    let mut j: usize = t.len();
    while j > 0 && t[j - 1] == x
        invariant
            j <= t.len(),
            skip_back(t@, only(x), t.len() as int) == skip_back(t@, only(x), j as int),
        decreases j,
    {
        j -= 1;
    }
    j
}

/// Removes white space at both ends.
pub fn trim(t: &str) -> (r: String)
    ensures
        r@ == trimmed(t@, white()),
{
    let tc = chars_of(t);
    let a: usize = skip_white(&tc, 0);
    let b: usize = skip_white_back(&tc);
    if a < b {
        part(&tc, a, b)
    } else {
        String::new()
    }
}

/// Removes the character `x` at both ends.
pub fn trim_char(t: &str, x: char) -> (r: String)
    ensures
        r@ == trimmed(t@, only(x)),
{
    let tc = chars_of(t);
    let a: usize = skip_only(&tc, x, 0);
    let b: usize = skip_only_back(&tc, x);
    if a < b {
        part(&tc, a, b)
    } else {
        String::new()
    }
}

/// Removes white space at the end.
pub fn trim_end(t: &str) -> (r: String)
    ensures
        r@ == trimmed_end(t@, white()),
{
    let tc = chars_of(t);
    let b: usize = skip_white_back(&tc);
    part(&tc, 0, b)
}

/// Removes the character `x` at the end.
pub fn trim_end_char(t: &str, x: char) -> (r: String)
    ensures
        r@ == trimmed_end(t@, only(x)),
{
    let tc = chars_of(t);
    let b: usize = skip_only_back(&tc, x);
    part(&tc, 0, b)
}

/// Removes white space at the start.
pub fn trim_start(t: &str) -> (r: String)
    ensures
        r@ == trimmed_start(t@, white()),
{
    let tc = chars_of(t);
    let a: usize = skip_white(&tc, 0);
    part(&tc, a, tc.len())
}

/// Removes the character `x` at the start.
pub fn trim_start_char(t: &str, x: char) -> (r: String)
    ensures
        r@ == trimmed_start(t@, only(x)),
{
    let tc = chars_of(t);
    let a: usize = skip_only(&tc, x, 0);
    part(&tc, a, tc.len())
}

// ── Letter case ────────────────────────────────────────────────────

/// The ASCII lower-case form of a character.
pub open spec fn lower_char(c: char) -> char {
    if 'A' <= c <= 'Z' {
        (c as u8 + 32) as char
    } else {
        c
    }
}

/// The ASCII upper-case form of a character.
pub open spec fn upper_char(c: char) -> char {
    if 'a' <= c <= 'z' {
        (c as u8 - 32) as char
    } else {
        c
    }
}

/// `t` with its ASCII letters in lower case.
pub open spec fn lower(t: Seq<char>) -> Seq<char> {
    Seq::new(t.len(), |i: int| lower_char(t[i]))
}

/// `t` with its ASCII letters in upper case.
pub open spec fn upper(t: Seq<char>) -> Seq<char> {
    Seq::new(t.len(), |i: int| upper_char(t[i]))
}

pub fn ascii_lower(t: &str) -> (r: String)
    ensures
        r@ == lower(t@),
{
    let tc = chars_of(t);
    let mut out: String = String::new();
    let mut i: usize = 0;
    while i < tc.len()
        invariant
            tc@ == t@,
            i <= tc.len(),
            out@ == lower(t@).take(i as int),
        decreases tc.len() - i,
    {
        let c: char = tc[i];
        out.push(if 'A' <= c && c <= 'Z' { (c as u8 + 32) as char } else { c });
        i += 1;
    }
    out
}

pub fn ascii_upper(t: &str) -> (r: String)
    ensures
        r@ == upper(t@),
{
    let tc = chars_of(t);
    let mut out: String = String::new();
    let mut i: usize = 0;
    while i < tc.len()
        invariant
            tc@ == t@,
            i <= tc.len(),
            out@ == upper(t@).take(i as int),
        decreases tc.len() - i,
    {
        let c: char = tc[i];
        out.push(if 'a' <= c && c <= 'z' { (c as u8 - 32) as char } else { c });
        i += 1;
    }
    out
}

/// The lower-case form that `str::to_lowercase` gives.
pub uninterp spec fn unicode_lower(t: Seq<char>) -> Seq<char>;

/// `str::to_lowercase` gives the lower-case form of a text. In a text of ASCII
/// characters it changes the letters A to Z and nothing else.
pub assume_specification[ str::to_lowercase ](s: &str) -> (r: String)
    ensures
        r@ == unicode_lower(s@),
        vstd::utf8::is_ascii_chars(s@) ==> r@ == lower(s@),
;

/// Whether `char::is_alphanumeric` holds of a character.
pub uninterp spec fn unicode_alphanumeric(c: char) -> bool;

/// `char::is_alphanumeric` tells letters and numbers from other characters.
/// Of the ASCII characters these are the letters and the digits.
pub assume_specification[ char::is_alphanumeric ](c: char) -> (r: bool)
    ensures
        r == unicode_alphanumeric(c),
        c <= '\u{7f}' ==> r == ('0' <= c <= '9' || 'A' <= c <= 'Z' || 'a' <= c <= 'z'),
;

// ── Splitting ──────────────────────────────────────────────────────

/// The text of an optional string.
pub open spec fn opt_view(o: Option<String>) -> Option<Seq<char>> {
    match o {
        Some(s) => Some(s@),
        None => None,
    }
}

/// The text of an optional string slice.
pub open spec fn str_view(o: Option<&str>) -> Option<Seq<char>> {
    match o {
        Some(s) => Some(s@),
        None => None,
    }
}

/// The text of an optional string; the empty text if there is none.
pub open spec fn or_empty(o: Option<Seq<char>>) -> Seq<char> {
    match o {
        Some(s) => s,
        None => Seq::empty(),
    }
}

/// The texts of a list of strings.
pub open spec fn views(v: Seq<String>) -> Seq<Seq<char>> {
    Seq::new(v.len(), |i: int| v[i]@)
}

/// The pieces of `t`, from position `i` on, between the separators `x`.
pub open spec fn pieces_from(t: Seq<char>, x: char, i: int) -> Seq<Seq<char>>
    decreases t.len() - i,
{
    let j = skip(t, but(x), i);
    if i < 0 || i > t.len() || j < i || j >= t.len() {
        seq![t.subrange(i, t.len() as int)]
    } else {
        seq![t.subrange(i, j)] + pieces_from(t, x, j + 1)
    }
}

/// The pieces of `t` between the separators `x`.
pub open spec fn pieces(t: Seq<char>, x: char) -> Seq<Seq<char>> {
    pieces_from(t, x, 0)
}

/// Splits a text at every separator.
pub fn split(t: &str, x: char) -> (r: Vec<String>)
    ensures
        views(r@) == pieces(t@, x),
{
    let tc = chars_of(t);
    let mut out: Vec<String> = Vec::new();
    let mut i: usize = 0;
    loop
        invariant
            tc@ == t@,
            i <= tc.len(),
            views(out@) + pieces_from(t@, x, i as int) == pieces(t@, x),
        decreases tc.len() - i,
    {
        let j: usize = skip_but(&tc, x, i);
        let ghost before = out@;
        out.push(part(&tc, i, j));
        if j == tc.len() {
            assert(views(out@) =~= views(before) + pieces_from(t@, x, i as int));
            return out;
        }
        assert(views(out@) =~= views(before).push(t@.subrange(i as int, j as int)));
        assert(views(before) + (seq![t@.subrange(i as int, j as int)] + pieces_from(
            t@,
            x,
            j + 1,
        )) =~= views(out@) + pieces_from(t@, x, j + 1));
        i = j + 1;
    }
}

/// The words of `t`, from position `i` on, that white space separates.
pub open spec fn words_from(t: Seq<char>, i: int) -> Seq<Seq<char>>
    decreases t.len() - i,
{
    let a = skip(t, white(), i);
    let b = skip(t, ink(), a);
    if i < 0 || a < i || b <= a || a >= t.len() || b > t.len() {
        Seq::empty()
    } else {
        seq![t.subrange(a, b)] + words_from(t, b)
    }
}

/// The words of `t` that white space separates.
pub open spec fn words(t: Seq<char>) -> Seq<Seq<char>> {
    words_from(t, 0)
}

/// Splits a text into the words that white space separates.
pub fn split_words(t: &str) -> (r: Vec<String>)
    ensures
        views(r@) == words(t@),
{
    let tc = chars_of(t);
    let mut out: Vec<String> = Vec::new();
    let mut i: usize = 0;
    loop
        invariant
            tc@ == t@,
            i <= tc.len(),
            views(out@) + words_from(t@, i as int) == words(t@),
        decreases tc.len() - i,
    {
        let a: usize = skip_white(&tc, i);
        if a == tc.len() {
            assert(words_from(t@, i as int) =~= Seq::empty());
            assert(views(out@) =~= words(t@));
            return out;
        }
        let b: usize = skip_ink(&tc, a);
        proof {
            lemma_skip(t@, white(), i as int);
            lemma_skip(t@, ink(), a as int);
            assert(a < b);
        }
        let ghost before = out@;
        out.push(part(&tc, a, b));
        assert(views(out@) =~= views(before).push(t@.subrange(a as int, b as int)));
        assert(views(before) + (seq![t@.subrange(a as int, b as int)] + words_from(t@, b as int))
            =~= views(out@) + words_from(t@, b as int));
        i = b;
    }
}

/// The line that ends at the line feed at `j`, without a carriage return
/// before the line feed.
pub open spec fn line_before(t: Seq<char>, i: int, j: int) -> Seq<char> {
    if i < j && t[j - 1] == '\r' {
        t.subrange(i, j - 1)
    } else {
        t.subrange(i, j)
    }
}

/// The lines of `t` from position `i` on. Nothing behind the last line feed is
/// no line.
pub open spec fn lines_from(t: Seq<char>, i: int) -> Seq<Seq<char>>
    decreases t.len() - i,
{
    let j = skip(t, but('\n'), i);
    if i < 0 || i >= t.len() || j < i {
        Seq::empty()
    } else if j >= t.len() {
        seq![t.subrange(i, t.len() as int)]
    } else {
        seq![line_before(t, i, j)] + lines_from(t, j + 1)
    }
}

/// The lines of `t`.
pub open spec fn lines(t: Seq<char>) -> Seq<Seq<char>> {
    lines_from(t, 0)
}

/// Splits a text into its lines.
pub fn split_lines(t: &str) -> (r: Vec<String>)
    ensures
        views(r@) == lines(t@),
{
    let tc = chars_of(t);
    let mut out: Vec<String> = Vec::new();
    let mut i: usize = 0;
    while i < tc.len()
        invariant
            tc@ == t@,
            i <= tc.len(),
            views(out@) + lines_from(t@, i as int) == lines(t@),
        decreases tc.len() - i,
    {
        let j: usize = skip_but(&tc, '\n', i);
        let ghost before = out@;
        if j == tc.len() {
            out.push(part(&tc, i, j));
            assert(views(out@) =~= views(before) + lines_from(t@, i as int));
            return out;
        }
        let end: usize = if i < j && tc[j - 1] == '\r' { j - 1 } else { j };
        out.push(part(&tc, i, end));
        assert(views(out@) =~= views(before).push(line_before(t@, i as int, j as int)));
        assert(views(before) + (seq![line_before(t@, i as int, j as int)] + lines_from(t@, j + 1))
            =~= views(out@) + lines_from(t@, j + 1));
        i = j + 1;
    }
    assert(views(out@) =~= lines(t@));
    out
}

// ── Numbers ────────────────────────────────────────────────────────

/// The decimal digit for a number below ten.
pub open spec fn digit(n: nat) -> char {
    (48 + n) as char
}

/// The decimal form of a number.
pub open spec fn decimal(n: nat) -> Seq<char>
    decreases n,
{
    if n < 10 {
        seq![digit(n)]
    } else {
        decimal(n / 10).push(digit(n % 10))
    }
}

/// Appends the decimal form of a number.
pub fn push_decimal(out: &mut String, n: usize)
    ensures
        final(out)@ == old(out)@ + decimal(n as nat),
    decreases n,
{
    if n >= 10 {
        push_decimal(out, n / 10);
    }
    out.push((48 + (n % 10) as u8) as char);
    assert(out@ =~= old(out)@ + decimal(n as nat));
}

/// Decimals are made of digits.
pub proof fn lemma_decimal_digits(n: nat)
    ensures
        decimal(n).len() > 0,
        forall|i: int| 0 <= i < decimal(n).len() ==> '0' <= #[trigger] decimal(n)[i] <= '9',
    decreases n,
{
    if n >= 10 {
        lemma_decimal_digits(n / 10);
    }
}

/// The value of a digit in a base up to sixteen, in either letter case.
pub open spec fn digit_value(c: char, base: nat) -> Option<nat> {
    let v = if '0' <= c <= '9' {
        (c as nat - 48) as nat
    } else if 'a' <= c <= 'f' {
        (c as nat - 87) as nat
    } else if 'A' <= c <= 'F' {
        (c as nat - 55) as nat
    } else {
        16
    };
    if v < base {
        Some(v)
    } else {
        None
    }
}

/// The number that a run of digits stands for; none for an empty text, or one
/// that holds anything but digits of the base.
pub open spec fn number(t: Seq<char>, base: nat) -> Option<nat>
    decreases t.len(),
{
    if t.len() == 0 {
        None
    } else if t.len() == 1 {
        digit_value(t[0], base)
    } else {
        match (number(t.drop_last(), base), digit_value(t.last(), base)) {
            (Some(v), Some(d)) => Some(v * base + d),
            _ => None,
        }
    }
}

/// Reads a number. One beyond 64 bits is told from a text that is none.
fn scan_number(t: &[char], base: u64) -> (r: Option<Option<u64>>)
    requires
        2 <= base <= 16,
    ensures
        match number(t@, base as nat) {
            Some(v) => if v <= u64::MAX {
                r == Some(Some(v as u64))
            } else {
                r == Some(None::<u64>)
            },
            None => r is None,
        },
{
    if t.len() == 0 {
        return None;
    }
    let mut v: u64 = 0;
    let mut small: bool = true;
    let mut i: usize = 0;
    while i < t.len()
        invariant
            2 <= base <= 16,
            i <= t.len(),
            i == 0 ==> v == 0 && small,
            i > 0 && small ==> number(t@.take(i as int), base as nat) == Some(v as nat),
            i > 0 && !small ==> (number(t@.take(i as int), base as nat) matches Some(w)
                && w > u64::MAX),
        decreases t.len() - i,
    {
        let c: char = t[i];
        let d: u64 = if '0' <= c && c <= '9' {
            c as u64 - 48
        } else if 'a' <= c && c <= 'f' {
            c as u64 - 87
        } else if 'A' <= c && c <= 'F' {
            c as u64 - 55
        } else {
            16
        };
        let ghost head = t@.take(i as int);
        let ghost next = t@.take(i + 1);
        assert(next.drop_last() =~= head);
        assert(next.last() == c);
        if d >= base {
            proof {
                lemma_number_prefix(t@, base as nat, i + 1);
            }
            return None;
        }
        if small {
            let ghost before = v;
            assert(i > 0 ==> number(next, base as nat) == Some((before * base + d) as nat));
            assert(i == 0 ==> before * base == 0) by (nonlinear_arith)
                requires
                    i == 0 ==> before == 0,
            ;
            match v.checked_mul(base) {
                Some(w) => match w.checked_add(d) {
                    Some(x) => {
                        v = x;
                    },
                    None => {
                        small = false;
                    },
                },
                None => {
                    small = false;
                },
            }
        } else {
            proof {
                let w = number(head, base as nat)->0;
                assert(w * base >= w) by (nonlinear_arith)
                    requires
                        base >= 2,
                ;
            }
        }
        i += 1;
    }
    assert(t@.take(t.len() as int) =~= t@);
    if small {
        Some(Some(v))
    } else {
        Some(None)
    }
}

/// Reads a number up to `max`.
pub fn read_number(t: &[char], base: u64, max: u64) -> (r: Option<u64>)
    requires
        2 <= base <= 16,
    ensures
        match number(t@, base as nat) {
            Some(v) => if v <= max {
                r == Some(v as u64)
            } else {
                r is None
            },
            None => r is None,
        },
{
    match scan_number(t, base) {
        Some(Some(v)) => if v <= max {
            Some(v)
        } else {
            None
        },
        _ => None,
    }
}

/// Whether a text is a number above `bound`.
pub fn is_number_above(t: &[char], base: u64, bound: u64) -> (r: bool)
    requires
        2 <= base <= 16,
    ensures
        r == (number(t@, base as nat) matches Some(v) && v > bound),
{
    match scan_number(t, base) {
        Some(Some(v)) => v > bound,
        Some(None) => true,
        None => false,
    }
}

/// A text that starts with something other than a number is no number.
proof fn lemma_number_prefix(t: Seq<char>, base: nat, n: int)
    requires
        0 < n <= t.len(),
        number(t.take(n), base) is None,
    ensures
        number(t, base) is None,
    decreases t.len(),
{
    if n < t.len() {
        assert(t.drop_last().take(n) =~= t.take(n));
        lemma_number_prefix(t.drop_last(), base, n);
    } else {
        assert(t.take(n) =~= t);
    }
}

/// Reading the decimal form of a number gives the number back.
pub proof fn law_decimal_reads_back(n: nat)
    ensures
        decimal(n).len() > 0,
        number(decimal(n), 10) == Some(n),
    decreases n,
{
    if n < 10 {
        assert(digit_value(digit(n), 10) == Some(n));
    } else {
        law_decimal_reads_back(n / 10);
        assert(decimal(n).drop_last() =~= decimal(n / 10));
        assert(digit_value(digit(n % 10), 10) == Some(n % 10));
    }
}

} // verus!
