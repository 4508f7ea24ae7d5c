//! Pure helpers: file names, HTML entities, URLs, and the rewriting of
//! Confluence storage-format macros into plain HTML.

use vstd::prelude::*;
use vstd::string::StringExecFns;

use crate::text::{
    ascii_lower, but, chars_of, digit_value, is_white_space, lemma_skip, lemma_skip_back, lower,
    number, only, part, pieces, read_number, replace, replaced, same_text, skip, skip_back,
    skip_but, split, text_of, trim, trim_char, trim_end_char, trimmed, trimmed_end, views, white,
    white_space,
};

pub use crate::macros::{
    apply_task_list_statuses, extract_macro_blocks, extract_macro_param,
    preprocess_confluence_macros,
};
pub use crate::names::{
    get_file_name_from_url_or_headers, make_assets_info, to_markdown_asset_path, AssetsInfo,
    HeaderHints,
};
pub use crate::web::resolve_url;

verus! {

// ── File names ─────────────────────────────────────────────────────

/// The most characters a file name keeps.
pub const MAX_FILE_NAME: usize = 180;

/// The characters that common file systems refuse in a name.
pub open spec fn is_forbidden(c: char) -> bool {
    c == '\\' || c == '/' || c == ':' || c == '*' || c == '?' || c == '"' || c == '<' || c == '>'
        || c == '|'
}

/// Every forbidden character and every white space made an underscore.
pub open spec fn underscored(t: Seq<char>) -> Seq<char> {
    Seq::new(
        t.len(),
        |i: int|
            if is_forbidden(t[i]) || is_white_space(t[i]) {
                '_'
            } else {
                t[i]
            },
    )
}

/// Every run of underscores made one underscore.
pub open spec fn squeezed(t: Seq<char>) -> Seq<char>
    decreases t.len(),
{
    if t.len() == 0 {
        t
    } else if t.len() >= 2 && t.last() == '_' && t[t.len() - 2] == '_' {
        squeezed(t.drop_last())
    } else {
        squeezed(t.drop_last()).push(t.last())
    }
}

/// The safe file name for a text.
pub open spec fn sanitized(t: Seq<char>) -> Seq<char> {
    let s = trimmed(squeezed(underscored(t)), only('_'));
    let cut = if s.len() <= MAX_FILE_NAME {
        s
    } else {
        s.take(MAX_FILE_NAME as int)
    };
    if cut.len() == 0 {
        "file"@
    } else {
        cut
    }
}

/// A squeezed text ends as the text does.
proof fn lemma_squeezed_last(t: Seq<char>)
    ensures
        squeezed(t).len() <= t.len(),
        t.len() > 0 ==> squeezed(t).len() > 0 && squeezed(t).last() == t.last(),
    decreases t.len(),
{
    if t.len() > 0 {
        lemma_squeezed_last(t.drop_last());
    }
}

/// Makes a text safe to use as a file name.
///
/// * the characters `\/:*?"<>|` become `_`
/// * runs of white space and underscores become one `_`
/// * leading and trailing `_` go
/// * at most 180 characters stay
/// * if nothing is left, the name is `file`
pub fn sanitize_file_name(name: &str) -> (r: String)
    ensures
        r@ == sanitized(name@),
{
    let t = chars_of(name);
    let mut out: Vec<char> = Vec::new();
    let mut i: usize = 0;
    let ghost u = underscored(t@);
    while i < t.len()
        invariant
            u == underscored(t@),
            t@ == name@,
            i <= t.len(),
            out@ == squeezed(u.take(i as int)),
        decreases t.len() - i,
    {
        let c: char = t[i];
        let bad = c == '\\' || c == '/' || c == ':' || c == '*' || c == '?' || c == '"' || c == '<'
            || c == '>' || c == '|' || white_space(c);
        let d: char = if bad {
            '_'
        } else {
            c
        };
        proof {
            lemma_squeezed_last(u.take(i as int));
            assert(u.take(i + 1).drop_last() =~= u.take(i as int));
            assert(u.take(i + 1).last() == d);
        }
        if !(d == '_' && out.len() > 0 && out[out.len() - 1] == '_') {
            out.push(d);
        }
        i += 1;
    }
    assert(u.take(t.len() as int) =~= u);
    let joined = text_of(&out);
    let stripped = trim_char(&joined, '_');
    let s = chars_of(&stripped);
    if s.len() == 0 {
        return "file".to_owned();
    }
    if s.len() <= MAX_FILE_NAME {
        return stripped;
    }
    let cut = part(&s, 0, MAX_FILE_NAME);
    assert(cut@ =~= s@.take(MAX_FILE_NAME as int));
    cut
}

/// Squeezing keeps characters and leaves no two underscores side by side.
proof fn lemma_squeezed(t: Seq<char>)
    ensures
        forall|i: int|
            0 <= i < squeezed(t).len() ==> t.contains(#[trigger] squeezed(t)[i]),
        forall|i: int|
            0 <= i < squeezed(t).len() - 1 ==> !((#[trigger] squeezed(t)[i]) == '_' && squeezed(
                t,
            )[i + 1] == '_'),
    decreases t.len(),
{
    if t.len() > 0 {
        let rest = t.drop_last();
        lemma_squeezed(rest);
        lemma_squeezed_last(rest);
        assert forall|i: int| 0 <= i < squeezed(t).len() implies t.contains(
            #[trigger] squeezed(t)[i],
        ) by {
            if i < squeezed(rest).len() {
                assert(squeezed(t)[i] == squeezed(rest)[i]);
                let k = choose|k: int| 0 <= k < rest.len() && rest[k] == squeezed(rest)[i];
                assert(t[k] == squeezed(t)[i]);
            } else {
                assert(t[t.len() - 1] == squeezed(t)[i]);
            }
        }
        assert forall|i: int| 0 <= i < squeezed(t).len() - 1 implies !((#[trigger] squeezed(t)[i])
            == '_' && squeezed(t)[i + 1] == '_') by {
            if i + 1 < squeezed(rest).len() {
                assert(squeezed(t)[i] == squeezed(rest)[i]);
                assert(squeezed(t)[i + 1] == squeezed(rest)[i + 1]);
            } else if i < squeezed(rest).len() {
                assert(squeezed(t)[i] == squeezed(rest)[i]);
            }
        }
    }
}

/// A text without doubled underscores is squeezed already.
proof fn lemma_squeezed_fixed(t: Seq<char>)
    requires
        forall|i: int| 0 <= i < t.len() - 1 ==> !((#[trigger] t[i]) == '_' && t[i + 1] == '_'),
    ensures
        squeezed(t) == t,
    decreases t.len(),
{
    if t.len() > 0 {
        let rest = t.drop_last();
        assert forall|i: int| 0 <= i < rest.len() - 1 implies !((#[trigger] rest[i]) == '_'
            && rest[i + 1] == '_') by {
            assert(t[i] == rest[i]);
        }
        lemma_squeezed_fixed(rest);
        if t.len() >= 2 {
            assert(!(t[t.len() - 2] == '_' && t[t.len() - 1] == '_'));
        }
        assert(squeezed(t) =~= t);
    }
}

/// Whether a text can serve as a file name as it stands: it is neither empty
/// nor too long, holds no forbidden character, no white space and no two
/// underscores side by side, and does not start with an underscore.
pub open spec fn is_safe_name(s: Seq<char>) -> bool {
    &&& 1 <= s.len() <= MAX_FILE_NAME
    &&& s[0] != '_'
    &&& forall|i: int|
        0 <= i < s.len() ==> !is_forbidden(#[trigger] s[i]) && !is_white_space(s[i])
    &&& forall|i: int| 0 <= i < s.len() - 1 ==> !((#[trigger] s[i]) == '_' && s[i + 1] == '_')
}

/// A sanitised name is safe, and one that was not cut short does not end in
/// an underscore.
pub proof fn law_sanitized_is_safe(t: Seq<char>)
    ensures
        is_safe_name(sanitized(t)),
        sanitized(t).len() < MAX_FILE_NAME ==> sanitized(t).last() != '_',
{
    let q = squeezed(underscored(t));
    let s = trimmed(q, only('_'));
    let a = skip(q, only('_'), 0);
    let b = skip_back(q, only('_'), q.len() as int);
    lemma_squeezed(underscored(t));
    lemma_skip(q, only('_'), 0);
    lemma_skip_back(q, only('_'), q.len() as int);
    reveal_strlit("file");
    if s.len() > 0 {
        let r = sanitized(t);
        assert forall|i: int| 0 <= i < r.len() implies !is_forbidden(#[trigger] r[i])
            && !is_white_space(r[i]) by {
            assert(r[i] == q[a + i]);
            let k = choose|k: int| 0 <= k < underscored(t).len() && underscored(t)[k] == q[a + i];
        }
        assert forall|i: int| 0 <= i < r.len() - 1 implies !((#[trigger] r[i]) == '_' && r[i + 1]
            == '_') by {
            assert(r[i] == q[a + i] && r[i + 1] == q[a + i + 1]);
        }
        assert(r[0] == q[a]);
    }
}

/// A safe name that does not end in an underscore is kept as it is.
pub proof fn law_safe_name_is_kept(s: Seq<char>)
    requires
        is_safe_name(s),
        s.last() != '_',
    ensures
        sanitized(s) == s,
{
    assert(underscored(s) =~= s);
    lemma_squeezed_fixed(s);
    lemma_skip(s, only('_'), 0);
    lemma_skip_back(s, only('_'), s.len() as int);
    assert(s.subrange(0, s.len() as int) =~= s);
}

// ── HTML entities ──────────────────────────────────────────────────

/// A text with the entities of attribute values decoded, `&amp;` first.
pub open spec fn attribute_decoded(t: Seq<char>) -> Seq<char> {
    let t = replaced(t, "&amp;"@, "&"@);
    let t = replaced(t, "&quot;"@, "\""@);
    let t = replaced(t, "&#39;"@, "'"@);
    let t = replaced(t, "&lt;"@, "<"@);
    replaced(t, "&gt;"@, ">"@)
}

/// Decodes the small set of entities used in HTML attributes:
/// `&amp; &quot; &#39; &lt; &gt;`.
pub fn decode_html_attribute(value: &str) -> (r: String)
    ensures
        r@ == attribute_decoded(value@),
{
    proof {
        reveal_strlit("&amp;");
        reveal_strlit("&quot;");
        reveal_strlit("&#39;");
        reveal_strlit("&lt;");
        reveal_strlit("&gt;");
    }
    let s = replace(value, "&amp;", "&");
    let s = replace(&s, "&quot;", "\"");
    let s = replace(&s, "&#39;", "'");
    let s = replace(&s, "&lt;", "<");
    replace(&s, "&gt;", ">")
}

/// The digits of a base.
pub open spec fn digits(base: nat) -> spec_fn(char) -> bool {
    |c: char| digit_value(c, base) is Some
}

/// Where the digits of a numeric character reference at `i` would start: in
/// base sixteen behind `&#x`, in base ten behind `&#`.
pub open spec fn reference_digits(t: Seq<char>, base: nat, i: int) -> Option<int> {
    if !(0 <= i && i + 1 < t.len() && t[i] == '&' && t[i + 1] == '#') {
        None
    } else if base == 16 {
        if i + 2 < t.len() && (t[i + 2] == 'x' || t[i + 2] == 'X') {
            Some(i + 3)
        } else {
            None
        }
    } else {
        Some(i + 2)
    }
}

/// The semicolon of the numeric character reference that stands at `i`.
pub open spec fn reference_end(t: Seq<char>, base: nat, i: int) -> Option<int> {
    match reference_digits(t, base, i) {
        Some(a) => {
            let b = skip(t, digits(base), a);
            if a < b < t.len() && t[b] == ';' {
                Some(b)
            } else {
                None
            }
        },
        None => None,
    }
}

/// Whether a number is that of a character.
pub open spec fn is_char_code(n: nat) -> bool {
    n < 0xD800 || 0xE000 <= n <= 0x10FFFF
}

/// The character of a number; nothing for a number that stands for none.
pub open spec fn char_text(n: Option<nat>) -> Seq<char> {
    match n {
        Some(v) => if is_char_code(v) {
            seq![v as char]
        } else {
            Seq::empty()
        },
        None => Seq::empty(),
    }
}

/// `t` from `i` on, with its numeric character references decoded.
pub open spec fn references_decoded_from(t: Seq<char>, base: nat, i: int) -> Seq<char>
    decreases t.len() - i,
{
    if i < 0 || i >= t.len() {
        Seq::empty()
    } else {
        match reference_end(t, base, i) {
            Some(b) => if b >= i {
                char_text(number(t.subrange(reference_digits(t, base, i)->0, b), base))
                    + references_decoded_from(t, base, b + 1)
            } else {
                Seq::empty()
            },
            None => seq![t[i]] + references_decoded_from(t, base, i + 1),
        }
    }
}

/// `t` with its numeric character references of one base decoded.
pub open spec fn references_decoded(t: Seq<char>, base: nat) -> Seq<char> {
    references_decoded_from(t, base, 0)
}

/// A text with the entities of text content decoded: those of attribute
/// values, then `&#x41;`, then `&#65;`.
pub open spec fn text_decoded(t: Seq<char>) -> Seq<char> {
    references_decoded(references_decoded(attribute_decoded(t), 16), 10)
}

/// `char::from_u32` gives the character of that number, and none for a
/// surrogate or a number above the last character.
pub assume_specification[ char::from_u32 ](n: u32) -> (r: Option<char>)
    ensures
        match r {
            Some(c) => is_char_code(n as nat) && c == n as char,
            None => !is_char_code(n as nat),
        },
;

fn skip_digits(t: &[char], base: u64, from: usize) -> (r: usize)
    requires
        from <= t.len(),
        base == 10 || base == 16,
    ensures
        from <= r <= t.len(),
        r == skip(t@, digits(base as nat), from as int),
{
    let mut i: usize = from;
    while i < t.len() && (('0' <= t[i] && t[i] <= '9') || (base == 16 && (('a' <= t[i] && t[i]
        <= 'f') || ('A' <= t[i] && t[i] <= 'F'))))
        invariant
            from <= i <= t.len(),
            base == 10 || base == 16,
            skip(t@, digits(base as nat), from as int) == skip(
                t@,
                digits(base as nat),
                i as int,
            ),
        decreases t.len() - i,
    {
        i += 1;
    }
    i
}

/// Where the digits of the numeric character reference at `i` start, and its
/// semicolon.
fn find_reference(t: &[char], base: u64, i: usize) -> (r: Option<(usize, usize)>)
    requires
        i < t.len(),
        base == 10 || base == 16,
    ensures
        match r {
            Some((a, b)) => reference_digits(t@, base as nat, i as int) == Some(a as int)
                && reference_end(t@, base as nat, i as int) == Some(b as int) && i < a <= b
                < t.len(),
            None => reference_end(t@, base as nat, i as int) is None,
        },
{
    if !(t[i] == '&' && i + 1 < t.len() && t[i + 1] == '#') {
        return None;
    }
    let a: usize = if base == 16 {
        if i + 2 < t.len() && (t[i + 2] == 'x' || t[i + 2] == 'X') {
            i + 3
        } else {
            return None;
        }
    } else {
        i + 2
    };
    let b = skip_digits(t, base, a);
    if a < b && b < t.len() && t[b] == ';' {
        Some((a, b))
    } else {
        None
    }
}

/// Decodes the numeric character references of one base.
fn decode_references(value: &str, base: u64) -> (r: String)
    requires
        base == 10 || base == 16,
    ensures
        r@ == references_decoded(value@, base as nat),
{
    let t = chars_of(value);
    let mut out: String = String::new();
    let mut i: usize = 0;
    while i < t.len()
        invariant
            t@ == value@,
            base == 10 || base == 16,
            i <= t.len(),
            out@ + references_decoded_from(t@, base as nat, i as int) == references_decoded(
                t@,
                base as nat,
            ),
        decreases t.len() - i,
    {
        let ghost before = out@;
        match find_reference(&t, base, i) {
            Some((a, b)) => {
                let run = part(&t, a, b);
                let run = chars_of(&run);
                if let Some(n) = read_number(&run, base, 0x10FFFF) {
                    if let Some(c) = char::from_u32(n as u32) {
                        out.push(c);
                    }
                }
                assert(out@ =~= before + char_text(
                    number(t@.subrange(a as int, b as int), base as nat),
                ));
                i = b + 1;
            },
            None => {
                out.push(t[i]);
                assert(out@ =~= before + seq![t[i as int]]);
                i += 1;
            },
        }
        assert(out@ + references_decoded_from(t@, base as nat, i as int)
            =~= references_decoded(t@, base as nat));
    }
    assert(out@ =~= references_decoded(t@, base as nat));
    out
}

/// Decodes the same entities as [`decode_html_attribute`], then numeric
/// character references (`&#x41;`, `&#65;`).
pub fn decode_html_text(value: &str) -> (r: String)
    ensures
        r@ == text_decoded(value@),
{
    let s = decode_html_attribute(value);
    let s = decode_references(&s, 16);
    decode_references(&s, 10)
}

/// The position behind the tag that starts at `i`: a `<`, then at least one
/// character up to the next `>`.
pub open spec fn tag_end(t: Seq<char>, i: int) -> Option<int> {
    if 0 <= i < t.len() && t[i] == '<' {
        let j = skip(t, but('>'), i + 1);
        if i + 1 < j < t.len() {
            Some(j + 1)
        } else {
            None
        }
    } else {
        None
    }
}

/// `t` from `i` on, without its tags.
pub open spec fn untagged_from(t: Seq<char>, i: int) -> Seq<char>
    decreases t.len() - i,
{
    if i < 0 || i >= t.len() {
        Seq::empty()
    } else {
        match tag_end(t, i) {
            Some(j) => if j > i {
                untagged_from(t, j)
            } else {
                Seq::empty()
            },
            None => seq![t[i]] + untagged_from(t, i + 1),
        }
    }
}

/// The plain text of an HTML fragment: without tags, with entities decoded,
/// trimmed.
pub open spec fn stripped(t: Seq<char>) -> Seq<char> {
    trimmed(text_decoded(untagged_from(t, 0)), white())
}

/// Drops the tags of an HTML fragment.
fn drop_tags(html: &str) -> (r: String)
    ensures
        r@ == untagged_from(html@, 0),
{
    let t = chars_of(html);
    let mut out: String = String::new();
    let mut i: usize = 0;
    while i < t.len()
        invariant
            t@ == html@,
            i <= t.len(),
            out@ + untagged_from(t@, i as int) == untagged_from(t@, 0),
        decreases t.len() - i,
    {
        let ghost before = out@;
        let end: usize = if t[i] == '<' {
            let j = skip_but(&t, '>', i + 1);
            if i + 1 < j && j < t.len() {
                j + 1
            } else {
                0
            }
        } else {
            0
        };
        if end > 0 {
            i = end;
        } else {
            assert(tag_end(t@, i as int) is None);
            out.push(t[i]);
            assert(out@ =~= before + seq![t[i as int]]);
            i += 1;
        }
        assert(out@ + untagged_from(t@, i as int) =~= untagged_from(t@, 0));
    }
    assert(out@ =~= untagged_from(t@, 0));
    out
}

/// Removes HTML tags and decodes entities, then trims.
pub fn strip_tags(html: &str) -> (r: String)
    ensures
        r@ == stripped(html@),
{
    let plain = drop_tags(html);
    let decoded = decode_html_text(&plain);
    trim(&decoded)
}

/// What a character becomes in HTML text or an attribute value.
pub open spec fn escaped_char(c: char) -> Seq<char> {
    if c == '&' {
        "&amp;"@
    } else if c == '<' {
        "&lt;"@
    } else if c == '>' {
        "&gt;"@
    } else if c == '"' {
        "&quot;"@
    } else {
        seq![c]
    }
}

/// A text with `& < > "` escaped.
pub open spec fn escaped(t: Seq<char>) -> Seq<char>
    decreases t.len(),
{
    if t.len() == 0 {
        Seq::empty()
    } else {
        escaped(t.drop_last()) + escaped_char(t.last())
    }
}

/// Escapes `& < > "` for use in HTML attributes and text.
pub fn escape_html(text: &str) -> (r: String)
    ensures
        r@ == escaped(text@),
{
    let t = chars_of(text);
    let mut out: String = String::new();
    let mut i: usize = 0;
    while i < t.len()
        invariant
            t@ == text@,
            i <= t.len(),
            out@ == escaped(t@.take(i as int)),
        decreases t.len() - i,
    {
        let ghost before = out@;
        let c: char = t[i];
        if c == '&' {
            out.append("&amp;");
        } else if c == '<' {
            out.append("&lt;");
        } else if c == '>' {
            out.append("&gt;");
        } else if c == '"' {
            out.append("&quot;");
        } else {
            out.push(c);
            assert(out@ =~= before + escaped_char(c));
        }
        assert(t@.take(i + 1).drop_last() =~= t@.take(i as int));
        i += 1;
    }
    assert(t@.take(t.len() as int) =~= t@);
    out
}

proof fn lemma_escaped_is_safe(t: Seq<char>)
    ensures
        forall|i: int|
            0 <= i < escaped(t).len() ==> (#[trigger] escaped(t)[i]) != '<' && escaped(t)[i] != '>'
                && escaped(t)[i] != '"',
    decreases t.len(),
{
    reveal_strlit("&amp;");
    reveal_strlit("&lt;");
    reveal_strlit("&gt;");
    reveal_strlit("&quot;");
    if t.len() > 0 {
        let head = escaped(t.drop_last());
        let tail = escaped_char(t.last());
        lemma_escaped_is_safe(t.drop_last());
        assert forall|i: int| 0 <= i < escaped(t).len() implies (#[trigger] escaped(t)[i]) != '<'
            && escaped(t)[i] != '>' && escaped(t)[i] != '"' by {
            if i < head.len() {
                assert(escaped(t)[i] == head[i]);
            } else {
                assert(escaped(t)[i] == tail[i - head.len()]);
            }
        }
    }
}

/// An escaped text holds no angle bracket and no double quotation mark, so it
/// can neither start a tag nor end an attribute value.
pub proof fn law_escaped_is_safe(t: Seq<char>, i: int)
    requires
        0 <= i < escaped(t).len(),
    ensures
        escaped(t)[i] != '<',
        escaped(t)[i] != '>',
        escaped(t)[i] != '"',
{
    lemma_escaped_is_safe(t);
}

proof fn lemma_escape_keeps_plain(t: Seq<char>)
    requires
        forall|i: int| 0 <= i < t.len() ==> escaped_char(#[trigger] t[i]) == seq![t[i]],
    ensures
        escaped(t) == t,
    decreases t.len(),
{
    if t.len() > 0 {
        assert(escaped_char(t[t.len() - 1]) == seq![t[t.len() - 1]]);
        assert forall|i: int| 0 <= i < t.drop_last().len() implies escaped_char(
            #[trigger] t.drop_last()[i],
        ) == seq![t.drop_last()[i]] by {
            assert(t.drop_last()[i] == t[i]);
        }
        lemma_escape_keeps_plain(t.drop_last());
        assert(escaped(t) =~= t);
    }
}

/// A text without `& < > "` is not changed by escaping.
pub proof fn law_escape_keeps_plain_text(t: Seq<char>)
    requires
        !t.contains('&'),
        !t.contains('<'),
        !t.contains('>'),
        !t.contains('"'),
    ensures
        escaped(t) == t,
{
    assert forall|i: int| 0 <= i < t.len() implies escaped_char(#[trigger] t[i]) == seq![t[i]] by {
        assert(t.contains(t[i]));
    }
    lemma_escape_keeps_plain(t);
}

// ── URLs and content types ─────────────────────────────────────────

/// Strips trailing slashes from a base URL.
pub fn normalize_base_url(base_url: &str) -> (r: String)
    ensures
        r@ == trimmed_end(base_url@, only('/')),
{
    trim_end_char(base_url, '/')
}

/// The file extension of a media type; empty for one that is not known.
pub open spec fn media_extension(media: Seq<char>) -> Seq<char> {
    if media == "image/png"@ {
        ".png"@
    } else if media == "image/jpeg"@ {
        ".jpg"@
    } else if media == "image/gif"@ {
        ".gif"@
    } else if media == "image/webp"@ {
        ".webp"@
    } else if media == "image/svg+xml"@ {
        ".svg"@
    } else if media == "image/bmp"@ {
        ".bmp"@
    } else if media == "image/x-icon"@ || media == "image/vnd.microsoft.icon"@ {
        ".ico"@
    } else if media == "image/tiff"@ {
        ".tif"@
    } else {
        ""@
    }
}

/// The media type that a `Content-Type` header names: what stands before the
/// first semicolon, trimmed, in lower case.
pub open spec fn media_type(content_type: Seq<char>) -> Seq<char> {
    lower(trimmed(pieces(content_type, ';')[0], white()))
}

/// Maps a `Content-Type` header to a file extension (or the empty text).
pub fn ext_from_content_type(content_type: &str) -> (r: &'static str)
    ensures
        r@ == media_extension(media_type(content_type@)),
{
    let parts = split(content_type, ';');
    assert(views(parts@).len() >= 1);
    assert(views(parts@)[0] == parts[0]@);
    let first = trim(&parts[0]);
    let media = ascii_lower(&first);
    if same_text(&media, "image/png") {
        ".png"
    } else if same_text(&media, "image/jpeg") {
        ".jpg"
    } else if same_text(&media, "image/gif") {
        ".gif"
    } else if same_text(&media, "image/webp") {
        ".webp"
    } else if same_text(&media, "image/svg+xml") {
        ".svg"
    } else if same_text(&media, "image/bmp") {
        ".bmp"
    } else if same_text(&media, "image/x-icon") || same_text(&media, "image/vnd.microsoft.icon") {
        ".ico"
    } else if same_text(&media, "image/tiff") {
        ".tif"
    } else {
        ""
    }
}

} // verus!
