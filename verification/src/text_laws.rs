//! What taking texts apart keeps of them.

use vstd::prelude::*;
use vstd::utf8::{encode_utf8, is_ascii_chars, is_ascii_chars_encode_utf8};

use crate::entities::law_decoding_undoes_escaping;
use crate::export_laws::{inks, lemma_inks_joined, lemma_inks_of_white};
use crate::percent::{bytes_text, is_kept, percent_encoded};
use crate::text::{
    but, index_from, ink, is_white_space, lemma_index_from, lemma_skip, lemma_skip_back, lines,
    lines_from, lower, number, occurs_at, occurs_in, only, pieces, pieces_from, replaced,
    replaced_from, skip, skip_back, trimmed, upper, white, words, words_from,
};
use crate::utils::{
    attribute_decoded, char_text, digits, escaped, is_forbidden, law_escaped_is_safe,
    media_extension, reference_digits, reference_end, references_decoded, references_decoded_from,
    sanitized, squeezed, stripped, tag_end, text_decoded, underscored, untagged_from, MAX_FILE_NAME,
};

verus! {

// ── Pieces, words and lines ────────────────────────────────────────

/// Texts with a character behind each of them, one behind the other.
pub open spec fn ended(v: Seq<Seq<char>>, x: char) -> Seq<char>
    decreases v.len(),
{
    if v.len() == 0 {
        Seq::empty()
    } else {
        v[0].push(x) + ended(v.drop_first(), x)
    }
}

proof fn lemma_pieces(t: Seq<char>, x: char, i: int)
    requires
        0 <= i <= t.len(),
    ensures
        ended(pieces_from(t, x, i), x) == t.skip(i).push(x),
        forall|k: int|
            0 <= k < pieces_from(t, x, i).len() ==> !(#[trigger] pieces_from(
                t,
                x,
                i,
            )[k]).contains(x),
    decreases t.len() - i,
{
    let j = skip(t, but(x), i);
    let v = pieces_from(t, x, i);
    lemma_skip(t, but(x), i);
    let first = t.subrange(i, j);
    assert(!first.contains(x)) by {
        if first.contains(x) {
            let k = choose|k: int| 0 <= k < first.len() && first[k] == x;
            assert(but(x)(t[i + k]));
        }
    }
    if j >= t.len() {
        assert(v =~= seq![first]);
        assert(v.drop_first() =~= Seq::empty());
        assert(ended(v.drop_first(), x) =~= Seq::empty());
        assert(ended(v, x) =~= t.skip(i).push(x));
    } else {
        lemma_pieces(t, x, j + 1);
        let rest = pieces_from(t, x, j + 1);
        assert(v =~= seq![first] + rest);
        assert(v.drop_first() =~= rest);
        assert(!but(x)(t[j]));
        assert(ended(v, x) =~= t.skip(i).push(x));
        assert forall|k: int| 0 <= k < v.len() implies !(#[trigger] v[k]).contains(x) by {
            if k > 0 {
                assert(v[k] == rest[k - 1]);
            }
        }
    }
}

/// The pieces of a text hold no separator; with the separators behind them
/// they are the text again.
pub proof fn law_pieces_join_back(t: Seq<char>, x: char)
    ensures
        ended(pieces(t, x), x) == t.push(x),
        forall|k: int|
            0 <= k < pieces(t, x).len() ==> !(#[trigger] pieces(t, x)[k]).contains(x),
{
    lemma_pieces(t, x, 0);
    assert(t.skip(0) =~= t);
}

proof fn lemma_lines(t: Seq<char>, i: int)
    requires
        0 <= i <= t.len(),
        !t.contains('\r'),
    ensures
        ended(lines_from(t, i), '\n') == (if i == t.len() || t.last() == '\n' {
            t.skip(i)
        } else {
            t.skip(i).push('\n')
        }),
        forall|k: int|
            0 <= k < lines_from(t, i).len() ==> !(#[trigger] lines_from(t, i)[k]).contains('\n'),
    decreases t.len() - i,
{
    let j = skip(t, but('\n'), i);
    let v = lines_from(t, i);
    lemma_skip(t, but('\n'), i);
    if i == t.len() {
        assert(v =~= Seq::empty());
        assert(t.skip(i) =~= Seq::empty());
    } else {
        let first = t.subrange(i, j);
        assert(!first.contains('\n')) by {
            if first.contains('\n') {
                let k = choose|k: int| 0 <= k < first.len() && first[k] == '\n';
                assert(but('\n')(t[i + k]));
            }
        }
        if j >= t.len() {
            assert(v =~= seq![first]);
            assert(v.drop_first() =~= Seq::empty());
            assert(ended(v.drop_first(), '\n') =~= Seq::empty());
            assert(but('\n')(t[t.len() - 1]));
            assert(ended(v, '\n') =~= t.skip(i).push('\n'));
        } else {
            lemma_lines(t, j + 1);
            let rest = lines_from(t, j + 1);
            if i < j {
                assert(t.contains(t[j - 1]));
            }
            assert(v =~= seq![first] + rest);
            assert(v.drop_first() =~= rest);
            assert(!but('\n')(t[j]));
            if j + 1 == t.len() {
                assert(ended(rest, '\n') =~= Seq::empty());
                assert(ended(v, '\n') =~= t.skip(i));
            } else {
                assert(ended(v, '\n') =~= first.push('\n') + ended(rest, '\n'));
                if t.last() == '\n' {
                    assert(ended(v, '\n') =~= t.skip(i));
                } else {
                    assert(ended(v, '\n') =~= t.skip(i).push('\n'));
                }
            }
            assert forall|k: int| 0 <= k < v.len() implies !(#[trigger] v[k]).contains('\n') by {
                if k > 0 {
                    assert(v[k] == rest[k - 1]);
                }
            }
        }
    }
}

/// The lines of a text hold no line feed; with the line feeds behind them they
/// are the text again.
pub proof fn law_lines_join_back(t: Seq<char>)
    requires
        !t.contains('\r'),
    ensures
        ended(lines(t), '\n') == (if t.len() == 0 || t.last() == '\n' {
            t
        } else {
            t.push('\n')
        }),
        forall|k: int| 0 <= k < lines(t).len() ==> !(#[trigger] lines(t)[k]).contains('\n'),
{
    lemma_lines(t, 0);
    assert(t.skip(0) =~= t);
}

/// Texts one behind the other.
pub open spec fn strung(v: Seq<Seq<char>>) -> Seq<char>
    decreases v.len(),
{
    if v.len() == 0 {
        Seq::empty()
    } else {
        v[0] + strung(v.drop_first())
    }
}

pub proof fn lemma_inks_of_ink(t: Seq<char>)
    requires
        forall|i: int| 0 <= i < t.len() ==> !is_white_space(#[trigger] t[i]),
    ensures
        inks(t) == t,
    decreases t.len(),
{
    if t.len() > 0 {
        assert(!is_white_space(t[t.len() - 1]));
        assert forall|i: int| 0 <= i < t.drop_last().len() implies !is_white_space(
            #[trigger] t.drop_last()[i],
        ) by {
            assert(t.drop_last()[i] == t[i]);
        }
        lemma_inks_of_ink(t.drop_last());
        assert(t.drop_last().push(t.last()) =~= t);
    }
}

proof fn lemma_words(t: Seq<char>, i: int)
    requires
        0 <= i <= t.len(),
    ensures
        strung(words_from(t, i)) == inks(t.skip(i)),
        forall|k: int|
            0 <= k < words_from(t, i).len() ==> (#[trigger] words_from(t, i)[k]).len() > 0,
    decreases t.len() - i,
{
    let a = skip(t, white(), i);
    let b = skip(t, ink(), a);
    let v = words_from(t, i);
    lemma_skip(t, white(), i);
    lemma_skip(t, ink(), a);
    let blank = t.subrange(i, a);
    assert forall|k: int| 0 <= k < blank.len() implies is_white_space(#[trigger] blank[k]) by {
        assert(white()(t[i + k]));
    }
    lemma_inks_of_white(blank);
    if a >= t.len() {
        assert(t.skip(i) =~= blank);
        assert(v =~= Seq::empty());
    } else {
        assert(!white()(t[a]));
        assert(b > a) by {
            if b == a {
                assert(!ink()(t[a]));
            }
        }
        lemma_words(t, b);
        let word = t.subrange(a, b);
        let rest = words_from(t, b);
        assert forall|k: int| 0 <= k < word.len() implies !is_white_space(#[trigger] word[k]) by {
            assert(ink()(t[a + k]));
        }
        lemma_inks_of_ink(word);
        assert(t.skip(i) =~= blank + word + t.skip(b));
        lemma_inks_joined(blank + word, t.skip(b));
        lemma_inks_joined(blank, word);
        assert(v =~= seq![word] + rest);
        assert(v.drop_first() =~= rest);
        assert(strung(v) =~= inks(t.skip(i)));
        assert forall|k: int| 0 <= k < v.len() implies (#[trigger] v[k]).len() > 0 by {
            if k > 0 {
                assert(v[k] == rest[k - 1]);
            }
        }
    }
}

/// The words of a text, one behind the other, are the text without its white
/// space; none of them is empty.
pub proof fn law_words_hold_the_ink(t: Seq<char>)
    ensures
        strung(words(t)) == inks(t),
        forall|k: int| 0 <= k < words(t).len() ==> (#[trigger] words(t)[k]).len() > 0,
{
    lemma_words(t, 0);
    assert(t.skip(0) =~= t);
}

/// Trimming drops the characters around a text that belong to the class, and
/// no other.
pub proof fn law_trimming_drops_the_margins(
    a: Seq<char>,
    t: Seq<char>,
    b: Seq<char>,
    class: spec_fn(char) -> bool,
)
    requires
        forall|i: int| 0 <= i < a.len() ==> class(#[trigger] a[i]),
        forall|i: int| 0 <= i < b.len() ==> class(#[trigger] b[i]),
        t.len() > 0,
        !class(t[0]),
        !class(t.last()),
    ensures
        trimmed(a + t + b, class) == t,
{
    let whole = a + t + b;
    let n = whole.len() as int;
    lemma_skip(whole, class, 0);
    lemma_skip_back(whole, class, n);
    let from = skip(whole, class, 0);
    let to = skip_back(whole, class, n);
    assert(whole[a.len() as int] == t[0]);
    assert(whole[a.len() + t.len() - 1] == t.last());
    if from < a.len() {
        assert(whole[from] == a[from]);
    }
    if to > a.len() + t.len() {
        assert(whole[to - 1] == b[to - 1 - a.len() - t.len()]);
    }
    assert(from == a.len());
    assert(to == a.len() + t.len());
    assert(whole.subrange(from, to) =~= t);
}

// ── Tags ───────────────────────────────────────────────────────────

proof fn lemma_skip_shift(t: Seq<char>, class: spec_fn(char) -> bool, k: int, i: int)
    requires
        0 <= k <= i <= t.len(),
    ensures
        skip(t, class, i) == skip(t.skip(k), class, i - k) + k,
    decreases t.len() - i,
{
    if i < t.len() {
        assert(t.skip(k)[i - k] == t[i]);
        lemma_skip_shift(t, class, k, i + 1);
    }
}

proof fn lemma_untagged_shift(t: Seq<char>, k: int, i: int)
    requires
        0 <= k <= i <= t.len(),
    ensures
        untagged_from(t, i) == untagged_from(t.skip(k), i - k),
    decreases t.len() - i,
{
    if i < t.len() {
        assert(t.skip(k)[i - k] == t[i]);
        lemma_skip_shift(t, but('>'), k, i + 1);
        lemma_skip(t, but('>'), i + 1);
        match tag_end(t, i) {
            Some(j) => {
                lemma_untagged_shift(t, k, j);
            },
            None => {
                lemma_untagged_shift(t, k, i + 1);
            },
        }
    }
}

/// A text without tags before its first tag, the tag, and what follows: the
/// tag goes, what stands before it stays, and what follows is freed of its
/// tags by itself.
pub proof fn law_tags_go_and_text_stays(a: Seq<char>, tag: Seq<char>, b: Seq<char>)
    requires
        !a.contains('<'),
        tag.len() > 0,
        !tag.contains('>'),
    ensures
        untagged_from(a + "<"@ + tag + ">"@ + b, 0) == a + untagged_from(b, 0),
        untagged_from(a, 0) == a,
{
    reveal_strlit("<");
    reveal_strlit(">");
    let t = a + "<"@ + tag + ">"@ + b;
    let n = a.len() as int;
    assert forall|i: int| 0 <= i < n implies #[trigger] t[i] != '<' by {
        assert(a.contains(a[i]));
    }
    lemma_untagged_text(t, n, 0);
    assert(t[n] == '<');
    let j = n + 1 + tag.len();
    assert(t[j] == '>');
    lemma_skip(t, but('>'), n + 1);
    let found = skip(t, but('>'), n + 1);
    assert(but('>')(t[n + 1])) by {
        assert(t[n + 1] == tag[0]);
        assert(tag.contains(tag[0]));
    }
    assert(found <= j) by {
        if found > j {
            assert(but('>')(t[j]));
        }
    }
    assert(found == j) by {
        if found < j {
            assert(t[found] == tag[found - n - 1]);
            assert(tag.contains(tag[found - n - 1]));
            assert(!but('>')(t[found]));
        }
    }
    assert(tag_end(t, n) == Some(j + 1));
    lemma_untagged_shift(t, j + 1, j + 1);
    assert(t.skip(j + 1) =~= b);
    assert(t.take(n) =~= a);
    assert(untagged_from(t, 0) =~= a + untagged_from(b, 0));
    assert forall|i: int| 0 <= i < a.len() implies #[trigger] a[i] != '<' by {
        assert(a.contains(a[i]));
    }
    lemma_untagged_text(a, n, 0);
    assert(a.subrange(0, n) + untagged_from(a, n) =~= a);
}

proof fn lemma_untagged_text(t: Seq<char>, n: int, i: int)
    requires
        0 <= i <= n <= t.len(),
        forall|k: int| 0 <= k < n ==> #[trigger] t[k] != '<',
    ensures
        untagged_from(t, i) == t.subrange(i, n) + untagged_from(t, n),
    decreases n - i,
{
    if i < n {
        lemma_untagged_text(t, n, i + 1);
        assert(t[i] != '<');
        assert(seq![t[i]] + (t.subrange(i + 1, n) + untagged_from(t, n)) =~= t.subrange(i, n)
            + untagged_from(t, n));
    } else {
        assert(t.subrange(i, n) + untagged_from(t, n) =~= untagged_from(t, n));
    }
}

// ── Character references ───────────────────────────────────────────

proof fn lemma_reference_shift(t: Seq<char>, base: nat, k: int, i: int)
    requires
        0 <= k <= i < t.len(),
    ensures
        reference_digits(t, base, i) == match reference_digits(t.skip(k), base, i - k) {
            Some(a) => Some(a + k),
            None => None,
        },
        reference_end(t, base, i) == match reference_end(t.skip(k), base, i - k) {
            Some(b) => Some(b + k),
            None => None,
        },
        reference_end(t, base, i) matches Some(b) ==> i < b < t.len() && i + 2
            <= reference_digits(t, base, i)->0 < b,
{
    let u = t.skip(k);
    assert(u[i - k] == t[i]);
    if i + 1 < t.len() {
        assert(u[i + 1 - k] == t[i + 1]);
    }
    if i + 2 < t.len() {
        assert(u[i + 2 - k] == t[i + 2]);
    }
    if let Some(a) = reference_digits(t, base, i) {
        if a <= t.len() {
            lemma_skip_shift(t, digits(base), k, a);
            lemma_skip(t, digits(base), a);
            let b = skip(t, digits(base), a);
            if b < t.len() {
                assert(u[b - k] == t[b]);
            }
        }
    }
}

proof fn lemma_references_shift(t: Seq<char>, base: nat, k: int, i: int)
    requires
        0 <= k <= i <= t.len(),
    ensures
        references_decoded_from(t, base, i) == references_decoded_from(t.skip(k), base, i - k),
    decreases t.len() - i,
{
    if i < t.len() {
        let u = t.skip(k);
        assert(u[i - k] == t[i]);
        lemma_reference_shift(t, base, k, i);
        match reference_end(t, base, i) {
            Some(b) => {
                let a = reference_digits(t, base, i)->0;
                assert(t.subrange(a, b) =~= u.subrange(a - k, b - k));
                lemma_references_shift(t, base, k, b + 1);
            },
            None => {
                lemma_references_shift(t, base, k, i + 1);
            },
        }
    }
}

proof fn lemma_no_references(t: Seq<char>, base: nat, n: int, i: int)
    requires
        0 <= i <= n <= t.len(),
        forall|k: int| 0 <= k < n ==> #[trigger] t[k] != '&',
    ensures
        references_decoded_from(t, base, i) == t.subrange(i, n) + references_decoded_from(
            t,
            base,
            n,
        ),
    decreases n - i,
{
    if i < n {
        lemma_no_references(t, base, n, i + 1);
        assert(t[i] != '&');
        assert(seq![t[i]] + (t.subrange(i + 1, n) + references_decoded_from(t, base, n))
            =~= t.subrange(i, n) + references_decoded_from(t, base, n));
    } else {
        assert(t.subrange(i, n) + references_decoded_from(t, base, n) =~= references_decoded_from(
            t,
            base,
            n,
        ));
    }
}

/// The start of a numeric character reference.
pub open spec fn reference_start(base: nat) -> Seq<char> {
    if base == 16 {
        "&#x"@
    } else {
        "&#"@
    }
}

/// A numeric character reference reads as the character of its number,
/// wherever it stands; what follows is read by itself. A number that stands
/// for no character reads as nothing.
pub proof fn law_reference_reads_as_its_character(
    a: Seq<char>,
    number_text: Seq<char>,
    b: Seq<char>,
    base: nat,
)
    requires
        !a.contains('&'),
        number_text.len() > 0,
        forall|i: int| 0 <= i < number_text.len() ==> digits(base)(#[trigger] number_text[i]),
        !digits(base)(';'),
    ensures
        references_decoded(a + reference_start(base) + number_text + ";"@ + b, base) == a + (
        match number(number_text, base) {
            Some(v) if v < 0xD800 || 0xE000 <= v <= 0x10FFFF => seq![v as char],
            _ => Seq::empty(),
        }) + references_decoded(b, base),
{
    reveal_strlit("&#x");
    reveal_strlit("&#");
    reveal_strlit(";");
    let start = reference_start(base);
    let t = a + start + number_text + ";"@ + b;
    let n = a.len() as int;
    let from = n + start.len();
    let to = from + number_text.len();
    assert forall|k: int| 0 <= k < n implies #[trigger] t[k] != '&' by {
        assert(a.contains(a[k]));
    }
    lemma_no_references(t, base, n, 0);
    assert(t[n] == '&' && t[n + 1] == '#');
    if base == 16 {
        assert(t[n + 2] == 'x');
    }
    assert(reference_digits(t, base, n) == Some(from));
    lemma_skip(t, digits(base), from);
    assert(t[to] == ';');
    let found = skip(t, digits(base), from);
    assert(found <= to) by {
        if found > to {
            assert(digits(base)(t[to]));
        }
    }
    assert(found == to) by {
        if found < to {
            assert(t[found] == number_text[found - from]);
        }
    }
    assert(reference_end(t, base, n) == Some(to));
    assert(t.subrange(from, to) =~= number_text);
    lemma_references_shift(t, base, to + 1, to + 1);
    assert(t.skip(to + 1) =~= b);
    assert(t.subrange(0, n) =~= a);
    let shown = char_text(number(number_text, base));
    assert(references_decoded(t, base) =~= a + shown + references_decoded(b, base));
}

// ── File names ─────────────────────────────────────────────────────

/// The characters of a text that can stand in a file name.
pub open spec fn name_chars(t: Seq<char>) -> Seq<char>
    decreases t.len(),
{
    if t.len() == 0 {
        t
    } else if is_forbidden(t.last()) || is_white_space(t.last()) || t.last() == '_' {
        name_chars(t.drop_last())
    } else {
        name_chars(t.drop_last()).push(t.last())
    }
}

proof fn lemma_name_chars_joined(a: Seq<char>, b: Seq<char>)
    ensures
        name_chars(a + b) == name_chars(a) + name_chars(b),
    decreases b.len(),
{
    if b.len() == 0 {
        assert(a + b =~= a);
        assert(name_chars(a) + name_chars(b) =~= name_chars(a));
    } else {
        lemma_name_chars_joined(a, b.drop_last());
        assert((a + b).drop_last() =~= a + b.drop_last());
        assert(name_chars(a + b) =~= name_chars(a) + name_chars(b));
    }
}

proof fn lemma_name_chars_underscored(t: Seq<char>)
    ensures
        name_chars(underscored(t)) == name_chars(t),
    decreases t.len(),
{
    if t.len() > 0 {
        lemma_name_chars_underscored(t.drop_last());
        assert(underscored(t).drop_last() =~= underscored(t.drop_last()));
        assert(underscored(t).last() == t.last() || underscored(t).last() == '_');
    } else {
        assert(underscored(t) =~= t);
    }
}

proof fn lemma_name_chars_squeezed(t: Seq<char>)
    ensures
        name_chars(squeezed(t)) == name_chars(t),
        squeezed(t).len() <= t.len(),
    decreases t.len(),
{
    if t.len() > 0 {
        lemma_name_chars_squeezed(t.drop_last());
        let rest = squeezed(t.drop_last());
        assert(rest.push(t.last()).drop_last() =~= rest);
    }
}

proof fn lemma_name_chars_of_lines(t: Seq<char>)
    requires
        forall|i: int| 0 <= i < t.len() ==> #[trigger] t[i] == '_',
    ensures
        name_chars(t) == Seq::<char>::empty(),
    decreases t.len(),
{
    if t.len() > 0 {
        assert(t[t.len() - 1] == '_');
        assert forall|i: int| 0 <= i < t.drop_last().len() implies #[trigger] t.drop_last()[i]
            == '_' by {
            assert(t.drop_last()[i] == t[i]);
        }
        lemma_name_chars_of_lines(t.drop_last());
    } else {
        assert(t =~= Seq::empty());
    }
}

proof fn lemma_name_chars_trimmed(t: Seq<char>)
    ensures
        name_chars(trimmed(t, only('_'))) == name_chars(t),
        trimmed(t, only('_')).len() <= t.len(),
{
    let n = t.len() as int;
    let a = skip(t, only('_'), 0);
    let b = skip_back(t, only('_'), n);
    lemma_skip(t, only('_'), 0);
    lemma_skip_back(t, only('_'), n);
    if a < b {
        let head = t.take(a);
        let mid = t.subrange(a, b);
        let tail = t.skip(b);
        assert(t =~= head + mid + tail);
        lemma_name_chars_joined(head + mid, tail);
        lemma_name_chars_joined(head, mid);
        assert forall|i: int| 0 <= i < head.len() implies #[trigger] head[i] == '_' by {
            assert(only('_')(t[i]));
        }
        assert forall|i: int| 0 <= i < tail.len() implies #[trigger] tail[i] == '_' by {
            assert(only('_')(t[b + i]));
        }
        lemma_name_chars_of_lines(head);
        lemma_name_chars_of_lines(tail);
        assert(name_chars(head) + name_chars(mid) + name_chars(tail) =~= name_chars(mid));
    } else {
        assert forall|i: int| 0 <= i < t.len() implies #[trigger] t[i] == '_' by {
            assert(only('_')(t[i]));
        }
        lemma_name_chars_of_lines(t);
        lemma_name_chars_of_lines(Seq::empty());
    }
}

/// A name that is not too long keeps every character that can stand in a file
/// name, in order; a longer one keeps them from the front. A name without any
/// becomes `file`.
pub proof fn law_sanitizing_keeps_the_name(t: Seq<char>)
    ensures
        name_chars(t).len() > 0 && t.len() <= MAX_FILE_NAME ==> name_chars(sanitized(t))
            == name_chars(t),
        name_chars(t).len() > 0 ==> exists|cut: Seq<char>|
            name_chars(t) == #[trigger] (name_chars(sanitized(t)) + cut),
        name_chars(t).len() == 0 ==> sanitized(t) == "file"@,
{
    let q = squeezed(underscored(t));
    let s = trimmed(q, only('_'));
    lemma_name_chars_underscored(t);
    lemma_name_chars_squeezed(underscored(t));
    lemma_name_chars_trimmed(q);
    if name_chars(t).len() > 0 {
        assert(s.len() > 0) by {
            if s.len() == 0 {
                assert(name_chars(s).len() == 0);
            }
        }
        if s.len() <= MAX_FILE_NAME {
            let none = Seq::<char>::empty();
            assert(name_chars(sanitized(t)) + none =~= name_chars(t));
        } else {
            let cut = s.skip(MAX_FILE_NAME as int);
            assert(s =~= s.take(MAX_FILE_NAME as int) + cut);
            lemma_name_chars_joined(s.take(MAX_FILE_NAME as int), cut);
            assert(name_chars(t) == name_chars(sanitized(t)) + name_chars(cut));
        }
    } else {
        lemma_squeezed_safe(underscored(t));
        lemma_trimmed_is_named(q);
    }
}

proof fn lemma_squeezed_safe(t: Seq<char>)
    requires
        forall|i: int|
            0 <= i < t.len() ==> !is_forbidden(#[trigger] t[i]) && !is_white_space(t[i]),
    ensures
        forall|i: int|
            0 <= i < squeezed(t).len() ==> !is_forbidden(#[trigger] squeezed(t)[i])
                && !is_white_space(squeezed(t)[i]),
    decreases t.len(),
{
    if t.len() > 0 {
        let rest = t.drop_last();
        assert forall|i: int| 0 <= i < rest.len() implies !is_forbidden(#[trigger] rest[i])
            && !is_white_space(rest[i]) by {
            assert(rest[i] == t[i]);
        }
        lemma_squeezed_safe(rest);
        assert(!is_forbidden(t[t.len() - 1]));
        let before = squeezed(rest);
        let after = squeezed(t);
        assert forall|i: int| 0 <= i < after.len() implies !is_forbidden(#[trigger] after[i])
            && !is_white_space(after[i]) by {
            if i < before.len() {
                assert(after[i] == before[i]);
            }
        }
    }
}

/// A trimmed text that is not empty begins with a character of a name, unless
/// it holds what cannot stand in one.
proof fn lemma_trimmed_is_named(q: Seq<char>)
    requires
        name_chars(q).len() == 0,
        forall|i: int|
            0 <= i < q.len() ==> !is_forbidden(#[trigger] q[i]) && !is_white_space(q[i]),
    ensures
        trimmed(q, only('_')).len() == 0,
{
    lemma_skip(q, only('_'), 0);
    let a = skip(q, only('_'), 0);
    if a < q.len() {
        assert(!only('_')(q[a]));
        let head = q.take(a + 1);
        assert(q =~= head + q.skip(a + 1));
        lemma_name_chars_joined(head, q.skip(a + 1));
        assert(head.last() == q[a]);
        assert(name_chars(head).len() > 0);
    }
    lemma_skip_back(q, only('_'), q.len() as int);
}

// ── Media types ────────────────────────────────────────────────────

/// An image type whose name is its extension has that extension.
pub proof fn law_extension_is_the_subtype(subtype: Seq<char>)
    requires
        subtype == "png"@ || subtype == "gif"@ || subtype == "webp"@ || subtype == "bmp"@,
    ensures
        media_extension("image/"@ + subtype) == "."@ + subtype,
{
    reveal_strlit("image/");
    reveal_strlit(".");
    reveal_strlit("png");
    reveal_strlit("gif");
    reveal_strlit("webp");
    reveal_strlit("bmp");
    reveal_strlit("image/png");
    reveal_strlit("image/jpeg");
    reveal_strlit("image/gif");
    reveal_strlit("image/webp");
    reveal_strlit("image/svg+xml");
    reveal_strlit("image/bmp");
    reveal_strlit(".png");
    reveal_strlit(".gif");
    reveal_strlit(".webp");
    reveal_strlit(".bmp");
    let media = "image/"@ + subtype;
    assert(media[6] == subtype[0]);
    assert(subtype == "png"@ ==> media =~= "image/png"@ && "."@ + subtype =~= ".png"@);
    assert(subtype == "gif"@ ==> media =~= "image/gif"@ && "."@ + subtype =~= ".gif"@);
    assert(subtype == "webp"@ ==> media =~= "image/webp"@ && "."@ + subtype =~= ".webp"@);
    assert(subtype == "bmp"@ ==> media =~= "image/bmp"@ && "."@ + subtype =~= ".bmp"@);
    assert("image/png"@[6] == 'p' && "image/jpeg"@[6] == 'j' && "image/gif"@[6] == 'g'
        && "image/webp"@[6] == 'w' && "image/svg+xml"@[6] == 's');
}

// ── Percent-encoding ───────────────────────────────────────────────

proof fn lemma_kept_bytes(t: Seq<char>, bytes: Seq<u8>, marks: Seq<char>)
    requires
        bytes.len() == t.len(),
        forall|i: int|
            0 <= i < t.len() ==> (#[trigger] bytes[i]) as char == t[i] && is_kept(bytes[i], marks),
    ensures
        bytes_text(bytes, marks) == t,
    decreases t.len(),
{
    if t.len() > 0 {
        let rest = bytes.drop_first();
        let tail = t.drop_first();
        assert forall|i: int| 0 <= i < tail.len() implies (#[trigger] rest[i]) as char == tail[i]
            && is_kept(rest[i], marks) by {
            assert(rest[i] == bytes[i + 1]);
        }
        lemma_kept_bytes(tail, rest, marks);
        assert(bytes[0] as char == t[0]);
        assert(bytes_text(bytes, marks) =~= t);
    } else {
        assert(bytes_text(bytes, marks) =~= t);
    }
}

/// A text of ASCII letters, digits and marks is not changed by encoding.
pub proof fn law_percent_encoding_keeps_plain_text(t: Seq<char>, marks: Seq<char>)
    requires
        is_ascii_chars(t),
        forall|i: int|
            0 <= i < t.len() ==> '0' <= (#[trigger] t[i]) <= '9' || 'A' <= t[i] <= 'Z' || 'a' <= t[i]
                <= 'z' || marks.contains(t[i]),
    ensures
        percent_encoded(t, marks) == t,
{
    is_ascii_chars_encode_utf8(t);
    let bytes = encode_utf8(t);
    assert forall|i: int| 0 <= i < t.len() implies (#[trigger] bytes[i]) as char == t[i] && is_kept(
        bytes[i],
        marks,
    ) by {
        assert(t[i] as u8 == bytes[i]);
    }
    lemma_kept_bytes(t, bytes, marks);
}

// ── Plain text of HTML ─────────────────────────────────────────────

/// The plain text of escaped text is the text, without the white space around
/// it.
pub proof fn law_plain_text_of_escaped_text(t: Seq<char>)
    requires
        !t.contains('&'),
    ensures
        stripped(escaped(t)) == trimmed(t, white()),
{
    reveal_strlit("&quot;");
    reveal_strlit("&#39;");
    reveal_strlit("&lt;");
    reveal_strlit("&gt;");
    lemma_no_ampersand(t, "&quot;"@);
    lemma_no_ampersand(t, "&#39;"@);
    lemma_no_ampersand(t, "&lt;"@);
    lemma_no_ampersand(t, "&gt;"@);
    law_decoding_undoes_escaping(t);
    let e = escaped(t);
    assert forall|i: int| 0 <= i < e.len() implies #[trigger] e[i] != '<' by {
        law_escaped_is_safe(t, i);
    }
    lemma_untagged_text(e, e.len() as int, 0);
    assert(e.subrange(0, e.len() as int) + untagged_from(e, e.len() as int) =~= e);
    assert forall|i: int| 0 <= i < t.len() implies #[trigger] t[i] != '&' by {
        assert(t.contains(t[i]));
    }
    lemma_no_references(t, 16, t.len() as int, 0);
    lemma_no_references(t, 10, t.len() as int, 0);
    assert(t.subrange(0, t.len() as int) + references_decoded_from(t, 16, t.len() as int) =~= t);
    assert(t.subrange(0, t.len() as int) + references_decoded_from(t, 10, t.len() as int) =~= t);
}

proof fn lemma_no_ampersand(t: Seq<char>, p: Seq<char>)
    requires
        !t.contains('&'),
        p.len() > 0,
        p[0] == '&',
    ensures
        !occurs_in(t, p),
{
    lemma_index_from(t, p, 0);
    if let Some(i) = index_from(t, p, 0) {
        assert(t.subrange(i, i + p.len())[0] == '&');
        assert(t.contains(t[i]));
    }
}

/// Text content is decoded of every kind of reference: the named ones, those
/// of base sixteen, and those of base ten. Each shows where the others change
/// nothing.
pub proof fn law_each_kind_of_reference_is_decoded(t: Seq<char>)
    ensures
        ({
            let r = attribute_decoded(t);
            references_decoded(r, 16) == r && references_decoded(r, 10) == r ==> text_decoded(t)
                == r
        }),
        ({
            let r = references_decoded(t, 16);
            attribute_decoded(t) == t && references_decoded(r, 10) == r ==> text_decoded(t) == r
        }),
        attribute_decoded(t) == t && references_decoded(t, 16) == t ==> text_decoded(t)
            == references_decoded(t, 10),
{
}

// ── Replacing ──────────────────────────────────────────────────────

proof fn lemma_replaced_shift(t: Seq<char>, p: Seq<char>, q: Seq<char>, k: int, i: int)
    requires
        0 <= k <= i,
        k <= t.len(),
    ensures
        replaced_from(t, p, q, i) == replaced_from(t.skip(k), p, q, i - k),
    decreases t.len() - i,
{
    if i < t.len() {
        let rest = t.skip(k);
        if p.len() > 0 && i + p.len() <= t.len() {
            assert(t.subrange(i, i + p.len()) =~= rest.subrange(i - k, i - k + p.len()));
        }
        if p.len() > 0 && occurs_at(t, p, i) {
            lemma_replaced_shift(t, p, q, k, i + p.len());
        } else {
            lemma_replaced_shift(t, p, q, k, i + 1);
        }
    }
}

proof fn lemma_replaced_up_to(t: Seq<char>, p: Seq<char>, q: Seq<char>, i: int, n: int)
    requires
        0 <= i <= n <= t.len(),
        forall|j: int| i <= j < n ==> !occurs_at(t, p, j),
    ensures
        replaced_from(t, p, q, i) == t.subrange(i, n) + replaced_from(t, p, q, n),
    decreases n - i,
{
    if i < n {
        lemma_replaced_up_to(t, p, q, i + 1, n);
        assert(replaced_from(t, p, q, i) =~= t.subrange(i, n) + replaced_from(t, p, q, n));
    } else {
        assert(replaced_from(t, p, q, i) =~= t.subrange(i, n) + replaced_from(t, p, q, n));
    }
}

/// What stands in front of the first occurrence of a text stays, the
/// occurrence is replaced, and the rest is treated in the same way; a text in
/// which it does not occur stays.
pub proof fn law_every_occurrence_is_replaced(t: Seq<char>, p: Seq<char>, q: Seq<char>)
    requires
        p.len() > 0,
    ensures
        match index_from(t, p, 0) {
            Some(i) => replaced(t, p, q) == t.take(i) + q + replaced(t.skip(i + p.len()), p, q),
            None => replaced(t, p, q) == t,
        },
{
    lemma_index_from(t, p, 0);
    match index_from(t, p, 0) {
        Some(i) => {
            lemma_replaced_up_to(t, p, q, 0, i);
            lemma_replaced_shift(t, p, q, i + p.len(), i + p.len());
            assert(t.subrange(0, i) =~= t.take(i));
            assert(t.take(i) + (q + replaced(t.skip(i + p.len()), p, q)) =~= t.take(i) + q
                + replaced(t.skip(i + p.len()), p, q));
        },
        None => {
            lemma_replaced_up_to(t, p, q, 0, t.len() as int);
            assert(t.subrange(0, t.len() as int) + Seq::<char>::empty() =~= t);
        },
    }
}

proof fn lemma_sign_replaced(t: Seq<char>, a: char, b: char, i: int)
    requires
        0 <= i <= t.len(),
    ensures
        replaced_from(t, seq![a], seq![b], i) == Seq::new(
            (t.len() - i) as nat,
            |k: int|
                if t[i + k] == a {
                    b
                } else {
                    t[i + k]
                },
        ),
    decreases t.len() - i,
{
    if i < t.len() {
        lemma_sign_replaced(t, a, b, i + 1);
        let p = seq![a];
        if t[i] == a {
            assert(t.subrange(i, i + 1) =~= p);
        } else if occurs_at(t, p, i) {
            assert(t.subrange(i, i + 1)[0] == t[i]);
        }
        let rest = replaced_from(t, p, seq![b], i + 1);
        assert forall|k: int| 0 < k < t.len() - i implies #[trigger] replaced_from(
            t,
            p,
            seq![b],
            i,
        )[k] == rest[k - 1] by {}
    }
}

/// A sign that is replaced by another is so wherever it stands, and every
/// other character stays.
pub proof fn law_replacing_a_sign(t: Seq<char>, a: char, b: char)
    ensures
        replaced(t, seq![a], seq![b]) == Seq::new(
            t.len(),
            |k: int|
                if t[k] == a {
                    b
                } else {
                    t[k]
                },
        ),
{
    lemma_sign_replaced(t, a, b, 0);
}

// ── Letter case ────────────────────────────────────────────────────

/// Two texts that differ in the case of their ASCII letters only are the same
/// in lower case, and the same in upper case; every other character stays.
pub proof fn law_case_of_letters(t: Seq<char>)
    ensures
        lower(upper(t)) == lower(t),
        upper(lower(t)) == upper(t),
        lower(lower(t)) == lower(t),
        forall|i: int|
            0 <= i < t.len() ==> if 'A' <= #[trigger] t[i] <= 'Z' {
                lower(t)[i] as int == t[i] as int + ('a' as int - 'A' as int)
            } else {
                lower(t)[i] == t[i]
            },
        forall|i: int|
            0 <= i < t.len() ==> if 'a' <= #[trigger] t[i] <= 'z' {
                upper(t)[i] as int == t[i] as int - ('a' as int - 'A' as int)
            } else {
                upper(t)[i] == t[i]
            },
{
    assert(lower(upper(t)) =~= lower(t));
    assert(upper(lower(t)) =~= upper(t));
    assert(lower(lower(t)) =~= lower(t));
}

} // verus!
