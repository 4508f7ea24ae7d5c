//! Where tags end and elements close.

use vstd::prelude::*;

use crate::jira::{
    lemma_span_close_shift, lemma_unquoted_end_shift, span_close, unquoted_end, SPAN_CLOSE,
    SPAN_OPEN,
};
use crate::macro_laws::{lemma_macro_close_shift, lemma_tag_close_shift};
use crate::macros::{macro_close, tag_close, MACRO_CLOSE, MACRO_OPEN};
use crate::text::{index_from, lemma_index_from, lemma_index_shift, moved, occurs_at};

verus! {

// ── Ends of tags ───────────────────────────────────────────────────

proof fn lemma_unquoted_run(t: Seq<char>, n: int, i: int)
    requires
        0 <= i <= n <= t.len(),
        forall|k: int|
            0 <= k < n ==> #[trigger] t[k] != '>' && t[k] != '"' && t[k] != '\'',
    ensures
        unquoted_end(t, i, None) == unquoted_end(t, n, None),
    decreases n - i,
{
    if i < n {
        lemma_unquoted_run(t, n, i + 1);
    }
}

proof fn lemma_quoted_run(t: Seq<char>, n: int, i: int, quote: char)
    requires
        0 <= i <= n <= t.len(),
        forall|k: int| i <= k < n ==> #[trigger] t[k] != quote,
    ensures
        unquoted_end(t, i, Some(quote)) == unquoted_end(t, n, Some(quote)),
    decreases n - i,
{
    if i < n {
        lemma_quoted_run(t, n, i + 1, quote);
    }
}

/// A tag ends at its first `>`; one inside quotes does not end it, whichever
/// quotes they are.
pub proof fn law_quoted_sign_ends_no_tag(a: Seq<char>, value: Seq<char>, quote: char, b: Seq<char>)
    requires
        forall|k: int|
            0 <= k < a.len() ==> #[trigger] a[k] != '>' && a[k] != '"' && a[k] != '\'',
        quote == '"' || quote == '\'',
        !value.contains(quote),
    ensures
        unquoted_end(a + ">"@ + b, 0, None) == Some(a.len() as int),
        unquoted_end(a + seq![quote] + value + seq![quote] + b, 0, None) == moved(
            unquoted_end(b, 0, None),
            a.len() + value.len() + 2int,
        ),
{
    reveal_strlit(">");
    let n = a.len() as int;
    let t = a + ">"@ + b;
    assert forall|k: int| 0 <= k < n implies #[trigger] t[k] != '>' && t[k] != '"' && t[k]
        != '\'' by {
        assert(t[k] == a[k]);
    }
    lemma_unquoted_run(t, n, 0);
    assert(t[n] == '>');
    let u = a + seq![quote] + value + seq![quote] + b;
    assert forall|k: int| 0 <= k < n implies #[trigger] u[k] != '>' && u[k] != '"' && u[k]
        != '\'' by {
        assert(u[k] == a[k]);
    }
    lemma_unquoted_run(u, n, 0);
    assert(u[n] == quote);
    let close = n + 1 + value.len();
    assert forall|k: int| n + 1 <= k < close implies #[trigger] u[k] != quote by {
        assert(u[k] == value[k - n - 1]);
        assert(value.contains(value[k - n - 1]));
    }
    assert(unquoted_end(u, n, None) == unquoted_end(u, n + 1, Some(quote)));
    lemma_quoted_run(u, close, n + 1, quote);
    assert(u[close] == quote);
    assert(unquoted_end(u, close, Some(quote)) == unquoted_end(u, close + 1, None));
    lemma_unquoted_end_shift(u, close + 1, close + 1, None);
    assert(u.skip(close + 1) =~= b);
}

proof fn lemma_tag_run(t: Seq<char>, n: int, i: int, quoted: bool)
    requires
        0 <= i <= n <= t.len(),
        forall|k: int| i <= k < n ==> #[trigger] t[k] != '"' && (quoted || t[k] != '>'),
    ensures
        tag_close(t, i, quoted) == tag_close(t, n, quoted),
    decreases n - i,
{
    if i < n {
        lemma_tag_run(t, n, i + 1, quoted);
    }
}

/// A macro tag ends at its first `>`; one inside double quotes does not end
/// it.
pub proof fn law_quoted_sign_ends_no_macro_tag(a: Seq<char>, value: Seq<char>, b: Seq<char>)
    requires
        forall|k: int| 0 <= k < a.len() ==> #[trigger] a[k] != '>' && a[k] != '"',
        !value.contains('"'),
    ensures
        tag_close(a + ">"@ + b, 0, false) == Some(a.len() as int),
        tag_close(a + seq!['"'] + value + seq!['"'] + b, 0, false) == moved(
            tag_close(b, 0, false),
            a.len() + value.len() + 2int,
        ),
{
    reveal_strlit(">");
    let n = a.len() as int;
    let t = a + ">"@ + b;
    assert forall|k: int| 0 <= k < n implies #[trigger] t[k] != '>' && t[k] != '"' by {
        assert(t[k] == a[k]);
    }
    lemma_tag_run(t, n, 0, false);
    assert(t[n] == '>');
    let u = a + seq!['"'] + value + seq!['"'] + b;
    assert forall|k: int| 0 <= k < n implies #[trigger] u[k] != '>' && u[k] != '"' by {
        assert(u[k] == a[k]);
    }
    lemma_tag_run(u, n, 0, false);
    assert(u[n] == '"');
    let close = n + 1 + value.len();
    assert forall|k: int| n + 1 <= k < close implies #[trigger] u[k] != '"' by {
        assert(u[k] == value[k - n - 1]);
        assert(value.contains(value[k - n - 1]));
    }
    assert(tag_close(u, n, false) == tag_close(u, n + 1, true));
    lemma_tag_run(u, close, n + 1, true);
    assert(u[close] == '"');
    assert(tag_close(u, close, true) == tag_close(u, close + 1, false));
    lemma_tag_close_shift(u, close + 1, close + 1, false);
    assert(u.skip(close + 1) =~= b);
}

// ── Elements ───────────────────────────────────────────────────────

/// Whether no tag of a kind begins before a position.
pub open spec fn none_before(t: Seq<char>, open: Seq<char>, close: Seq<char>, n: int) -> bool {
    forall|i: int|
        #![trigger occurs_at(t, open, i)]
        #![trigger occurs_at(t, close, i)]
        0 <= i < n ==> !occurs_at(t, open, i) && !occurs_at(t, close, i)
}

proof fn lemma_first_at(t: Seq<char>, p: Seq<char>, n: int)
    requires
        0 <= n,
        occurs_at(t, p, n),
        forall|i: int| 0 <= i < n ==> !#[trigger] occurs_at(t, p, i),
    ensures
        index_from(t, p, 0) == Some(n),
{
    lemma_index_from(t, p, 0);
}

/// The closing tag of a span closes the innermost span that is open: the
/// outermost, where there is one only, and else the search goes on behind it
/// with one span less.
pub proof fn law_closing_tag_closes_one_span(a: Seq<char>, b: Seq<char>, depth: int)
    requires
        depth >= 1,
        none_before(a + "</span>"@ + b, "<span"@, "</span>"@, a.len() as int),
    ensures
        span_close(a + "</span>"@ + b, 0, depth) == if depth == 1 {
            Some(a.len() + 7int)
        } else {
            moved(span_close(b, 0, depth - 1), a.len() + 7int)
        },
{
    reveal_strlit("</span>");
    reveal_strlit("<span");
    let t = a + "</span>"@ + b;
    let n = a.len() as int;
    assert(t.subrange(n, n + 7) =~= "</span>"@);
    assert(occurs_at(t, "</span>"@, n));
    lemma_first_at(t, SPAN_CLOSE@, n);
    lemma_index_from(t, SPAN_OPEN@, 0);
    if let Some(o) = index_from(t, SPAN_OPEN@, 0) {
        assert(o >= n);
    }
    lemma_span_close_shift(t, n + 7, n + 7, depth - 1);
    assert(t.skip(n + 7) =~= b);
}

/// The opening tag of a span opens one span more, unless it closes itself.
pub proof fn law_opening_tag_opens_one_span(
    a: Seq<char>,
    tag: Seq<char>,
    b: Seq<char>,
    depth: int,
)
    requires
        depth >= 1,
        none_before(
            a + "<span"@ + tag + ">"@ + b,
            "<span"@,
            "</span>"@,
            a.len() as int,
        ),
        forall|k: int|
            0 <= k < tag.len() ==> #[trigger] tag[k] != '>' && tag[k] != '<' && tag[k] != '"'
                && tag[k] != '\'',
    ensures
        span_close(a + "<span"@ + tag + ">"@ + b, 0, depth) == moved(
            span_close(
                b,
                0,
                if tag.len() > 0 && tag.last() == '/' {
                    depth
                } else {
                    depth + 1
                },
            ),
            a.len() + 6int + tag.len(),
        ),
{
    reveal_strlit("</span>");
    reveal_strlit("<span");
    reveal_strlit(">");
    let t = a + "<span"@ + tag + ">"@ + b;
    let n = a.len() as int;
    let e = n + 5 + tag.len();
    assert(t.subrange(n, n + 5) =~= "<span"@);
    assert(occurs_at(t, "<span"@, n));
    lemma_first_at(t, SPAN_OPEN@, n);
    assert(t.skip(e + 1) =~= b);
    lemma_no_close_in_tag(a, tag, b);
    lemma_span_tag_end(a, tag, b);
    lemma_index_from(t, SPAN_CLOSE@, 0);
    lemma_index_from(b, SPAN_CLOSE@, 0);
    lemma_index_shift(t, SPAN_CLOSE@, e + 1, e + 1);
    lemma_index_from(t, SPAN_CLOSE@, e + 1);
    match index_from(t, SPAN_CLOSE@, 0) {
        Some(c) => {
            assert(c > e);
            assert(t[e - 1] == if tag.len() > 0 {
                tag.last()
            } else {
                'n'
            });
            let next = if tag.len() > 0 && tag.last() == '/' {
                depth
            } else {
                depth + 1
            };
            lemma_span_close_shift(t, e + 1, e + 1, next);
        },
        None => {
            assert(index_from(b, SPAN_CLOSE@, 0) is None) by {
                if let Some(c) = index_from(b, SPAN_CLOSE@, 0) {
                    assert(occurs_at(t, SPAN_CLOSE@, c + e + 1));
                }
            }
        },
    }
}

proof fn lemma_span_tag_end(a: Seq<char>, tag: Seq<char>, b: Seq<char>)
    requires
        forall|k: int|
            0 <= k < tag.len() ==> #[trigger] tag[k] != '>' && tag[k] != '<' && tag[k] != '"'
                && tag[k] != '\'',
    ensures
        unquoted_end(a + "<span"@ + tag + ">"@ + b, a.len() as int, None) == Some(
            a.len() + 5 + tag.len() as int,
        ),
{
    reveal_strlit("<span");
    let t = a + "<span"@ + tag + ">"@ + b;
    let n = a.len() as int;
    let head = "<span"@ + tag;
    lemma_unquoted_end_shift(t, n, n, None);
    assert(t.skip(n) =~= head + ">"@ + b);
    assert forall|k: int| 0 <= k < head.len() implies #[trigger] head[k] != '>' && head[k] != '"'
        && head[k] != '\'' by {
        if k >= 5 {
            assert(head[k] == tag[k - 5]);
        }
    }
    law_quoted_sign_ends_no_tag(head, Seq::empty(), '"', b);
}

/// No closing tag begins inside an opening tag.
proof fn lemma_no_close_in_tag(a: Seq<char>, tag: Seq<char>, b: Seq<char>)
    requires
        none_before(
            a + "<span"@ + tag + ">"@ + b,
            "<span"@,
            "</span>"@,
            a.len() as int,
        ),
        forall|k: int|
            0 <= k < tag.len() ==> #[trigger] tag[k] != '>' && tag[k] != '<' && tag[k] != '"'
                && tag[k] != '\'',
    ensures
        forall|i: int|
            0 <= i <= a.len() + 5 + tag.len() ==> !#[trigger] occurs_at(
                a + "<span"@ + tag + ">"@ + b,
                "</span>"@,
                i,
            ),
{
    reveal_strlit("</span>");
    reveal_strlit("<span");
    reveal_strlit(">");
    let t = a + "<span"@ + tag + ">"@ + b;
    let n = a.len() as int;
    assert forall|i: int| 0 <= i <= n + 5 + tag.len() implies !#[trigger] occurs_at(
        t,
        "</span>"@,
        i,
    ) by {
        if occurs_at(t, "</span>"@, i) && i >= n {
            assert(t.subrange(i, i + 7)[0] == '<');
            assert(t.subrange(i, i + 7)[1] == '/');
            if i == n {
                assert(t[n + 1] == 's');
            } else if i < n + 5 {
                assert(t[i] == "<span"@[i - n]);
            } else if i < n + 5 + tag.len() {
                assert(t[i] == tag[i - n - 5]);
            } else {
                assert(t[i] == '>');
            }
        }
    }
}

/// The closing tag of a macro closes the innermost macro that is open: the
/// outermost, where there is one only, and else the search goes on behind it
/// with one macro less.
pub proof fn law_closing_tag_closes_one_macro(a: Seq<char>, b: Seq<char>, depth: int)
    requires
        depth >= 1,
        none_before(
            a + "</ac:structured-macro>"@ + b,
            "<ac:structured-macro"@,
            "</ac:structured-macro>"@,
            a.len() as int,
        ),
    ensures
        macro_close(a + "</ac:structured-macro>"@ + b, 0, depth) == if depth == 1 {
            Some(a.len() + 22int)
        } else {
            moved(macro_close(b, 0, depth - 1), a.len() + 22int)
        },
{
    reveal_strlit("</ac:structured-macro>");
    reveal_strlit("<ac:structured-macro");
    let t = a + "</ac:structured-macro>"@ + b;
    let n = a.len() as int;
    assert(t.subrange(n, n + 22) =~= "</ac:structured-macro>"@);
    assert(occurs_at(t, "</ac:structured-macro>"@, n));
    lemma_first_at(t, MACRO_CLOSE@, n);
    lemma_index_from(t, MACRO_OPEN@, 0);
    if let Some(o) = index_from(t, MACRO_OPEN@, 0) {
        assert(o >= n);
    }
    lemma_macro_close_shift(t, n + 22, n + 22, depth - 1);
    assert(t.skip(n + 22) =~= b);
}

proof fn lemma_macro_tag_end(a: Seq<char>, tag: Seq<char>, b: Seq<char>)
    requires
        forall|k: int|
            0 <= k < tag.len() ==> #[trigger] tag[k] != '>' && tag[k] != '<' && tag[k] != '"',
    ensures
        tag_close(
            a + "<ac:structured-macro"@ + tag + ">"@ + b,
            a.len() + "<ac:structured-macro"@.len() as int,
            false,
        ) == Some(a.len() + 20 + tag.len() as int),
{
    reveal_strlit("<ac:structured-macro");
    let t = a + "<ac:structured-macro"@ + tag + ">"@ + b;
    let n = a.len() + 20int;
    lemma_tag_close_shift(t, n, n, false);
    assert(t.skip(n) =~= tag + ">"@ + b);
    law_quoted_sign_ends_no_macro_tag(tag, Seq::empty(), b);
}

proof fn lemma_no_close_in_macro_tag(a: Seq<char>, tag: Seq<char>, b: Seq<char>)
    requires
        none_before(
            a + "<ac:structured-macro"@ + tag + ">"@ + b,
            "<ac:structured-macro"@,
            "</ac:structured-macro>"@,
            a.len() as int,
        ),
        forall|k: int|
            0 <= k < tag.len() ==> #[trigger] tag[k] != '>' && tag[k] != '<' && tag[k] != '"',
    ensures
        forall|i: int|
            0 <= i <= a.len() + 20 + tag.len() ==> !#[trigger] occurs_at(
                a + "<ac:structured-macro"@ + tag + ">"@ + b,
                "</ac:structured-macro>"@,
                i,
            ),
{
    reveal_strlit("</ac:structured-macro>");
    reveal_strlit("<ac:structured-macro");
    reveal_strlit(">");
    let t = a + "<ac:structured-macro"@ + tag + ">"@ + b;
    let n = a.len() as int;
    assert forall|i: int| 0 <= i <= n + 20 + tag.len() implies !#[trigger] occurs_at(
        t,
        "</ac:structured-macro>"@,
        i,
    ) by {
        if occurs_at(t, "</ac:structured-macro>"@, i) && i >= n {
            assert(t.subrange(i, i + 22)[0] == '<');
            assert(t.subrange(i, i + 22)[1] == '/');
            if i == n {
                assert(t[n + 1] == 'a');
            } else if i < n + 20 {
                assert(t[i] == "<ac:structured-macro"@[i - n]);
            } else if i < n + 20 + tag.len() {
                assert(t[i] == tag[i - n - 20]);
            } else {
                assert(t[i] == '>');
            }
        }
    }
}

/// The opening tag of a macro opens one macro more, unless it closes itself.
pub proof fn law_opening_tag_opens_one_macro(
    a: Seq<char>,
    tag: Seq<char>,
    b: Seq<char>,
    depth: int,
)
    requires
        depth >= 1,
        none_before(
            a + "<ac:structured-macro"@ + tag + ">"@ + b,
            "<ac:structured-macro"@,
            "</ac:structured-macro>"@,
            a.len() as int,
        ),
        forall|k: int|
            0 <= k < tag.len() ==> #[trigger] tag[k] != '>' && tag[k] != '<' && tag[k] != '"',
    ensures
        macro_close(a + "<ac:structured-macro"@ + tag + ">"@ + b, 0, depth) == moved(
            macro_close(
                b,
                0,
                if tag.len() > 0 && tag.last() == '/' {
                    depth
                } else {
                    depth + 1
                },
            ),
            a.len() + 21int + tag.len(),
        ),
{
    reveal_strlit("</ac:structured-macro>");
    reveal_strlit("<ac:structured-macro");
    reveal_strlit(">");
    let t = a + "<ac:structured-macro"@ + tag + ">"@ + b;
    let n = a.len() as int;
    let e = n + 20 + tag.len();
    assert(t.subrange(n, n + 20) =~= "<ac:structured-macro"@);
    assert(occurs_at(t, "<ac:structured-macro"@, n));
    lemma_first_at(t, MACRO_OPEN@, n);
    assert(t.skip(e + 1) =~= b);
    lemma_no_close_in_macro_tag(a, tag, b);
    lemma_macro_tag_end(a, tag, b);
    lemma_index_from(t, MACRO_CLOSE@, 0);
    lemma_index_from(b, MACRO_CLOSE@, 0);
    lemma_index_shift(t, MACRO_CLOSE@, e + 1, e + 1);
    lemma_index_from(t, MACRO_CLOSE@, e + 1);
    match index_from(t, MACRO_CLOSE@, 0) {
        Some(c) => {
            assert(c > e);
            assert(t[e - 1] == if tag.len() > 0 {
                tag.last()
            } else {
                'o'
            });
            let next = if tag.len() > 0 && tag.last() == '/' {
                depth
            } else {
                depth + 1
            };
            lemma_macro_close_shift(t, e + 1, e + 1, next);
        },
        None => {
            assert(index_from(b, MACRO_CLOSE@, 0) is None) by {
                if let Some(c) = index_from(b, MACRO_CLOSE@, 0) {
                    assert(occurs_at(t, MACRO_CLOSE@, c + e + 1));
                }
            }
        },
    }
}

} // verus!
