//! What the export keeps of a page's text and tables.

use vstd::prelude::*;

use crate::cells::{cells_expanded, has_merged_cells, rows_promoted};
use crate::export_html::{
    block_token, cleaned, compatible_promoted, compatible_table, extraction_markdown, feeds_capped,
    fragment_markdown, is_clean, law_pages_without_tables_are_not_prepared, no_feed_triple,
    page_markdown, page_tokenized, raw_markdown, span_text, substituted_from, tokenized,
    with_nested, woven_from, TableConversion,
};
use crate::headings::headings_linked;
use crate::pattern::{law_splicing_keeps_the_rest, parts_between, spliced, texts_of, Span};
use crate::table_laws::lemma_flat_push;
use crate::tables::{extracted, law_table_ranges_are_disjoint, nested_range, table_ranges};
use crate::text::{
    is_white_space, lemma_index_from, lemma_skip, lemma_skip_back, occurs_at, occurs_in, replaced,
    replaced_from, skip, skip_back, trimmed, white,
};

verus! {

// ── Text ───────────────────────────────────────────────────────────

/// A text without its white space.
pub open spec fn inks(t: Seq<char>) -> Seq<char>
    decreases t.len(),
{
    if t.len() == 0 {
        t
    } else if is_white_space(t.last()) {
        inks(t.drop_last())
    } else {
        inks(t.drop_last()).push(t.last())
    }
}

pub proof fn lemma_inks_joined(a: Seq<char>, b: Seq<char>)
    ensures
        inks(a + b) == inks(a) + inks(b),
    decreases b.len(),
{
    if b.len() == 0 {
        assert(a + b =~= a);
        assert(inks(a) + inks(b) =~= inks(a));
    } else {
        lemma_inks_joined(a, b.drop_last());
        assert((a + b).drop_last() =~= a + b.drop_last());
        assert(inks(a + b) =~= inks(a) + inks(b));
    }
}

pub proof fn lemma_inks_of_white(t: Seq<char>)
    requires
        forall|i: int| 0 <= i < t.len() ==> is_white_space(#[trigger] t[i]),
    ensures
        inks(t) == Seq::<char>::empty(),
    decreases t.len(),
{
    if t.len() > 0 {
        assert(is_white_space(t[t.len() - 1]));
        assert forall|i: int| 0 <= i < t.drop_last().len() implies is_white_space(
            #[trigger] t.drop_last()[i],
        ) by {
            assert(t.drop_last()[i] == t[i]);
        }
        lemma_inks_of_white(t.drop_last());
    } else {
        assert(t =~= Seq::empty());
    }
}

/// Trimming drops white space alone.
pub proof fn lemma_inks_of_trimmed(t: Seq<char>)
    ensures
        inks(trimmed(t, white())) == inks(t),
{
    let n = t.len() as int;
    let a = skip(t, white(), 0);
    let b = skip_back(t, white(), n);
    lemma_skip(t, white(), 0);
    lemma_skip_back(t, white(), n);
    if a < b {
        let head = t.take(a);
        let mid = t.subrange(a, b);
        let tail = t.skip(b);
        assert(t =~= head + mid + tail);
        lemma_inks_joined(head + mid, tail);
        lemma_inks_joined(head, mid);
        assert forall|i: int| 0 <= i < head.len() implies is_white_space(#[trigger] head[i]) by {
            assert(white()(t[i]));
        }
        assert forall|i: int| 0 <= i < tail.len() implies is_white_space(#[trigger] tail[i]) by {
            assert(white()(t[b + i]));
        }
        lemma_inks_of_white(head);
        lemma_inks_of_white(tail);
        assert(inks(head) + inks(mid) + inks(tail) =~= inks(mid));
    } else {
        assert forall|i: int| 0 <= i < t.len() implies is_white_space(#[trigger] t[i]) by {
            if i < a {
                assert(white()(t[i]));
            } else {
                assert(white()(t[i]));
            }
        }
        lemma_inks_of_white(t);
        lemma_inks_of_white(Seq::empty());
    }
}

/// A text in which another does not stand is not changed by replacing it.
pub proof fn lemma_nothing_replaced(t: Seq<char>, p: Seq<char>, q: Seq<char>, i: int)
    requires
        0 <= i <= t.len(),
        !occurs_in(t, p),
    ensures
        replaced_from(t, p, q, i) == t.skip(i),
    decreases t.len() - i,
{
    lemma_index_from(t, p, 0);
    if i < t.len() {
        lemma_nothing_replaced(t, p, q, i + 1);
        assert(seq![t[i]] + t.skip(i + 1) =~= t.skip(i));
    } else {
        assert(t.skip(i) =~= Seq::empty());
    }
}

proof fn lemma_capped_inks(t: Seq<char>)
    ensures
        inks(feeds_capped(t)) == inks(t),
    decreases t.len(),
{
    if t.len() > 0 {
        lemma_capped_inks(t.drop_last());
        let rest = feeds_capped(t.drop_last());
        assert(rest.push(t.last()).drop_last() =~= rest);
    }
}

/// Whether Markdown holds no escaped check box.
pub open spec fn no_escaped_box(t: Seq<char>) -> bool {
    !occurs_in(feeds_capped(t), r"\[x\]"@) && !occurs_in(feeds_capped(t), r"\[ \]"@)
}

/// Cleaning Markdown up changes nothing but white space.
pub proof fn law_cleaning_keeps_the_text(t: Seq<char>)
    requires
        no_escaped_box(t),
    ensures
        inks(cleaned(t)) == inks(t),
{
    reveal_strlit("\n");
    let a = feeds_capped(t);
    lemma_capped_inks(t);
    lemma_nothing_replaced(a, r"\[x\]"@, "[x]"@, 0);
    lemma_nothing_replaced(a, r"\[ \]"@, "[ ]"@, 0);
    assert(a.skip(0) =~= a);
    lemma_inks_of_trimmed(a);
    lemma_inks_joined(trimmed(a, white()), "\n"@);
    lemma_inks_of_white("\n"@);
    assert(inks(trimmed(a, white())) + Seq::<char>::empty() =~= inks(trimmed(a, white())));
}

proof fn lemma_capped_stays(t: Seq<char>)
    requires
        no_feed_triple(t),
    ensures
        feeds_capped(t) == t,
    decreases t.len(),
{
    let n = t.len();
    if n > 0 {
        let rest = t.drop_last();
        assert forall|i: int| 0 <= i < rest.len() - 2 implies !((#[trigger] rest[i]) == '\n'
            && rest[i + 1] == '\n' && rest[i + 2] == '\n') by {
            assert(!(t[i] == '\n' && t[i + 1] == '\n' && t[i + 2] == '\n'));
        }
        lemma_capped_stays(rest);
        if n >= 3 {
            assert(!(t[n - 3] == '\n' && t[n - 3 + 1] == '\n' && t[n - 3 + 2] == '\n'));
        }
        assert(rest.push(t.last()) =~= t);
    }
}

/// Markdown that is clean and holds no escaped check box stays as it is.
pub proof fn law_clean_markdown_stays(t: Seq<char>)
    requires
        is_clean(t),
        no_escaped_box(t),
    ensures
        cleaned(t) == t,
{
    reveal_strlit("\n");
    lemma_capped_stays(t);
    lemma_nothing_replaced(t, r"\[x\]"@, "[x]"@, 0);
    lemma_nothing_replaced(t, r"\[ \]"@, "[ ]"@, 0);
    assert(t.skip(0) =~= t);
    let n = t.len() as int;
    lemma_skip(t, white(), 0);
    lemma_skip_back(t, white(), n);
    let a = skip(t, white(), 0);
    let b = skip_back(t, white(), n);
    if n > 1 {
        if a > 0 {
            assert(white()(t[0]));
        }
        if b == n {
            assert(!white()(t[n - 1]));
        }
        if b < n - 1 {
            assert(white()(t[n - 2]));
        }
        assert(t.subrange(0, n - 1) + "\n"@ =~= t);
    } else {
        assert(white()(t[0]));
        assert(trimmed(t, white()) =~= Seq::empty());
        assert(Seq::<char>::empty() + "\n"@ =~= t);
    }
}

/// A check box as it is escaped.
pub open spec fn escaped_box(c: char) -> Seq<char> {
    seq!['\\', '[', c, '\\', ']']
}

/// A check box.
pub open spec fn plain_box(c: char) -> Seq<char> {
    seq!['[', c, ']']
}

proof fn lemma_box_starts(t: Seq<char>, c: char, i: int)
    requires
        0 <= i,
        replaced_from(t, escaped_box(c), plain_box(c), i).len() > 0,
        replaced_from(t, escaped_box(c), plain_box(c), i)[0] != '[',
    ensures
        i < t.len(),
        t[i] == replaced_from(t, escaped_box(c), plain_box(c), i)[0],
        replaced_from(t, escaped_box(c), plain_box(c), i).skip(1) == replaced_from(
            t,
            escaped_box(c),
            plain_box(c),
            i + 1,
        ),
{
    let rest = replaced_from(t, escaped_box(c), plain_box(c), i + 1);
    assert((seq![t[i]] + rest).skip(1) =~= rest);
}

/// Where the end of an escaped box is left behind a replacement, it stood
/// there before.
proof fn lemma_box_end_stays(t: Seq<char>, c: char, d: char, i: int)
    requires
        0 <= i,
        c == 'x' || c == ' ',
        d == 'x' || d == ' ',
        occurs_at(
            replaced_from(t, escaped_box(c), plain_box(c), i),
            seq!['[', d, '\\', ']'],
            0,
        ),
    ensures
        occurs_at(t, seq!['[', d, '\\', ']'], i),
{
    let p = escaped_box(c);
    let q = plain_box(c);
    let r = replaced_from(t, p, q, i);
    let w = r.subrange(0, 4);
    assert(w[0] == r[0] && w[1] == r[1] && w[2] == r[2] && w[3] == r[3]);
    if occurs_at(t, p, i) {
        assert(r[2] == ']');
    } else {
        let r1 = replaced_from(t, p, q, i + 1);
        assert(r[1] == r1[0] && r[2] == r1[1] && r[3] == r1[2]);
        lemma_box_starts(t, c, i + 1);
        let r2 = replaced_from(t, p, q, i + 2);
        assert(r1.skip(1)[0] == r1[1] && r1.skip(1)[1] == r1[2]);
        lemma_box_starts(t, c, i + 2);
        let r3 = replaced_from(t, p, q, i + 3);
        assert(r2.skip(1)[0] == r2[1]);
        lemma_box_starts(t, c, i + 3);
        assert(t.subrange(i, i + 4) =~= seq!['[', d, '\\', ']']);
    }
}

proof fn lemma_no_box_left(t: Seq<char>, c: char, d: char, i: int, k: int)
    requires
        0 <= i,
        c == 'x' || c == ' ',
        d == 'x' || d == ' ',
        c == d || forall|j: int| !occurs_at(t, escaped_box(d), j),
    ensures
        !occurs_at(replaced_from(t, escaped_box(c), plain_box(c), i), escaped_box(d), k),
    decreases t.len() - i,
{
    let p = escaped_box(c);
    let q = plain_box(c);
    let o = escaped_box(d);
    let r = replaced_from(t, p, q, i);
    if occurs_at(r, o, k) {
        let w = r.subrange(k, k + 5);
        assert(w[0] == r[k] && w[1] == r[k + 1] && w[2] == r[k + 2] && w[3] == r[k + 3] && w[4]
            == r[k + 4]);
        if occurs_at(t, p, i) {
            if k >= 3 {
                let rest = replaced_from(t, p, q, i + 5);
                assert(rest.subrange(k - 3, k + 2) =~= w);
                lemma_no_box_left(t, c, d, i + 5, k - 3);
            } else {
                assert(r[k] == q[k]);
            }
        } else {
            let rest = replaced_from(t, p, q, i + 1);
            if k >= 1 {
                assert(rest.subrange(k - 1, k + 4) =~= w);
                lemma_no_box_left(t, c, d, i + 1, k - 1);
            } else {
                assert(rest.subrange(0, 4) =~= seq!['[', d, '\\', ']']);
                lemma_box_end_stays(t, c, d, i + 1);
                let v = t.subrange(i + 1, i + 5);
                assert(v[0] == t[i + 1] && v[1] == t[i + 2] && v[2] == t[i + 3] && v[3] == t[i
                    + 4]);
                assert(t[i] == r[0] && t[i] == o[0]);
                assert(t.subrange(i, i + 5) =~= o);
                assert(occurs_at(t, o, i));
            }
        }
    }
}

/// Cleaned Markdown holds no escaped check box, wherever one stood.
pub proof fn law_no_escaped_box_is_left(t: Seq<char>)
    ensures
        !occurs_in(cleaned(t), r"\[x\]"@),
        !occurs_in(cleaned(t), r"\[ \]"@),
{
    reveal_strlit(r"\[x\]");
    reveal_strlit(r"\[ \]");
    reveal_strlit("[x]");
    reveal_strlit("[ ]");
    reveal_strlit("\n");
    assert(r"\[x\]"@ =~= escaped_box('x'));
    assert(r"\[ \]"@ =~= escaped_box(' '));
    assert("[x]"@ =~= plain_box('x'));
    assert("[ ]"@ =~= plain_box(' '));
    let a = feeds_capped(t);
    let b = replaced(a, escaped_box('x'), plain_box('x'));
    let c = replaced(b, escaped_box(' '), plain_box(' '));
    assert forall|k: int| !occurs_at(b, escaped_box('x'), k) by {
        lemma_no_box_left(a, 'x', 'x', 0, k);
    }
    lemma_no_box_in(cleaned(t), c, 'x');
    lemma_no_box_in(cleaned(t), c, ' ');
    assert forall|k: int| !occurs_at(c, escaped_box('x'), k) by {
        lemma_no_box_left(b, ' ', 'x', 0, k);
    }
    assert forall|k: int| !occurs_at(c, escaped_box(' '), k) by {
        lemma_no_box_left(b, ' ', ' ', 0, k);
    }
}

proof fn lemma_no_box_in(out: Seq<char>, t: Seq<char>, d: char)
    requires
        out == trimmed(t, white()) + "\n"@,
    ensures
        (forall|k: int| !occurs_at(t, escaped_box(d), k)) ==> !occurs_in(out, escaped_box(d)),
{
    reveal_strlit("\n");
    let p = escaped_box(d);
    let inner = trimmed(t, white());
    let n = t.len() as int;
    lemma_skip(t, white(), 0);
    lemma_skip_back(t, white(), n);
    let a = skip(t, white(), 0);
    lemma_index_from(out, p, 0);
    if (forall|k: int| !occurs_at(t, p, k)) && occurs_in(out, p) {
        let k = choose|k: int| occurs_at(out, p, k);
        let w = out.subrange(k, k + 5);
        assert(w[4] == out[k + 4]);
        assert(k + 5 <= inner.len());
        assert(t.subrange(a + k, a + k + 5) =~= w);
        assert(occurs_at(t, p, a + k));
    }
}

// ── Tables ─────────────────────────────────────────────────────────

/// The Markdown of a table is followed by that of its nested tables, each once
/// and in order, under its marker.
pub proof fn law_nested_tables_follow_in_order(
    outer: Seq<char>,
    tables: Seq<(Seq<char>, Seq<char>)>,
    n: int,
)
    requires
        0 <= n <= tables.len(),
    ensures
        with_nested(outer, tables, n) == outer + Seq::new(
            n as nat,
            |k: int| "\n\n"@ + tables[k].0 + "\n\n"@ + tables[k].1,
        ).flatten(),
    decreases n,
{
    let blocks = Seq::new(n as nat, |k: int| "\n\n"@ + tables[k].0 + "\n\n"@ + tables[k].1);
    lemma_flat_push(blocks);
    if n == 0 {
        assert(outer + blocks.flatten() =~= outer);
    } else {
        law_nested_tables_follow_in_order(outer, tables, n - 1);
        let fewer = Seq::new(
            (n - 1) as nat,
            |k: int| "\n\n"@ + tables[k].0 + "\n\n"@ + tables[k].1,
        );
        assert(blocks.drop_last() =~= fewer);
        let last = "\n\n"@ + tables[n - 1].0 + "\n\n"@ + tables[n - 1].1;
        assert(outer + fewer.flatten() + "\n\n"@ + tables[n - 1].0 + "\n\n"@ + tables[n - 1].1
            =~= outer + (fewer.flatten() + last));
    }
}

/// How many of the first `n` tables of a page hold nested tables.
pub open spec fn nesting_tables(t: Seq<char>, ranges: Seq<Span>, n: int) -> nat
    decreases n,
{
    if n <= 0 {
        0
    } else {
        nesting_tables(t, ranges, n - 1) + if nested_range(span_text(t, ranges[n - 1])) is Some {
            1nat
        } else {
            0nat
        }
    }
}

proof fn lemma_tokenized(t: Seq<char>, ranges: Seq<Span>, n: int, i: int)
    requires
        0 <= i < n <= ranges.len(),
    ensures
        tokenized(t, ranges, n).pieces.len() == n,
        tokenized(t, ranges, n).blocks.len() == nesting_tables(t, ranges, n),
        nesting_tables(t, ranges, i) <= nesting_tables(t, ranges, n),
        nested_range(span_text(t, ranges[i])) is None ==> tokenized(t, ranges, n).pieces[i]
            == span_text(t, ranges[i]),
        nested_range(span_text(t, ranges[i])) is Some ==> nesting_tables(t, ranges, i)
            < nesting_tables(t, ranges, n) && tokenized(t, ranges, n).pieces[i] == block_token(
            nesting_tables(t, ranges, i) + 1,
        ) && tokenized(t, ranges, n).blocks[nesting_tables(t, ranges, i) as int] == (
            block_token(nesting_tables(t, ranges, i) + 1),
            extraction_markdown(
                extracted(span_text(t, ranges[i]), tokenized(t, ranges, i).markers),
            ),
        ),
    decreases n,
{
    lemma_tokenized_lengths(t, ranges, n - 1);
    lemma_tokenized_lengths(t, ranges, n);
    if i < n - 1 {
        lemma_tokenized(t, ranges, n - 1, i);
    }
}

proof fn lemma_tokenized_lengths(t: Seq<char>, ranges: Seq<Span>, n: int)
    requires
        0 <= n <= ranges.len(),
    ensures
        tokenized(t, ranges, n).pieces.len() == n,
        tokenized(t, ranges, n).blocks.len() == nesting_tables(t, ranges, n),
    decreases n,
{
    if n > 0 {
        lemma_tokenized_lengths(t, ranges, n - 1);
    }
}

/// On a page every table without nested tables stays as it is, and every
/// other is replaced by a token of its number among them, which stands for
/// the Markdown of that table and of the tables in it. All between the tables
/// stays.
pub proof fn law_each_table_stays_or_gets_its_token(t: Seq<char>, i: int)
    requires
        0 <= i < table_ranges(t).len(),
    ensures
        ({
            let ranges = table_ranges(t);
            let page = page_tokenized(t);
            let table = t.subrange(ranges[i].start as int, ranges[i].end as int);
            let k = nesting_tables(t, ranges, i);
            &&& page.pieces.len() == ranges.len()
            &&& nested_range(table) is None ==> page.pieces[i] == table
            &&& nested_range(table) is Some ==> page.pieces[i] == block_token(k + 1) && page.blocks[k
                as int] == (
                block_token(k + 1),
                extraction_markdown(extracted(table, tokenized(t, ranges, i).markers)),
            )
            &&& t == woven_from(parts_between(t, ranges), texts_of(t, ranges), 0)
            &&& spliced(t, ranges, page.pieces) == woven_from(
                parts_between(t, ranges),
                page.pieces,
                0,
            )
        }),
{
    let ranges = table_ranges(t);
    lemma_tokenized(t, ranges, ranges.len() as int, i);
    law_table_ranges_are_disjoint(t);
    law_splicing_keeps_the_rest(t, ranges, page_tokenized(t).pieces);
}

/// In default mode a table with merged cells or nested tables stays as it is,
/// every other gets a head, and all between the tables stays.
pub proof fn law_compatible_tables_get_a_head(t: Seq<char>)
    ensures
        ({
            let ranges = table_ranges(t);
            &&& t == woven_from(parts_between(t, ranges), texts_of(t, ranges), 0)
            &&& compatible_promoted(t) == woven_from(
                parts_between(t, ranges),
                Seq::new(
                    ranges.len(),
                    |i: int|
                        {
                            let table = t.subrange(ranges[i].start as int, ranges[i].end as int);
                            if has_merged_cells(table) || nested_range(table) is Some {
                                table
                            } else {
                                rows_promoted(table)
                            }
                        },
                ),
                0,
            )
        }),
{
    let ranges = table_ranges(t);
    let reps = Seq::new(ranges.len(), |i: int| compatible_table(span_text(t, ranges[i])));
    law_table_ranges_are_disjoint(t);
    law_splicing_keeps_the_rest(t, ranges, reps);
    assert(reps =~= Seq::new(
        ranges.len(),
        |i: int|
            {
                let table = t.subrange(ranges[i].start as int, ranges[i].end as int);
                if has_merged_cells(table) || nested_range(table) is Some {
                    table
                } else {
                    rows_promoted(table)
                }
            },
    ));
}

/// Links to headings are rewritten before a page is converted, in either mode,
/// and no block is cut out of a page without tables.
pub proof fn law_page_is_converted_with_its_links(html: Seq<char>)
    requires
        table_ranges(headings_linked(html)).len() == 0,
    ensures
        page_markdown(html, TableConversion::Default) == cleaned(
            raw_markdown(headings_linked(html), true),
        ),
        page_markdown(html, TableConversion::Always) == cleaned(
            cleaned(raw_markdown(rows_promoted(cells_expanded(headings_linked(html))), false)),
        ),
{
    let linked = headings_linked(html);
    law_pages_without_tables_are_not_prepared(linked);
    let md = cleaned(raw_markdown(rows_promoted(cells_expanded(linked)), false));
    lemma_nothing_substituted(md, page_tokenized(linked).blocks, 0);
    assert(md.skip(0) =~= md);
}

proof fn lemma_nothing_substituted(t: Seq<char>, subs: Seq<(Seq<char>, Seq<char>)>, i: int)
    requires
        subs.len() == 0,
        0 <= i <= t.len(),
    ensures
        substituted_from(t, subs, i) == t.skip(i),
    decreases t.len() - i,
{
    if i < t.len() {
        lemma_nothing_substituted(t, subs, i + 1);
        assert(seq![t[i]] + t.skip(i + 1) =~= t.skip(i));
    } else {
        assert(t.skip(i) =~= Seq::empty());
    }
}

/// The Markdown of a table is that of its rows as they are laid out: two
/// tables of the same layout have the same.
pub proof fn law_same_layout_same_markdown(a: Seq<char>, b: Seq<char>)
    requires
        cells_expanded(a) == cells_expanded(b),
    ensures
        fragment_markdown(a) == fragment_markdown(b),
{
}

} // verus!
