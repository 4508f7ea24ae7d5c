//! Links to headings, rewritten to the anchors that Markdown gives them.

use vstd::prelude::*;
use vstd::string::StringExecFns;

use crate::lookup::{CountMap, TextMap};
use crate::pattern::{
    all_matches, find_all, find_first, first_match, fits, found_views, group, group_text, rewrite,
    rewritten, well_placed, whole_text, Found, Span,
};
use crate::text::{
    chars_of, decimal, is_white_space, law_decimal_reads_back, only, opt_view, push_decimal, trim,
    trim_start_char, trimmed, trimmed_start, unicode_alphanumeric, unicode_lower, white,
    white_space,
};
use crate::utils::{
    attribute_decoded, decode_html_attribute, escape_html, escaped, strip_tags, stripped,
};

verus! {

/// The pattern of a heading: its attributes and its content.
pub const HEADING: &'static str = r#"(?is)<h[1-6]\b([^>]*)>(.*?)</h[1-6]>"#;

/// The pattern of an identifier, in double or in single quotes.
pub const ID_ATTRIBUTE: &'static str = r#"(?is)\bid\s*=\s*"([^"]*)"|\bid\s*=\s*'([^']*)'"#;

/// The pattern of a link inside the page, in double quotes: what stands before
/// the address, the address, what stands behind.
pub const ANCHOR_DOUBLE: &'static str = r##"(?is)<a\b([^>]*?)\bhref\s*=\s*"(#[^"]*)"([^>]*)>"##;

/// The pattern of a link inside the page, in single quotes.
pub const ANCHOR_SINGLE: &'static str = r##"(?is)<a\b([^>]*?)\bhref\s*=\s*'(#[^']*)'([^>]*)>"##;

// ── Slugs ──────────────────────────────────────────────────────────

/// What a character of a heading becomes in its slug.
pub open spec fn slug_char(c: char) -> Seq<char> {
    if unicode_alphanumeric(c) || c == '_' || c == '-' {
        seq![c]
    } else if is_white_space(c) {
        seq!['-']
    } else {
        Seq::empty()
    }
}

/// The slug characters of a text.
pub open spec fn slug_chars(t: Seq<char>) -> Seq<char>
    decreases t.len(),
{
    if t.len() == 0 {
        Seq::empty()
    } else {
        slug_chars(t.drop_last()) + slug_char(t.last())
    }
}

/// The slug of a text in lower case; `section` where nothing is left.
pub open spec fn slug_of_lowered(t: Seq<char>) -> Seq<char> {
    if slug_chars(t).len() == 0 {
        "section"@
    } else {
        slug_chars(t)
    }
}

/// The slug of a heading.
pub open spec fn heading_slug(t: Seq<char>) -> Seq<char> {
    slug_of_lowered(unicode_lower(trimmed(t, white())))
}

/// The slug of a text in lower case.
pub fn slug_from_lowered(text: &str) -> (r: String)
    ensures
        r@ == slug_of_lowered(text@),
{
    let t = chars_of(text);
    let mut slug: String = String::new();
    let mut any: bool = false;
    let mut i: usize = 0;
    while i < t.len()
        invariant
            t@ == text@,
            i <= t.len(),
            slug@ == slug_chars(t@.take(i as int)),
            any == (slug@.len() > 0),
        decreases t.len() - i,
    {
        let ghost before = slug@;
        let c: char = t[i];
        if c.is_alphanumeric() || c == '_' || c == '-' {
            slug.push(c);
            any = true;
        } else if white_space(c) {
            slug.push('-');
            any = true;
        }
        assert(t@.take(i + 1).drop_last() =~= t@.take(i as int));
        assert(slug@ =~= before + slug_char(c));
        i += 1;
    }
    assert(t@.take(t.len() as int) =~= t@);
    if any {
        slug
    } else {
        "section".to_owned()
    }
}

/// The slug that Markdown gives a heading.
pub fn markdown_heading_slug(text: &str) -> (r: String)
    ensures
        r@ == heading_slug(text@),
{
    slug_from_lowered(&trim(text).to_lowercase())
}

/// A slug for its `n`-th repetition; the first time it stands alone.
pub open spec fn repeated_slug(base: Seq<char>, n: nat) -> Seq<char> {
    if n == 0 {
        base
    } else {
        base + "-"@ + decimal(n)
    }
}

/// How often a slug has been given out.
pub open spec fn slug_count(counts: Map<Seq<char>, usize>, base: Seq<char>) -> nat {
    if counts.contains_key(base) {
        counts[base] as nat
    } else {
        0
    }
}

/// Whether a number is the least, from one on, that makes a slug free.
pub open spec fn is_least_free(counts: Map<Seq<char>, usize>, base: Seq<char>, n: nat) -> bool {
    &&& n >= 1
    &&& !counts.contains_key(repeated_slug(base, n))
    &&& forall|k: nat| 1 <= k < n ==> counts.contains_key(#[trigger] repeated_slug(base, k))
}

/// The number that a slug gets: none where it is free, else the least that
/// makes it free.
pub open spec fn slug_number(counts: Map<Seq<char>, usize>, base: Seq<char>) -> nat {
    if counts.contains_key(base) {
        choose|n: nat| is_least_free(counts, base, n)
    } else {
        0
    }
}

/// The slug that a heading with the plain slug `base` gets.
pub open spec fn given_slug(counts: Map<Seq<char>, usize>, base: Seq<char>) -> Seq<char> {
    repeated_slug(base, slug_number(counts, base))
}

/// The counts after a heading with the plain slug `base`: that of the plain
/// slug goes up by one, and a slug with a number counts as given out too.
pub open spec fn counted(counts: Map<Seq<char>, usize>, base: Seq<char>) -> Map<Seq<char>, usize> {
    let after = counts.insert(base, (slug_count(counts, base) + 1) as usize);
    if counts.contains_key(base) {
        after.insert(given_slug(counts, base), 1)
    } else {
        after
    }
}

/// Of more numbers than there are slugs, one makes a slug free.
proof fn lemma_some_slug_is_free(counts: Map<Seq<char>, usize>, base: Seq<char>)
    requires
        counts.dom().finite(),
    ensures
        exists|n: nat| n <= counts.len() + 1 && #[trigger] is_least_free(counts, base, n),
{
    let size = counts.len();
    if forall|k: nat| 1 <= k <= size + 1 ==> counts.contains_key(#[trigger] repeated_slug(base, k)) {
        let all = Seq::new(size + 1, |i: int| repeated_slug(base, (i + 1) as nat));
        assert(all.no_duplicates()) by {
            assert forall|i: int, j: int| 0 <= i < all.len() && 0 <= j < all.len() && i
                != j implies all[i] != all[j] by {
                law_repeated_slugs_differ(base, (i + 1) as nat, (j + 1) as nat);
            }
        }
        all.unique_seq_to_set();
        assert(all.to_set().subset_of(counts.dom())) by {
            assert forall|x: Seq<char>| all.to_set().contains(x) implies counts.dom().contains(
                x,
            ) by {
                let i = choose|i: int| 0 <= i < all.len() && all[i] == x;
                assert(counts.contains_key(repeated_slug(base, (i + 1) as nat)));
            }
        }
        vstd::set_lib::lemma_len_subset(all.to_set(), counts.dom());
        assert(false);
    }
    let k = choose|k: nat|
        1 <= k <= size + 1 && !counts.contains_key(#[trigger] repeated_slug(base, k));
    lemma_least_below(counts, base, k);
}

proof fn lemma_least_below(counts: Map<Seq<char>, usize>, base: Seq<char>, k: nat)
    requires
        k >= 1,
        !counts.contains_key(repeated_slug(base, k)),
    ensures
        exists|n: nat| n <= k && #[trigger] is_least_free(counts, base, n),
    decreases k,
{
    if forall|j: nat| 1 <= j < k ==> counts.contains_key(#[trigger] repeated_slug(base, j)) {
        assert(is_least_free(counts, base, k));
    } else {
        let j = choose|j: nat|
            1 <= j < k && !counts.contains_key(#[trigger] repeated_slug(base, j));
        lemma_least_below(counts, base, j);
    }
}

/// There is one least number.
proof fn lemma_least_is_one(counts: Map<Seq<char>, usize>, base: Seq<char>, n: nat, m: nat)
    requires
        is_least_free(counts, base, n),
        is_least_free(counts, base, m),
    ensures
        n == m,
{
    if n < m {
        assert(counts.contains_key(repeated_slug(base, n)));
    }
    if m < n {
        assert(counts.contains_key(repeated_slug(base, m)));
    }
}

/// A slug that is given out was free.
proof fn lemma_given_slug_is_free(counts: Map<Seq<char>, usize>, base: Seq<char>)
    requires
        counts.dom().finite(),
    ensures
        !counts.contains_key(given_slug(counts, base)),
        counted(counts, base).contains_key(given_slug(counts, base)),
        counted(counts, base).dom().finite(),
        counted(counts, base).len() == counts.len() + 1,
        forall|x: Seq<char>| #[trigger]
            counts.contains_key(x) ==> counted(counts, base).contains_key(x),
{
    if counts.contains_key(base) {
        lemma_some_slug_is_free(counts, base);
        let n = slug_number(counts, base);
        assert(is_least_free(counts, base, n));
        let after = counts.insert(base, (slug_count(counts, base) + 1) as usize);
        assert(after.dom() =~= counts.dom());
        assert(counted(counts, base).dom() =~= counts.dom().insert(given_slug(counts, base)));
    } else {
        assert(counted(counts, base).dom() =~= counts.dom().insert(base));
    }
}

/// The slug of a heading. Where it was given out before, it gets the least
/// number that makes it free.
pub fn unique_markdown_heading_slug(text: &str, slug_counts: &mut CountMap) -> (r: String)
    requires
        slug_count(old(slug_counts)@, heading_slug(text@)) < usize::MAX,
        old(slug_counts)@.len() < usize::MAX,
    ensures
        r@ == given_slug(old(slug_counts)@, heading_slug(text@)),
        !old(slug_counts)@.contains_key(r@),
        final(slug_counts)@.contains_key(r@),
        final(slug_counts)@ == counted(old(slug_counts)@, heading_slug(text@)),
        !old(slug_counts)@.contains_key(heading_slug(text@)) ==> r@ == heading_slug(text@),
        old(slug_counts)@.contains_key(heading_slug(text@)) ==> exists|n: nat|
            #[trigger] is_least_free(old(slug_counts)@, heading_slug(text@), n) && r@
                == repeated_slug(heading_slug(text@), n),
{
    let base = markdown_heading_slug(text);
    let ghost counts = slug_counts@;
    let size: usize = slug_counts.len();
    proof {
        lemma_given_slug_is_free(counts, base@);
    }
    let count: usize = match slug_counts.get(&base) {
        Some(n) => n,
        None => {
            let slug = base.clone();
            slug_counts.insert(base, 1);
            return slug;
        },
    };
    proof {
        lemma_some_slug_is_free(counts, base@);
    }
    let mut n: usize = 1;
    loop
        invariant
            counts == slug_counts@,
            counts == old(slug_counts)@,
            counts.dom().finite(),
            counts.contains_key(base@),
            base@ == heading_slug(text@),
            count == counts[base@],
            count < usize::MAX,
            size == counts.len(),
            1 <= n <= size + 1 <= usize::MAX,
            exists|m: nat| n <= m <= size + 1 && #[trigger] is_least_free(counts, base@, m),
            forall|k: nat| 1 <= k < n ==> counts.contains_key(#[trigger] repeated_slug(base@, k)),
            counted(counts, base@).contains_key(given_slug(counts, base@)),
        decreases size + 1 - n,
    {
        let mut slug: String = base.clone();
        slug.append("-");
        push_decimal(&mut slug, n);
        assert(slug@ == repeated_slug(base@, n as nat));
        if slug_counts.get(&slug).is_none() {
            proof {
                assert(is_least_free(counts, base@, n as nat));
                lemma_least_is_one(counts, base@, n as nat, slug_number(counts, base@));
            }
            slug_counts.insert(base, count + 1);
            slug_counts.insert(slug.clone(), 1);
            return slug;
        }
        proof {
            let m = choose|m: nat|
                n <= m <= size + 1 && #[trigger] is_least_free(counts, base@, m);
            assert(m != n);
        }
        n += 1;
    }
}

// ── Headings of a page ─────────────────────────────────────────────

/// The identifier that the attributes of a heading give.
pub open spec fn id_of(attrs: Seq<char>) -> Option<Seq<char>> {
    match first_match(ID_ATTRIBUTE@, attrs) {
        Some(m) => match group(attrs, m, 1) {
            Some(id) => Some(attribute_decoded(id)),
            None => match group(attrs, m, 2) {
                Some(id) => Some(attribute_decoded(id)),
                None => None,
            },
        },
        None => None,
    }
}

/// The identifier that the attributes of a heading give.
pub fn find_id(attrs: &str) -> (r: Option<String>)
    ensures
        opt_view(r) == id_of(attrs@),
{
    let t = chars_of(attrs);
    match find_first(ID_ATTRIBUTE, attrs) {
        Some(m) => match m.group(&t, 1) {
            Some(id) => Some(decode_html_attribute(&id)),
            None => match m.group(&t, 2) {
                Some(id) => Some(decode_html_attribute(&id)),
                None => None,
            },
        },
        None => None,
    }
}

/// The headings seen so far: the slug of each identifier, and how often each
/// plain slug was given out.
pub struct Headings {
    pub slugs: Map<Seq<char>, Seq<char>>,
    pub counts: Map<Seq<char>, usize>,
}

/// The first `n` headings, given their attributes and contents. One without
/// an identifier is passed over.
pub open spec fn headings_upto(list: Seq<(Seq<char>, Seq<char>)>, n: int) -> Headings
    decreases n,
{
    if n <= 0 {
        Headings { slugs: Map::empty(), counts: Map::empty() }
    } else {
        let before = headings_upto(list, n - 1);
        match id_of(list[n - 1].0) {
            Some(id) => {
                let base = heading_slug(stripped(list[n - 1].1));
                Headings {
                    slugs: before.slugs.insert(id, given_slug(before.counts, base)),
                    counts: counted(before.counts, base),
                }
            },
            None => before,
        }
    }
}

/// The attributes and contents of the headings of a page.
pub open spec fn page_headings(t: Seq<char>) -> Seq<(Seq<char>, Seq<char>)> {
    let ms = all_matches(HEADING@, t);
    Seq::new(ms.len(), |i: int| (group_text(t, ms[i], 1), group_text(t, ms[i], 2)))
}

/// The slugs of the headings of a page, by identifier.
pub open spec fn page_slugs(t: Seq<char>) -> Map<Seq<char>, Seq<char>> {
    headings_upto(page_headings(t), page_headings(t).len() as int).slugs
}

proof fn lemma_counts_bounded(list: Seq<(Seq<char>, Seq<char>)>, n: int, base: Seq<char>)
    requires
        0 <= n <= list.len(),
        n <= usize::MAX,
    ensures
        headings_upto(list, n).counts.dom().finite(),
        headings_upto(list, n).counts.len() <= n,
        slug_count(headings_upto(list, n).counts, base) <= n,
    decreases n,
{
    if n > 0 {
        lemma_counts_bounded(list, n - 1, base);
        let before = headings_upto(list, n - 1).counts;
        if id_of(list[n - 1].0) is Some {
            let plain = heading_slug(stripped(list[n - 1].1));
            lemma_counts_bounded(list, n - 1, plain);
            lemma_given_slug_is_free(before, plain);
        }
    }
}

/// The slugs of the headings of a page, by identifier.
pub fn heading_id_to_markdown_slug_map(html: &str) -> (r: TextMap)
    ensures
        r@ == page_slugs(html@),
{
    let t = chars_of(html);
    let ms = find_all(HEADING, html);
    let ghost found = found_views(ms@);
    let ghost list = page_headings(t@);
    let mut slugs = TextMap::new();
    let mut counts = CountMap::new();
    let mut i: usize = 0;
    while i < ms.len()
        invariant
            t@ == html@,
            found == found_views(ms@),
            found == all_matches(HEADING@, t@),
            well_placed(t@.len(), found),
            list == page_headings(t@),
            i <= ms.len(),
            slugs@ == headings_upto(list, i as int).slugs,
            counts@ == headings_upto(list, i as int).counts,
        decreases ms.len() - i,
    {
        assert(fits(t@.len(), found[i as int]));
        if let Some(id) = find_id(&ms[i].group_text(&t, 1)) {
            let text = strip_tags(&ms[i].group_text(&t, 2));
            proof {
                lemma_counts_bounded(list, i as int, heading_slug(text@));
            }
            let slug = unique_markdown_heading_slug(&text, &mut counts);
            slugs.insert(id, slug);
        }
        i += 1;
    }
    slugs
}

// ── Rewriting links ────────────────────────────────────────────────

/// A link to a heading of the page, rewritten to its slug; another link stays
/// as it is.
pub open spec fn anchor_html(
    original: Seq<char>,
    before: Seq<char>,
    href: Seq<char>,
    after: Seq<char>,
    quote: char,
    slugs: Map<Seq<char>, Seq<char>>,
) -> Seq<char> {
    let target = attribute_decoded(trimmed_start(href, only('#')));
    if slugs.contains_key(target) {
        "<a"@ + before + "href="@ + seq![quote] + "#"@ + escaped(slugs[target]) + seq![quote]
            + after + ">"@
    } else {
        original
    }
}

/// A link to a heading of the page, rewritten to its slug; another link stays
/// as it is.
pub fn rewrite_anchor_href(
    original: String,
    before_href: &str,
    href: &str,
    after_href: &str,
    quote: char,
    id_to_slug: &TextMap,
) -> (r: String)
    ensures
        r@ == anchor_html(original@, before_href@, href@, after_href@, quote, id_to_slug@),
{
    let target = decode_html_attribute(&trim_start_char(href, '#'));
    match id_to_slug.get(&target) {
        Some(slug) => {
            let mut out: String = "<a".to_owned();
            out.append(before_href);
            out.append("href=");
            let ghost a = out@;
            out.push(quote);
            assert(out@ =~= a + seq![quote]);
            out.append("#");
            out.append(&escape_html(slug));
            let ghost b = out@;
            out.push(quote);
            assert(out@ =~= b + seq![quote]);
            out.append(after_href);
            out.append(">");
            out
        },
        None => original,
    }
}

/// What replaces a link.
pub open spec fn anchor_rewriting(quote: char, slugs: Map<Seq<char>, Seq<char>>) -> spec_fn(
    Seq<char>,
    Seq<Option<Span>>,
) -> Seq<char> {
    |t: Seq<char>, m: Seq<Option<Span>>|
        anchor_html(
            whole_text(t, m),
            group_text(t, m, 1),
            group_text(t, m, 2),
            group_text(t, m, 3),
            quote,
            slugs,
        )
}

/// A page with the links to its headings rewritten, first those in double
/// quotes, then those in single quotes.
pub open spec fn headings_linked(t: Seq<char>) -> Seq<char> {
    let slugs = page_slugs(t);
    if slugs == Map::<Seq<char>, Seq<char>>::empty() {
        t
    } else {
        rewritten(
            ANCHOR_SINGLE@,
            rewritten(ANCHOR_DOUBLE@, t, anchor_rewriting('"', slugs)),
            anchor_rewriting('\'', slugs),
        )
    }
}

fn rewrite_anchors(pattern: &str, html: &str, quote: char, slugs: &TextMap) -> (r: String)
    ensures
        r@ == rewritten(pattern@, html@, anchor_rewriting(quote, slugs@)),
{
    let f = |t: &[char], m: &Found| -> (r: String)
        requires
            fits(t@.len(), m@),
        ensures
            r@ == anchor_rewriting(quote, slugs@)(t@, m@),
        {
            rewrite_anchor_href(
                m.whole(t),
                &m.group_text(t, 1),
                &m.group_text(t, 2),
                &m.group_text(t, 3),
                quote,
                slugs,
            )
        };
    rewrite(pattern, html, f, Ghost(anchor_rewriting(quote, slugs@)))
}

/// Rewrites links to the headings of a page to the anchors that Markdown
/// gives them.
pub fn rewrite_internal_heading_links(html: &str) -> (r: String)
    ensures
        r@ == headings_linked(html@),
{
    let slugs = heading_id_to_markdown_slug_map(html);
    if slugs.is_empty() {
        return html.to_owned();
    }
    let html = rewrite_anchors(ANCHOR_DOUBLE, html, '"', &slugs);
    rewrite_anchors(ANCHOR_SINGLE, &html, '\'', &slugs)
}

proof fn lemma_slugs_cover(list: Seq<(Seq<char>, Seq<char>)>, n: int, i: int)
    requires
        0 <= i < n <= list.len(),
        id_of(list[i].0) is Some,
    ensures
        headings_upto(list, n).slugs.contains_key(id_of(list[i].0)->0),
    decreases n,
{
    if i < n - 1 {
        lemma_slugs_cover(list, n - 1, i);
    }
}

/// Every heading with an identifier has a slug, so that a link to it is
/// rewritten.
pub proof fn law_every_heading_has_a_slug(t: Seq<char>, i: int)
    requires
        0 <= i < page_headings(t).len(),
        id_of(page_headings(t)[i].0) is Some,
    ensures
        page_slugs(t).contains_key(id_of(page_headings(t)[i].0)->0),
{
    lemma_slugs_cover(page_headings(t), page_headings(t).len() as int, i);
}

/// The slug of heading `i`, given the headings before it.
pub open spec fn slug_of(list: Seq<(Seq<char>, Seq<char>)>, i: int) -> Seq<char> {
    given_slug(headings_upto(list, i).counts, heading_slug(stripped(list[i].1)))
}

proof fn lemma_slug_stays_used(list: Seq<(Seq<char>, Seq<char>)>, i: int, n: int)
    requires
        0 <= i < n <= list.len(),
        list.len() <= usize::MAX,
        id_of(list[i].0) is Some,
    ensures
        headings_upto(list, n).counts.contains_key(slug_of(list, i)),
    decreases n,
{
    let before = headings_upto(list, n - 1).counts;
    let plain = heading_slug(stripped(list[n - 1].1));
    lemma_counts_bounded(list, n - 1, plain);
    if id_of(list[n - 1].0) is Some {
        lemma_given_slug_is_free(before, plain);
    }
    if i < n - 1 {
        lemma_slug_stays_used(list, i, n - 1);
    }
}

/// The slugs of two headings of a page differ, so that each link leads to its
/// own heading.
pub proof fn law_slugs_of_a_page_differ(list: Seq<(Seq<char>, Seq<char>)>, i: int, j: int)
    requires
        0 <= i < j < list.len(),
        list.len() <= usize::MAX,
        id_of(list[i].0) is Some,
        id_of(list[j].0) is Some,
    ensures
        slug_of(list, i) != slug_of(list, j),
{
    let counts = headings_upto(list, j).counts;
    let plain = heading_slug(stripped(list[j].1));
    lemma_slug_stays_used(list, i, j);
    lemma_counts_bounded(list, j, plain);
    lemma_given_slug_is_free(counts, plain);
}

/// Whether one of the first `n` headings with an identifier has a slug.
pub open spec fn slug_is_taken(list: Seq<(Seq<char>, Seq<char>)>, n: int, slug: Seq<char>) -> bool {
    exists|j: int|
        0 <= j < n && id_of((#[trigger] list[j]).0) is Some && slug_of(list, j) == slug
}

proof fn lemma_counted_is_taken(list: Seq<(Seq<char>, Seq<char>)>, n: int, slug: Seq<char>)
    requires
        0 <= n <= list.len(),
        list.len() <= usize::MAX,
    ensures
        headings_upto(list, n).counts.contains_key(slug) <==> slug_is_taken(list, n, slug),
    decreases n,
{
    if slug_is_taken(list, n, slug) {
        let j = choose|j: int|
            0 <= j < n && id_of((#[trigger] list[j]).0) is Some && slug_of(list, j) == slug;
        lemma_slug_stays_used(list, j, n);
    }
    if headings_upto(list, n).counts.contains_key(slug) {
        lemma_counted_is_taken(list, n - 1, slug);
        let before = headings_upto(list, n - 1).counts;
        if before.contains_key(slug) {
            let j = choose|j: int|
                0 <= j < n - 1 && id_of((#[trigger] list[j]).0) is Some && slug_of(list, j) == slug;
            assert(id_of(list[j].0) is Some);
        } else {
            assert(id_of(list[n - 1].0) is Some);
            assert(slug_of(list, n - 1) == slug);
        }
    }
}

/// A heading has its plain slug where no heading before it has that one, and
/// otherwise the slug with the least number, from one on, that none before it
/// has.
pub proof fn law_repeated_heading_gets_the_least_number(
    list: Seq<(Seq<char>, Seq<char>)>,
    i: int,
)
    requires
        0 <= i < list.len(),
        list.len() <= usize::MAX,
    ensures
        ({
            let plain = heading_slug(stripped(list[i].1));
            if slug_is_taken(list, i, plain) {
                exists|n: nat|
                    n >= 1 && slug_of(list, i) == plain + "-"@ + #[trigger] decimal(n)
                        && forall|k: nat|
                        1 <= k < n ==> slug_is_taken(list, i, plain + "-"@ + #[trigger] decimal(k))
            } else {
                slug_of(list, i) == plain
            }
        }),
{
    let plain = heading_slug(stripped(list[i].1));
    let counts = headings_upto(list, i).counts;
    lemma_counted_is_taken(list, i, plain);
    if slug_is_taken(list, i, plain) {
        lemma_counts_bounded(list, i, plain);
        lemma_some_slug_is_free(counts, plain);
        let n = slug_number(counts, plain);
        assert(is_least_free(counts, plain, n));
        assert(slug_of(list, i) == plain + "-"@ + decimal(n));
        assert forall|k: nat| 1 <= k < n implies slug_is_taken(
            list,
            i,
            plain + "-"@ + #[trigger] decimal(k),
        ) by {
            assert(counts.contains_key(repeated_slug(plain, k)));
            lemma_counted_is_taken(list, i, repeated_slug(plain, k));
        }
    }
}

/// A link to a heading goes to its slug, where its identifier is its own.
pub proof fn law_link_goes_to_its_heading(t: Seq<char>, i: int)
    requires
        0 <= i < page_headings(t).len(),
        id_of(page_headings(t)[i].0) is Some,
        forall|j: int|
            i < j < page_headings(t).len() ==> id_of((#[trigger] page_headings(t)[j]).0) != id_of(
                page_headings(t)[i].0,
            ),
    ensures
        page_slugs(t).contains_key(id_of(page_headings(t)[i].0)->0),
        page_slugs(t)[id_of(page_headings(t)[i].0)->0] == slug_of(page_headings(t), i),
{
    lemma_slug_of_id(page_headings(t), i, page_headings(t).len() as int);
}

proof fn lemma_slug_of_id(list: Seq<(Seq<char>, Seq<char>)>, i: int, n: int)
    requires
        0 <= i < n <= list.len(),
        id_of(list[i].0) is Some,
        forall|j: int| i < j < n ==> id_of((#[trigger] list[j]).0) != id_of(list[i].0),
    ensures
        headings_upto(list, n).slugs.contains_key(id_of(list[i].0)->0),
        headings_upto(list, n).slugs[id_of(list[i].0)->0] == slug_of(list, i),
    decreases n,
{
    if i < n - 1 {
        assert(id_of(list[n - 1].0) != id_of(list[i].0));
        lemma_slug_of_id(list, i, n - 1);
    }
}

/// The slugs with different numbers behind the same plain slug differ.
pub proof fn law_repeated_slugs_differ(base: Seq<char>, i: nat, j: nat)
    requires
        i != j,
    ensures
        repeated_slug(base, i) != repeated_slug(base, j),
{
    reveal_strlit("-");
    law_decimal_reads_back(i);
    law_decimal_reads_back(j);
    let a = repeated_slug(base, i);
    let b = repeated_slug(base, j);
    if a == b {
        assert(i > 0 ==> decimal(i) =~= a.skip(base.len() as int + 1));
        assert(j > 0 ==> decimal(j) =~= b.skip(base.len() as int + 1));
        assert(i == 0 ==> a.len() == base.len());
        assert(j == 0 ==> b.len() == base.len());
    }
}

/// A slug holds letters, numbers, `_` and `-` only, and is never empty.
pub proof fn law_slug_is_an_anchor(t: Seq<char>)
    ensures
        heading_slug(t).len() > 0,
        heading_slug(t) == "section"@ || forall|i: int|
            0 <= i < heading_slug(t).len() ==> unicode_alphanumeric(#[trigger] heading_slug(t)[i])
                || heading_slug(t)[i] == '_' || heading_slug(t)[i] == '-',
{
    reveal_strlit("section");
    lemma_slug_chars(unicode_lower(trimmed(t, white())));
}

proof fn lemma_slug_chars(t: Seq<char>)
    ensures
        forall|i: int|
            0 <= i < slug_chars(t).len() ==> unicode_alphanumeric(#[trigger] slug_chars(t)[i])
                || slug_chars(t)[i] == '_' || slug_chars(t)[i] == '-',
    decreases t.len(),
{
    if t.len() > 0 {
        lemma_slug_chars(t.drop_last());
        let head = slug_chars(t.drop_last());
        assert forall|i: int| 0 <= i < slug_chars(t).len() implies unicode_alphanumeric(
            #[trigger] slug_chars(t)[i],
        ) || slug_chars(t)[i] == '_' || slug_chars(t)[i] == '-' by {
            if i < head.len() {
                assert(slug_chars(t)[i] == head[i]);
            } else {
                assert(slug_chars(t)[i] == slug_char(t.last())[i - head.len()]);
            }
        }
    }
}

} // verus!
