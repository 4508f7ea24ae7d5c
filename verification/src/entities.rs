//! Escaping and decoding of HTML entities, one undoing the other.

use vstd::prelude::*;

use crate::text::{index_from, lemma_index_from, occurs_at, occurs_in, replaced, replaced_from};
use crate::utils::{attribute_decoded, escaped, escaped_char};

verus! {

/// What the characters of a text become, one after the other.
pub open spec fn blocks(t: Seq<char>, f: spec_fn(char) -> Seq<char>) -> Seq<char>
    decreases t.len(),
{
    if t.len() == 0 {
        Seq::empty()
    } else {
        f(t[0]) + blocks(t.drop_first(), f)
    }
}

pub proof fn lemma_blocks_push(t: Seq<char>, f: spec_fn(char) -> Seq<char>)
    requires
        t.len() > 0,
    ensures
        blocks(t, f) == blocks(t.drop_last(), f) + f(t.last()),
    decreases t.len(),
{
    if t.len() == 1 {
        assert(t.drop_first() =~= Seq::empty());
        assert(t.drop_last() =~= Seq::empty());
        assert(blocks(t, f) =~= blocks(t.drop_last(), f) + f(t.last()));
    } else {
        lemma_blocks_push(t.drop_first(), f);
        assert(t.drop_first().drop_last() =~= t.drop_last().drop_first());
        assert(blocks(t, f) =~= blocks(t.drop_last(), f) + f(t.last()));
    }
}

pub proof fn lemma_escaped_blocks(t: Seq<char>)
    ensures
        escaped(t) == blocks(t, |c: char| escaped_char(c)),
    decreases t.len(),
{
    if t.len() > 0 {
        lemma_escaped_blocks(t.drop_last());
        lemma_blocks_push(t, |c: char| escaped_char(c));
    }
}

/// Texts are escaped part by part.
pub proof fn lemma_escaped_joined(a: Seq<char>, b: Seq<char>)
    ensures
        escaped(a + b) == escaped(a) + escaped(b),
    decreases b.len(),
{
    if b.len() == 0 {
        assert(a + b =~= a);
        assert(escaped(a) + escaped(b) =~= escaped(a));
    } else {
        lemma_escaped_joined(a, b.drop_last());
        assert((a + b).drop_last() =~= a + b.drop_last());
        assert(escaped(a + b) =~= escaped(a) + escaped(b));
    }
}

pub proof fn lemma_plain_blocks(t: Seq<char>)
    ensures
        blocks(t, |c: char| seq![c]) == t,
    decreases t.len(),
{
    if t.len() > 0 {
        lemma_plain_blocks(t.drop_first());
        assert(blocks(t, |c: char| seq![c]) =~= t);
    }
}

/// Replacing in the rest of a text is replacing in the text that the rest is.
proof fn lemma_replaced_rest(t: Seq<char>, p: Seq<char>, q: Seq<char>, i: int)
    requires
        0 <= i <= t.len(),
    ensures
        replaced_from(t, p, q, i) == replaced(t.skip(i), p, q),
    decreases t.len() - i,
{
    lemma_replaced_shift(t, t.skip(i), p, q, i, 0);
}

proof fn lemma_replaced_shift(
    t: Seq<char>,
    u: Seq<char>,
    p: Seq<char>,
    q: Seq<char>,
    i: int,
    j: int,
)
    requires
        0 <= j <= i,
        i - j <= t.len(),
        u == t.skip(i - j),
    ensures
        replaced_from(t, p, q, i) == replaced_from(u, p, q, j),
    decreases t.len() - i,
{
    if i < t.len() {
        assert(u[j] == t[i]);
        assert(occurs_at(t, p, i) == occurs_at(u, p, j)) by {
            if i + p.len() <= t.len() {
                assert(t.subrange(i, i + p.len()) =~= u.subrange(j, j + p.len()));
            }
        }
        if p.len() > 0 && occurs_at(t, p, i) {
            lemma_replaced_shift(t, u, p, q, i + p.len(), j + p.len());
        } else {
            lemma_replaced_shift(t, u, p, q, i + 1, j + 1);
        }
    }
}

/// Characters at which `p` does not start are copied.
proof fn lemma_replaced_copies(head: Seq<char>, rest: Seq<char>, p: Seq<char>, q: Seq<char>, k: int)
    requires
        0 <= k <= head.len(),
        forall|i: int| k <= i < head.len() ==> !occurs_at(head + rest, p, i),
    ensures
        replaced_from(head + rest, p, q, k) == head.skip(k) + replaced(rest, p, q),
    decreases head.len() - k,
{
    let t = head + rest;
    if k == head.len() {
        lemma_replaced_rest(t, p, q, k);
        assert(t.skip(k) =~= rest);
        assert(head.skip(k) + replaced(rest, p, q) =~= replaced(rest, p, q));
    } else {
        lemma_replaced_copies(head, rest, p, q, k + 1);
        assert(!occurs_at(t, p, k));
        assert(t[k] == head[k]);
        assert(seq![head[k]] + (head.skip(k + 1) + replaced(rest, p, q)) =~= head.skip(k)
            + replaced(rest, p, q));
    }
}

/// An entity: an ampersand and no other one.
spec fn is_entity(p: Seq<char>) -> bool {
    p.len() >= 2 && p[0] == '&' && forall|i: int| 1 <= i < p.len() ==> (#[trigger] p[i]) != '&'
}

/// Whether a character stands for itself, or for an entity other than `p`,
/// told from it by its second character, or for `p`.
spec fn told_from(p: Seq<char>, f: spec_fn(char) -> Seq<char>, c: char) -> bool {
    f(c) == seq![c] || f(c) == p || (is_entity(f(c)) && f(c)[1] != p[1])
}

/// An entity that stands at the start of the blocks of a text, where the first
/// character stands for itself, stands in the text itself.
proof fn lemma_entity_in_text(t: Seq<char>, f: spec_fn(char) -> Seq<char>, p: Seq<char>, n: int)
    requires
        is_entity(p),
        forall|c: char| #[trigger] told_from(p, f, c),
        t.len() > 0,
        f(t[0]) == seq![t[0]],
        1 <= n <= p.len(),
        occurs_at(blocks(t, f), p, 0),
    ensures
        n <= t.len(),
        t.take(n) == p.take(n),
        blocks(t, f) == t.take(n) + blocks(t.skip(n), f),
    decreases n,
{
    let b = blocks(t, f);
    assert(b.subrange(0, p.len() as int) == p);
    if n == 1 {
        assert(b[0] == p[0]) by {
            assert(b.subrange(0, p.len() as int)[0] == b[0]);
        }
        assert(t.take(1) =~= seq![t[0]]);
        assert(t.skip(1) =~= t.drop_first());
        assert(t.take(1) =~= p.take(1));
    } else {
        lemma_entity_in_text(t, f, p, n - 1);
        let rest = t.skip(n - 1);
        assert(b[n - 1] == p[n - 1]) by {
            assert(b.subrange(0, p.len() as int)[n - 1] == b[n - 1]);
        }
        assert(b.len() >= n);
        assert(blocks(rest, f).len() > 0);
        assert(rest.len() > 0);
        let c = rest[0];
        assert(b[n - 1] == blocks(rest, f)[0]);
        assert(told_from(p, f, c));
        assert(f(c) == seq![c]) by {
            if f(c) != seq![c] {
                assert(f(c)[0] == '&');
                assert(blocks(rest, f)[0] == f(c)[0]);
            }
        }
        assert(blocks(rest, f)[0] == c);
        assert(t.skip(n) =~= rest.drop_first());
        assert(t.take(n) =~= t.take(n - 1).push(c));
        assert(p.take(n) =~= p.take(n - 1).push(p[n - 1]));
        assert(b =~= t.take(n) + blocks(t.skip(n), f));
    }
}

/// Decoding one entity decodes the characters that stand for it, and nothing
/// else, in a text in which the entity does not stand by itself.
proof fn lemma_decode_step(
    t: Seq<char>,
    f: spec_fn(char) -> Seq<char>,
    g: spec_fn(char) -> Seq<char>,
    p: Seq<char>,
    q: Seq<char>,
)
    requires
        is_entity(p),
        forall|c: char| #[trigger] told_from(p, f, c),
        forall|c: char| (#[trigger] f(c)) == p ==> g(c) == q,
        forall|c: char| (#[trigger] f(c)) != p ==> g(c) == f(c),
        f('&') != seq!['&'] || !occurs_in(t, p),
    ensures
        replaced(blocks(t, f), p, q) == blocks(t, g),
    decreases t.len(),
{
    let b = blocks(t, f);
    if t.len() == 0 {
        assert(replaced(b, p, q) =~= blocks(t, g));
    } else {
        let rest_t = t.drop_first();
        let rest = blocks(rest_t, f);
        let head = f(t[0]);
        assert(b == head + rest);
        lemma_index_from(t, p, 0);
        lemma_index_from(rest_t, p, 0);
        if !occurs_in(t, p) {
            assert(!occurs_in(rest_t, p)) by {
                if occurs_in(rest_t, p) {
                    let i = index_from(rest_t, p, 0)->0;
                    assert(rest_t.subrange(i, i + p.len()) =~= t.subrange(
                        i + 1,
                        i + 1 + p.len(),
                    ));
                    assert(occurs_at(t, p, i + 1));
                }
            }
        }
        lemma_decode_step(rest_t, f, g, p, q);
        assert(told_from(p, f, t[0]));
        if head == p {
            assert(b.subrange(0, p.len() as int) =~= p);
            assert(occurs_at(b, p, 0));
            lemma_replaced_rest(b, p, q, p.len() as int);
            assert(b.skip(p.len() as int) =~= rest);
        } else {
            assert forall|i: int| 0 <= i < head.len() implies !occurs_at(head + rest, p, i) by {
                if occurs_at(b, p, i) {
                    let part = b.subrange(i, i + p.len());
                    assert(part[0] == b[i] && part[1] == b[i + 1]);
                    assert(b[i] == head[i]);
                    if head == seq![t[0]] {
                        assert(t[0] == '&');
                        lemma_entity_in_text(t, f, p, p.len() as int);
                        assert(t.take(p.len() as int) =~= t.subrange(0, p.len() as int));
                        assert(p.take(p.len() as int) =~= p);
                        assert(occurs_at(t, p, 0));
                    } else {
                        assert(i == 0) by {
                            if i > 0 {
                                assert(head[i] != '&');
                            }
                        }
                        assert(b[1] == head[1]);
                    }
                }
            }
            lemma_replaced_copies(head, rest, p, q, 0);
            assert(head.skip(0) =~= head);
        }
    }
}

/// Decoding undoes escaping, unless the text holds an entity of its own that
/// the decoding would take for one.
pub proof fn law_decoding_undoes_escaping(t: Seq<char>)
    requires
        !occurs_in(t, "&quot;"@),
        !occurs_in(t, "&#39;"@),
        !occurs_in(t, "&lt;"@),
        !occurs_in(t, "&gt;"@),
    ensures
        attribute_decoded(escaped(t)) == t,
{
    reveal_strlit("&amp;");
    reveal_strlit("&");
    reveal_strlit("&quot;");
    reveal_strlit("\"");
    reveal_strlit("&#39;");
    reveal_strlit("'");
    reveal_strlit("&lt;");
    reveal_strlit("<");
    reveal_strlit("&gt;");
    reveal_strlit(">");
    assert("&"@ =~= seq!['&']);
    assert("\""@ =~= seq!['"']);
    assert("<"@ =~= seq!['<']);
    assert(">"@ =~= seq!['>']);
    let f0 = |c: char| escaped_char(c);
    let f1 = |c: char|
        if c == '&' {
            seq!['&']
        } else {
            escaped_char(c)
        };
    let f2 = |c: char|
        if c == '<' {
            "&lt;"@
        } else if c == '>' {
            "&gt;"@
        } else {
            seq![c]
        };
    let f3 = |c: char|
        if c == '>' {
            "&gt;"@
        } else {
            seq![c]
        };
    let f4 = |c: char| seq![c];
    let second = |s: Seq<char>| s[1];
    assert(second("&amp;"@) == 'a' && second("&quot;"@) == 'q' && second("&lt;"@) == 'l' && second(
        "&gt;"@,
    ) == 'g' && second("&#39;"@) == '#');
    assert forall|c: char| (#[trigger] f0(c)) == "&amp;"@ implies c == '&' by {
        assert(second(f0(c)) == 'a');
        if c == '<' {
            assert(second(f0(c)) == 'l');
        } else if c == '>' {
            assert(second(f0(c)) == 'g');
        } else if c == '"' {
            assert(second(f0(c)) == 'q');
        } else if c != '&' {
            assert(f0(c).len() == 1);
        }
    }
    assert forall|c: char| (#[trigger] f2(c)) == "&lt;"@ implies c == '<' by {
        assert(second(f2(c)) == 'l');
    }
    lemma_escaped_blocks(t);
    lemma_decode_step(t, f0, f1, "&amp;"@, "&"@);
    lemma_decode_step(t, f1, f2, "&quot;"@, "\""@);
    lemma_decode_step(t, f2, f2, "&#39;"@, "'"@);
    lemma_decode_step(t, f2, f3, "&lt;"@, "<"@);
    lemma_decode_step(t, f3, f4, "&gt;"@, ">"@);
    lemma_plain_blocks(t);
}

} // verus!
