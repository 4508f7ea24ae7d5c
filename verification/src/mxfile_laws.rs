//! What a draw.io document holds, and what is kept of it.

use vstd::prelude::*;
use vstd::utf8::encode_utf8;

use crate::mxfile::{
    byte_part, diagram_end, digest_place, document, document_from, document_tail, filtered,
    hex_text, id_digests, id_from, parsed_document, root_attributes, root_tag, sha1_digest,
    single_document, wanted_place, AttributeModel, DiagramModel, DocumentModel, EventModel,
};
use crate::pattern::{char_index, width};
use crate::text::{
    digit_value, has_prefix, has_suffix, last_index, lemma_last_index_from, lower, occurs_at,
};

verus! {

// ── Digests ────────────────────────────────────────────────────────

/// Every byte is written as two digits of base sixteen, which read back as the
/// byte.
pub proof fn law_hex_text_reads_back(bytes: Seq<u8>, i: int)
    requires
        0 <= i < bytes.len(),
    ensures
        hex_text(bytes).len() == 2 * bytes.len(),
        digit_value(hex_text(bytes)[2 * i], 16) matches Some(high) && digit_value(
            hex_text(bytes)[2 * i + 1],
            16,
        ) matches Some(low) && high * 16 + low == bytes[i] as int,
    decreases bytes.len(),
{
    lemma_hex_len(bytes);
    lemma_hex_len(bytes.drop_last());
    if i < bytes.len() - 1 {
        law_hex_text_reads_back(bytes.drop_last(), i);
        assert(hex_text(bytes)[2 * i] == hex_text(bytes.drop_last())[2 * i]);
        assert(hex_text(bytes)[2 * i + 1] == hex_text(bytes.drop_last())[2 * i + 1]);
    } else {
        let b = bytes.last() as int;
        assert(b == (b / 16) * 16 + b % 16);
    }
}

proof fn lemma_hex_len(bytes: Seq<u8>)
    ensures
        hex_text(bytes).len() == 2 * bytes.len(),
    decreases bytes.len(),
{
    if bytes.len() > 0 {
        lemma_hex_len(bytes.drop_last());
    }
}

/// The place of a digest is the first at which it stands, and there is none
/// only where it stands nowhere.
pub proof fn law_digest_place_is_the_first(digests: Seq<Seq<char>>, digest: Seq<char>, from: int)
    requires
        0 <= from,
    ensures
        match digest_place(digests, digest, from) {
            Some(k) => from <= k < digests.len() && digests[k] == digest && forall|j: int|
                from <= j < k ==> #[trigger] digests[j] != digest,
            None => forall|j: int| from <= j < digests.len() ==> #[trigger] digests[j] != digest,
        },
    decreases digests.len() - from,
{
    if from < digests.len() && digests[from] != digest {
        law_digest_place_is_the_first(digests, digest, from + 1);
    }
}

/// Without a hash the first diagram is asked for; with one, the first whose
/// digest is the hash in small letters.
pub proof fn law_wanted_diagram_has_the_digest(digests: Seq<Seq<char>>, hash: Seq<char>)
    ensures
        wanted_place(digests, None) == if digests.len() > 0 {
            Some(0int)
        } else {
            None
        },
        match wanted_place(digests, Some(hash)) {
            Some(k) => 0 <= k < digests.len() && digests[k] == lower(hash),
            None => !digests.contains(lower(hash)),
        },
{
    law_digest_place_is_the_first(digests, lower(hash), 0);
}

// ── Attributes of the root ─────────────────────────────────────────

proof fn lemma_attributes_prefix(
    a: Seq<Option<AttributeModel>>,
    b: Seq<Option<AttributeModel>>,
    n: int,
)
    requires
        n <= a.len(),
    ensures
        root_attributes(a + b, n) == root_attributes(a, n),
    decreases n,
{
    if n > 0 {
        lemma_attributes_prefix(a, b, n - 1);
        assert((a + b)[n - 1] == a[n - 1]);
    }
}

proof fn lemma_attributes_joined(
    a: Seq<Option<AttributeModel>>,
    b: Seq<Option<AttributeModel>>,
    n: int,
)
    requires
        0 <= n <= b.len(),
    ensures
        root_attributes(a + b, a.len() + n) == root_attributes(a, a.len() as int)
            + root_attributes(b, n),
    decreases n,
{
    if n == 0 {
        lemma_attributes_prefix(a, b, a.len() as int);
        assert(root_attributes(a, a.len() as int) + root_attributes(b, 0) =~= root_attributes(
            a,
            a.len() as int,
        ));
    } else {
        lemma_attributes_joined(a, b, n - 1);
        assert((a + b)[a.len() + n - 1] == b[n - 1]);
        assert(root_attributes(a + b, a.len() + n) =~= root_attributes(a, a.len() as int)
            + root_attributes(b, n));
    }
}

/// The root keeps its attributes in order and as they are written, but for the
/// number of pages, which is one.
pub proof fn law_root_keeps_its_attributes(
    a: Seq<Option<AttributeModel>>,
    x: AttributeModel,
    b: Seq<Option<AttributeModel>>,
)
    ensures
        root_attributes(a + seq![Some(x)] + b, a.len() + 1int + b.len()) == root_attributes(
            a,
            a.len() as int,
        ) + (" "@ + x.key + "=\""@ + (if x.key == "pages"@ {
            "1"@
        } else {
            x.value
        }) + "\""@) + root_attributes(b, b.len() as int),
{
    let one = seq![Some(x)];
    lemma_attributes_joined(a + one, b, b.len() as int);
    lemma_attributes_joined(a, one, 1);
    reveal_with_fuel(root_attributes, 2);
    let written = " "@ + x.key + "=\""@ + (if x.key == "pages"@ {
        "1"@
    } else {
        x.value
    }) + "\""@;
    assert(root_attributes(one, 1) =~= written);
}

// ── Diagrams ───────────────────────────────────────────────────────

/// A diagram of a document: the attributes of its element, what stands in it,
/// where it starts and where it ends.
pub struct DiagramEvents {
    pub attributes: Seq<Option<AttributeModel>>,
    pub content: Seq<EventModel>,
    pub start: usize,
    pub end: usize,
}

/// Whether no tag in a list of events is that of a diagram.
pub open spec fn no_diagram_tags(events: Seq<EventModel>) -> bool {
    forall|i: int|
        0 <= i < events.len() ==> match #[trigger] events[i] {
            EventModel::Start { name, attributes, start } => name != "diagram"@,
            EventModel::End { name, end } => name != "diagram"@,
            _ => true,
        }
}

/// The events of a diagram.
pub open spec fn diagram_events(d: DiagramEvents) -> Seq<EventModel> {
    seq![EventModel::Start { name: "diagram"@, attributes: d.attributes, start: d.start }]
        + d.content + seq![EventModel::End { name: "diagram"@, end: d.end }]
}

/// The events of the diagrams of a document from number `k` on, and of the end
/// of its root.
pub open spec fn body_events(ds: Seq<DiagramEvents>, k: int) -> Seq<EventModel>
    decreases ds.len() - k,
{
    if k < 0 || k >= ds.len() {
        seq![EventModel::End { name: "mxfile"@, end: 0 }]
    } else {
        diagram_events(ds[k]) + body_events(ds, k + 1)
    }
}

proof fn lemma_diagram_end_shift(events: Seq<EventModel>, k: int, i: int, depth: int)
    requires
        0 <= k <= i <= events.len(),
    ensures
        diagram_end(events, i, depth) == match diagram_end(events.skip(k), i - k, depth) {
            Some(j) => Some(j + k),
            None => None,
        },
    decreases events.len() - i,
{
    if i < events.len() {
        assert(events.skip(k)[i - k] == events[i]);
        let next = match events[i] {
            EventModel::Start { name, attributes, start } => if name == "diagram"@ {
                depth + 1
            } else {
                depth
            },
            EventModel::End { name, end } => if name != "diagram"@ {
                depth
            } else {
                depth - 1
            },
            _ => depth,
        };
        lemma_diagram_end_shift(events, k, i + 1, next);
    }
}

proof fn lemma_document_shift(events: Seq<EventModel>, k: int, i: int, d: DocumentModel)
    requires
        0 <= k <= i <= events.len(),
    ensures
        document_from(events, i, d) == document_from(events.skip(k), i - k, d),
    decreases events.len() - i,
{
    if i < events.len() {
        let u = events.skip(k);
        assert(u[i - k] == events[i]);
        match events[i] {
            EventModel::Start { name, attributes, start } => {
                if d.takes_diagrams() && name == "diagram"@ {
                    lemma_diagram_end_shift(events, k, i + 1, 0);
                    if let Some(j) = diagram_end(events, i + 1, 0) {
                        if i < j < events.len() {
                            assert(u[j - k] == events[j]);
                            let end = events[j]->End_end;
                            lemma_document_shift(
                                events,
                                k,
                                j + 1,
                                d.with_diagram(
                                    DiagramModel { id: id_from(attributes, 0), start, end },
                                ),
                            );
                        }
                    }
                } else {
                    lemma_document_shift(events, k, i + 1, d.opened(name, attributes));
                }
            },
            EventModel::End { name, end } => {
                lemma_document_shift(events, k, i + 1, d.closed());
            },
            EventModel::Empty { name, attributes, start, end } => {
                if d.takes_diagrams() && name == "diagram"@ {
                    lemma_document_shift(
                        events,
                        k,
                        i + 1,
                        d.with_diagram(DiagramModel { id: id_from(attributes, 0), start, end }),
                    );
                } else {
                    lemma_document_shift(
                        events,
                        k,
                        i + 1,
                        d.opened(name, attributes).closed(),
                    );
                }
            },
            EventModel::Other => {
                lemma_document_shift(events, k, i + 1, d);
            },
        }
    }
}

proof fn lemma_diagram_closed(events: Seq<EventModel>, n: int, i: int)
    requires
        0 <= i <= n < events.len(),
        no_diagram_tags(events.take(n)),
        events[n] matches EventModel::End { name, end } && name == "diagram"@,
    ensures
        diagram_end(events, i, 0) == Some(n),
    decreases n - i,
{
    if i < n {
        assert(events.take(n)[i] == events[i]);
        lemma_diagram_closed(events, n, i + 1);
    }
}

proof fn lemma_body(ds: Seq<DiagramEvents>, k: int, d: DocumentModel)
    requires
        0 <= k <= ds.len(),
        forall|j: int| 0 <= j < ds.len() ==> no_diagram_tags((#[trigger] ds[j]).content),
        d.takes_diagrams(),
    ensures
        document_from(body_events(ds, k), 0, d) == Some(
            DocumentModel {
                depth: 0,
                diagrams: d.diagrams + Seq::new(
                    (ds.len() - k) as nat,
                    |j: int|
                        DiagramModel {
                            id: id_from(ds[k + j].attributes, 0),
                            start: ds[k + j].start,
                            end: ds[k + j].end,
                        },
                ),
                ..d
            },
        ),
    decreases ds.len() - k,
{
    let events = body_events(ds, k);
    let found = Seq::new(
        (ds.len() - k) as nat,
        |j: int|
            DiagramModel {
                id: id_from(ds[k + j].attributes, 0),
                start: ds[k + j].start,
                end: ds[k + j].end,
            },
    );
    if k == ds.len() {
        assert(d.diagrams + found =~= d.diagrams);
        reveal_with_fuel(document_from, 2);
    } else {
        let one = ds[k];
        let rest = body_events(ds, k + 1);
        let n = one.content.len() as int;
        let last = n + 1;
        assert(events[0] == EventModel::Start {
            name: "diagram"@,
            attributes: one.attributes,
            start: one.start,
        });
        assert(events[last] == EventModel::End { name: "diagram"@, end: one.end });
        let tail = events.skip(1);
        assert(tail.take(n) =~= one.content);
        assert(tail[n] == events[last]);
        lemma_diagram_closed(tail, n, 0);
        lemma_diagram_end_shift(events, 1, 1, 0);
        let model = DiagramModel { id: id_from(one.attributes, 0), start: one.start, end: one.end };
        let next = d.with_diagram(model);
        lemma_document_shift(events, last + 1, last + 1, next);
        assert(events.skip(last + 1) =~= rest);
        lemma_body(ds, k + 1, next);
        let later = Seq::new(
            (ds.len() - (k + 1)) as nat,
            |j: int|
                DiagramModel {
                    id: id_from(ds[k + 1 + j].attributes, 0),
                    start: ds[k + 1 + j].start,
                    end: ds[k + 1 + j].end,
                },
        );
        assert(d.diagrams.push(model) + later =~= d.diagrams + found);
    }
}

/// A document of an `mxfile` root with diagrams in it holds each of them, in
/// order: its identifier, where it starts and where it ends.
pub proof fn law_document_lists_every_diagram(
    attributes: Seq<Option<AttributeModel>>,
    start: usize,
    ds: Seq<DiagramEvents>,
)
    requires
        forall|j: int| 0 <= j < ds.len() ==> no_diagram_tags((#[trigger] ds[j]).content),
    ensures
        document(
            seq![EventModel::Start { name: "mxfile"@, attributes, start }] + body_events(ds, 0),
        ) == Some(
            (
                root_tag(attributes),
                Seq::new(
                    ds.len(),
                    |j: int|
                        DiagramModel {
                            id: id_from(ds[j].attributes, 0),
                            start: ds[j].start,
                            end: ds[j].end,
                        },
                ),
            ),
        ),
{
    let root = EventModel::Start { name: "mxfile"@, attributes, start };
    let events = seq![root] + body_events(ds, 0);
    let d = DocumentModel::unread();
    let next = d.opened("mxfile"@, attributes);
    let found = Seq::new(
        ds.len(),
        |j: int|
            DiagramModel {
                id: id_from(ds[j].attributes, 0),
                start: ds[j].start,
                end: ds[j].end,
            },
    );
    assert(events[0] == root);
    lemma_document_shift(events, 1, 1, next);
    assert(events.skip(1) =~= body_events(ds, 0));
    lemma_body(ds, 0, next);
    assert(next.diagrams + Seq::new(
        (ds.len() - 0) as nat,
        |j: int|
            DiagramModel {
                id: id_from(ds[0 + j].attributes, 0),
                start: ds[0 + j].start,
                end: ds[0 + j].end,
            },
    ) =~= found);
}

proof fn lemma_first_id(attributes: Seq<Option<AttributeModel>>, i: int, k: int)
    requires
        0 <= i <= k < attributes.len(),
        forall|j: int|
            i <= j < k ==> !(#[trigger] attributes[j] matches Some(a) && a.key == "id"@),
    ensures
        id_from(attributes, i) == id_from(attributes, k),
    decreases k - i,
{
    if i < k {
        lemma_first_id(attributes, i + 1, k);
    }
}

/// A diagram has the identifier that the first attribute of that name tells,
/// and an empty one where it tells none.
pub proof fn law_first_identifier_counts(
    attributes: Seq<Option<AttributeModel>>,
    a: AttributeModel,
    k: int,
)
    requires
        0 <= k < attributes.len(),
        attributes[k] == Some(a),
        a.key == "id"@,
        forall|j: int|
            0 <= j < k ==> !(#[trigger] attributes[j] matches Some(other) && other.key == "id"@),
    ensures
        id_from(attributes, 0) == match a.text {
            Some(id) => id,
            None => Seq::empty(),
        },
{
    lemma_first_id(attributes, 0, k);
}

/// A diagram without content counts as one.
pub proof fn law_empty_diagram_counts(
    events: Seq<EventModel>,
    i: int,
    d: DocumentModel,
    attributes: Seq<Option<AttributeModel>>,
    start: usize,
    end: usize,
)
    requires
        0 <= i < events.len(),
        events[i] == (EventModel::Empty { name: "diagram"@, attributes, start, end }),
        d.depth == 1,
        d.in_root,
    ensures
        document_from(events, i, d) == document_from(
            events,
            i + 1,
            DocumentModel {
                diagrams: d.diagrams.push(
                    DiagramModel { id: id_from(attributes, 0), start, end },
                ),
                ..d
            },
        ),
{
}

/// An element that is no diagram changes nothing, and neither does a diagram
/// in such an element: only those directly in the root count.
pub proof fn law_other_elements_change_nothing(
    events: Seq<EventModel>,
    i: int,
    d: DocumentModel,
    name: Seq<char>,
)
    requires
        0 <= i,
        i + 4 <= events.len(),
        d.depth >= 1,
        name != "diagram"@,
        events[i] matches EventModel::Start { name: outer, .. } && outer == name,
        events[i + 1] matches EventModel::Start { name: inner, .. } && inner == "diagram"@,
        events[i + 2] matches EventModel::End { name: inner, .. } && inner == "diagram"@,
        events[i + 3] matches EventModel::End { name: outer, .. } && outer == name,
    ensures
        document_from(events, i, d) == document_from(events, i + 4, d),
{
    reveal_with_fuel(document_from, 5);
    let attributes = events[i]->Start_attributes;
    let inner = events[i + 1]->Start_attributes;
    let once = d.opened(name, attributes);
    let twice = once.opened("diagram"@, inner);
    assert(twice.closed() == once);
    assert(once.closed() == d);
}

/// A document with another root has no diagrams.
pub proof fn law_other_roots_hold_no_diagrams(
    events: Seq<EventModel>,
    i: int,
    d: DocumentModel,
    result: DocumentModel,
)
    requires
        0 <= i,
        d.depth >= 0,
        d.depth > 0 ==> !d.in_root,
        document_from(events, i, d) == Some(result),
        forall|j: int|
            i <= j < events.len() ==> !(#[trigger] events[j] matches EventModel::Start { name, .. }
                && name == "mxfile"@) && !(events[j] matches EventModel::Empty { name, .. } && name
                == "mxfile"@),
    ensures
        result.diagrams == d.diagrams,
        result.open == d.open,
    decreases events.len() - i,
{
    if i < events.len() {
        match events[i] {
            EventModel::Start { name, attributes, start } => {
                assert(name != "mxfile"@);
                law_other_roots_hold_no_diagrams(events, i + 1, d.opened(name, attributes), result);
            },
            EventModel::End { name, end } => {
                law_other_roots_hold_no_diagrams(events, i + 1, d.closed(), result);
            },
            EventModel::Empty { name, attributes, start, end } => {
                assert(name != "mxfile"@);
                law_other_roots_hold_no_diagrams(
                    events,
                    i + 1,
                    d.opened(name, attributes).closed(),
                    result,
                );
            },
            EventModel::Other => {
                law_other_roots_hold_no_diagrams(events, i + 1, d, result);
            },
        }
    }
}

/// A diagram in a diagram belongs to it: the outer one ends behind it.
pub proof fn law_inner_diagram_ends_nothing(events: Seq<EventModel>, i: int, depth: int)
    requires
        0 <= i,
        0 <= depth,
        i + 2 <= events.len(),
        events[i] matches EventModel::Start { name, .. } && name == "diagram"@,
        events[i + 1] matches EventModel::End { name, .. } && name == "diagram"@,
    ensures
        diagram_end(events, i, depth) == diagram_end(events, i + 2, depth),
{
    reveal_with_fuel(diagram_end, 3);
}

// ── Cutting out ────────────────────────────────────────────────────

proof fn lemma_encoded_joined(a: Seq<char>, b: Seq<char>)
    ensures
        encode_utf8(a + b) == encode_utf8(a) + encode_utf8(b),
    decreases a.len(),
{
    if a.len() == 0 {
        assert(a + b =~= b);
        assert(encode_utf8(a) + encode_utf8(b) =~= encode_utf8(b));
    } else {
        lemma_encoded_joined(a.drop_first(), b);
        assert((a + b).drop_first() =~= a.drop_first() + b);
        assert(encode_utf8(a + b) =~= encode_utf8(a) + encode_utf8(b));
    }
}

proof fn lemma_char_index_is_in(t: Seq<char>, b: int)
    ensures
        0 <= char_index(t, b) <= t.len(),
    decreases t.len(),
{
    if b > 0 && t.len() > 0 {
        lemma_char_index_is_in(t.drop_first(), b - width(t[0]));
    }
}

/// What stands between two byte positions of a text is what its UTF-8 form
/// holds between them.
pub proof fn law_part_holds_its_bytes(t: Seq<char>, start: usize, end: usize)
    requires
        byte_part(t, start, end) is Some,
    ensures
        end <= encode_utf8(t).len(),
        encode_utf8(byte_part(t, start, end)->0) == encode_utf8(t).subrange(
            start as int,
            end as int,
        ),
{
    let a = char_index(t, start as int);
    let b = char_index(t, end as int);
    lemma_char_index_is_in(t, start as int);
    lemma_char_index_is_in(t, end as int);
    if a <= b {
        let part = t.subrange(a, b);
        assert(t.take(b) =~= t.take(a) + part);
        assert(t =~= t.take(b) + t.skip(b));
        lemma_encoded_joined(t.take(a), part);
        lemma_encoded_joined(t.take(b), t.skip(b));
        assert(encode_utf8(part) =~= encode_utf8(t).subrange(start as int, end as int));
    } else {
        let part = t.subrange(b, a);
        assert(t.take(a) =~= t.take(b) + part);
        lemma_encoded_joined(t.take(b), part);
        assert(encode_utf8(part).len() == 0);
        assert(part.len() > 0);
    }
}

/// A document of one diagram begins with the opening tag of its root, ends as
/// the whole document does, and holds the bytes of the diagram between them.
pub proof fn law_single_document_is_cut_out(xml: Seq<char>, open_tag: Seq<char>, d: DiagramModel)
    requires
        single_document(xml, open_tag, d) is Some,
        last_index(xml, "</mxfile>"@) is Some,
    ensures
        ({
            let one = single_document(xml, open_tag, d)->0;
            let tail = document_tail(xml);
            &&& has_prefix(one, open_tag)
            &&& has_suffix(one, tail)
            &&& has_suffix(xml, tail)
            &&& has_prefix(tail, "</mxfile>"@)
            &&& exists|element: Seq<char>|
                one == open_tag + element + tail && #[trigger] encode_utf8(element) == encode_utf8(
                    xml,
                ).subrange(d.start as int, d.end as int)
        }),
{
    let one = single_document(xml, open_tag, d)->0;
    let tail = document_tail(xml);
    let close = "</mxfile>"@;
    lemma_last_index_from(xml, close, xml.len() - close.len());
    let i = last_index(xml, close)->0;
    assert(occurs_at(xml, close, i));
    assert(xml.subrange(xml.len() - tail.len(), xml.len() as int) =~= tail);
    assert(tail.subrange(0, close.len() as int) =~= xml.subrange(i, i + close.len()));
    assert(one.subrange(0, open_tag.len() as int) =~= open_tag);
    assert(one.subrange(one.len() - tail.len(), one.len() as int) =~= tail);
    law_part_holds_its_bytes(xml, d.start, d.end);
    let element = byte_part(xml, d.start, d.end)->0;
    assert(one == open_tag + element + tail);
}

/// The diagram that is kept of a document is the first whose identifier has
/// the digest that is asked for, in whatever case, and the first of all where
/// no digest is asked for.
pub proof fn law_wanted_diagram_is_kept(
    xml: Seq<char>,
    open_tag: Seq<char>,
    diagrams: Seq<DiagramModel>,
    k: int,
    hash: Seq<char>,
)
    requires
        parsed_document(xml) == Some((open_tag, diagrams)),
        0 <= k < diagrams.len(),
        lower(hash) == hex_text(sha1_digest(encode_utf8(diagrams[k].id))),
        forall|j: int|
            0 <= j < k ==> lower(hash) != hex_text(
                sha1_digest(encode_utf8((#[trigger] diagrams[j]).id)),
            ),
    ensures
        filtered(xml, Some(hash)) == single_document(xml, open_tag, diagrams[k]),
        filtered(xml, None) == single_document(xml, open_tag, diagrams[0]),
{
    let digests = id_digests(diagrams);
    law_digest_place_is_the_first(digests, lower(hash), 0);
    law_wanted_diagram_has_the_digest(digests, hash);
    assert(digests[k] == lower(hash));
    assert forall|j: int| 0 <= j < k implies #[trigger] digests[j] != lower(hash) by {
        assert(diagrams[j].id == diagrams[j].id);
    }
}

/// Nothing is kept of a document without diagrams, or of one that has none
/// with the digest that is asked for.
pub proof fn law_missing_diagram_is_not_kept(
    xml: Seq<char>,
    open_tag: Seq<char>,
    diagrams: Seq<DiagramModel>,
    hash: Seq<char>,
)
    requires
        parsed_document(xml) == Some((open_tag, diagrams)),
        forall|j: int|
            0 <= j < diagrams.len() ==> lower(hash) != hex_text(
                sha1_digest(encode_utf8((#[trigger] diagrams[j]).id)),
            ),
    ensures
        filtered(xml, Some(hash)) is None,
        diagrams.len() == 0 ==> filtered(xml, None) is None,
{
    let digests = id_digests(diagrams);
    law_wanted_diagram_has_the_digest(digests, hash);
    assert forall|j: int| 0 <= j < digests.len() implies #[trigger] digests[j] != lower(
        hash,
    ) by {
        assert(diagrams[j].id == diagrams[j].id);
    }
}

/// The opening tag of a document of one diagram is that of an `mxfile`
/// element. An attribute more is written behind the others, and one that
/// cannot be read is left out.
pub proof fn law_root_tag_holds_its_attributes(
    attributes: Seq<Option<AttributeModel>>,
    x: AttributeModel,
)
    requires
        x.key != "pages"@,
    ensures
        root_tag(Seq::empty()) == "<mxfile>"@,
        root_tag(attributes.push(None)) == root_tag(attributes),
        root_tag(attributes.push(Some(x))) == root_tag(attributes).drop_last() + " "@ + x.key
            + "=\""@ + x.value + "\">"@,
{
    reveal_strlit("<mxfile");
    reveal_strlit("<mxfile>");
    reveal_strlit(">");
    reveal_strlit("\"");
    reveal_strlit("\">");
    let n = attributes.len() as int;
    assert(root_tag(Seq::empty()) =~= "<mxfile>"@);
    assert(attributes.push(None) =~= attributes + seq![None::<AttributeModel>]);
    assert(attributes.push(Some(x)) =~= attributes + seq![Some(x)]);
    lemma_attributes_prefix(attributes, seq![None::<AttributeModel>], n);
    lemma_attributes_prefix(attributes, seq![Some(x)], n);
    assert(root_tag(attributes.push(None)) =~= root_tag(attributes));
    assert(root_tag(attributes.push(Some(x))) =~= root_tag(attributes).drop_last() + " "@ + x.key
        + "=\""@ + x.value + "\">"@);
}

} // verus!
