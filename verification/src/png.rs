//! Diagram sources embedded in PNG files.

use vstd::prelude::*;
use vstd::utf8::{encode_utf8, is_ascii_chars_encode_utf8};

use crate::percent::{
    lemma_decode_bytes_text, percent_decoded_bytes, percent_encode, percent_encoded,
    COMPONENT_MARKS,
};

verus! {

// ── Checksums ──────────────────────────────────────────────────────

/// One step of the division by the CRC polynomial.
pub open spec fn crc_step(c: u32) -> u32 {
    if c & 1 != 0 {
        0xedb8_8320u32 ^ (c >> 1)
    } else {
        c >> 1
    }
}

/// The division for all bits of a byte.
pub open spec fn crc_byte(c: u32) -> u32 {
    crc_step(crc_step(crc_step(crc_step(crc_step(crc_step(crc_step(crc_step(c))))))))
}

/// The register after the first `n` bytes.
pub open spec fn crc_register(data: Seq<u8>, n: int) -> u32
    decreases n,
{
    if n <= 0 {
        0xffff_ffff
    } else {
        crc_byte(crc_register(data, n - 1) ^ (data[n - 1] as u32))
    }
}

/// The CRC-32 checksum of a run of bytes.
pub open spec fn checksum(data: Seq<u8>) -> u32 {
    crc_register(data, data.len() as int) ^ 0xffff_ffff
}

/// The division is linear: that of a sum is the sum of the divisions.
proof fn lemma_crc_step_linear(a: u32, b: u32)
    ensures
        crc_step(a ^ b) == crc_step(a) ^ crc_step(b),
{
    assert((if (a ^ b) & 1 != 0 {
        0xedb8_8320u32 ^ ((a ^ b) >> 1)
    } else {
        (a ^ b) >> 1
    }) == (if a & 1 != 0 {
        0xedb8_8320u32 ^ (a >> 1)
    } else {
        a >> 1
    }) ^ (if b & 1 != 0 {
        0xedb8_8320u32 ^ (b >> 1)
    } else {
        b >> 1
    })) by (bit_vector);
}

/// The steps for a byte depend on the low byte of the register alone; the
/// rest is shifted.
proof fn lemma_crc_bytes(c: u32)
    ensures
        crc_byte(c) == crc_byte(c & 0xff) ^ (c >> 8),
{
    let a0 = c & 0xff;
    let b0 = c & 0xffff_ff00;
    assert(c == (c & 0xff) ^ (c & 0xffff_ff00)) by (bit_vector);
    let a1 = crc_step(a0);
    let a2 = crc_step(a1);
    let a3 = crc_step(a2);
    let a4 = crc_step(a3);
    let a5 = crc_step(a4);
    let a6 = crc_step(a5);
    let a7 = crc_step(a6);
    assert((c & 0xffff_ff00) & 1 == 0) by (bit_vector);
    let b1 = b0 >> 1;
    assert(((c & 0xffff_ff00) >> 1) & 1 == 0) by (bit_vector);
    let b2 = b1 >> 1;
    assert((((c & 0xffff_ff00) >> 1) >> 1) & 1 == 0) by (bit_vector);
    let b3 = b2 >> 1;
    assert(((((c & 0xffff_ff00) >> 1) >> 1) >> 1) & 1 == 0) by (bit_vector);
    let b4 = b3 >> 1;
    assert((((((c & 0xffff_ff00) >> 1) >> 1) >> 1) >> 1) & 1 == 0) by (bit_vector);
    let b5 = b4 >> 1;
    assert(((((((c & 0xffff_ff00) >> 1) >> 1) >> 1) >> 1) >> 1) & 1 == 0) by (bit_vector);
    let b6 = b5 >> 1;
    assert((((((((c & 0xffff_ff00) >> 1) >> 1) >> 1) >> 1) >> 1) >> 1) & 1 == 0) by (bit_vector);
    let b7 = b6 >> 1;
    assert(((((((((c & 0xffff_ff00) >> 1) >> 1) >> 1) >> 1) >> 1) >> 1) >> 1) & 1 == 0)
        by (bit_vector);
    assert(((((((((c & 0xffff_ff00) >> 1) >> 1) >> 1) >> 1) >> 1) >> 1) >> 1) >> 1 == c >> 8)
        by (bit_vector);
    lemma_crc_step_linear(a0, b0);
    lemma_crc_step_linear(a1, b1);
    lemma_crc_step_linear(a2, b2);
    lemma_crc_step_linear(a3, b3);
    lemma_crc_step_linear(a4, b4);
    lemma_crc_step_linear(a5, b5);
    lemma_crc_step_linear(a6, b6);
    lemma_crc_step_linear(a7, b7);
}

fn step(c: u32) -> (r: u32)
    ensures
        r == crc_step(c),
{
    if c & 1 != 0 {
        0xedb8_8320u32 ^ (c >> 1)
    } else {
        c >> 1
    }
}

/// The division for every byte.
fn crc_table() -> (r: Vec<u32>)
    ensures
        r.len() == 256,
        forall|k: int| 0 <= k < 256 ==> (#[trigger] r[k]) == crc_byte(k as u32),
{
    let mut table: Vec<u32> = Vec::new();
    let mut n: u32 = 0;
    while n < 256
        invariant
            n <= 256,
            table.len() == n,
            forall|k: int| 0 <= k < n ==> (#[trigger] table[k]) == crc_byte(k as u32),
        decreases 256 - n,
    {
        let c = step(step(step(step(step(step(step(step(n))))))));
        table.push(c);
        n += 1;
    }
    table
}

/// The CRC-32 checksum of a run of bytes.
pub fn crc32(data: &[u8]) -> (r: u32)
    ensures
        r == checksum(data@),
{
    let table = crc_table();
    let mut crc: u32 = 0xffff_ffff;
    let mut i: usize = 0;
    while i < data.len()
        invariant
            table.len() == 256,
            forall|k: int| 0 <= k < 256 ==> (#[trigger] table[k]) == crc_byte(k as u32),
            i <= data.len(),
            crc == crc_register(data@, i as int),
        decreases data.len() - i,
    {
        let x: u32 = crc ^ (data[i] as u32);
        proof {
            lemma_crc_bytes(x);
            let b = data[i as int] as u32;
            assert(b < 256);
            assert((crc ^ b) >> 8 == crc >> 8) by (bit_vector)
                requires
                    b < 256,
            ;
            assert(x & 0xff < 256) by (bit_vector);
        }
        let low: usize = (x & 0xff) as usize;
        assert(table[low as int] == crc_byte(x & 0xff));
        crc = table[low] ^ (crc >> 8);
        i += 1;
    }
    crc ^ 0xffff_ffff
}

// ── Chunks ─────────────────────────────────────────────────────────

/// A number in four bytes, the highest first.
pub open spec fn be_bytes(v: u32) -> Seq<u8> {
    seq![
        (v as int / 0x100_0000) as u8,
        (v as int / 0x1_0000 % 256) as u8,
        (v as int / 0x100 % 256) as u8,
        (v as int % 256) as u8,
    ]
}

/// The number in four bytes of `b` from `i` on, the highest first.
pub open spec fn be_number(b: Seq<u8>, i: int) -> int {
    b[i] * 0x100_0000 + b[i + 1] * 0x1_0000 + b[i + 2] * 0x100 + b[i + 3]
}

fn push_be(out: &mut Vec<u8>, v: u32)
    ensures
        final(out)@ == old(out)@ + be_bytes(v),
{
    let ghost before = out@;
    out.push((v / 0x100_0000) as u8);
    out.push((v / 0x1_0000 % 256) as u8);
    out.push((v / 0x100 % 256) as u8);
    out.push((v % 256) as u8);
    assert(out@ =~= before + be_bytes(v));
}

fn push_bytes(out: &mut Vec<u8>, bytes: &[u8], from: usize, to: usize)
    requires
        from <= to <= bytes.len(),
    ensures
        final(out)@ == old(out)@ + bytes@.subrange(from as int, to as int),
{
    let ghost before = out@;
    let mut i: usize = from;
    assert(out@ =~= before + bytes@.subrange(from as int, i as int));
    while i < to
        invariant
            from <= i <= to <= bytes.len(),
            out@ == before + bytes@.subrange(from as int, i as int),
        decreases to - i,
    {
        out.push(bytes[i]);
        i += 1;
        assert(out@ =~= before + bytes@.subrange(from as int, i as int));
    }
}

/// The type and the data of a text chunk: a keyword, a zero byte, a text.
pub open spec fn chunk_body(keyword: Seq<char>, text: Seq<char>) -> Seq<u8> {
    seq![0x74u8, 0x45u8, 0x58u8, 0x74u8] + encode_utf8(keyword) + seq![0u8] + encode_utf8(text)
}

/// The length of the data of a text chunk, cut down to 32 bits.
pub open spec fn chunk_length(keyword: nat, text: nat) -> u32 {
    ((keyword + 1 + text) % 0x1_0000_0000) as u32
}

/// A PNG text chunk: the length of its data, its type and data, and the
/// checksum of these. A length beyond 32 bits is cut down to them.
pub open spec fn text_chunk(keyword: Seq<char>, text: Seq<char>) -> Seq<u8> {
    let len = chunk_length(encode_utf8(keyword).len(), encode_utf8(text).len());
    be_bytes(len) + chunk_body(keyword, text) + be_bytes(checksum(chunk_body(keyword, text)))
}

/// The length of chunk data, cut down to 32 bits.
fn data_length(keyword: usize, text: usize) -> (r: u32)
    ensures
        r == chunk_length(keyword as nat, text as nat),
{
    let a: u64 = keyword as u64 % 0x1_0000_0000;
    let b: u64 = text as u64 % 0x1_0000_0000;
    ((a + 1 + b) % 0x1_0000_0000) as u32
}

/// The type `tEXt` and the data of a chunk.
fn build_chunk_body(keyword: &[u8], text: &[u8]) -> (r: Vec<u8>)
    ensures
        r@ == seq![0x74u8, 0x45u8, 0x58u8, 0x74u8] + keyword@ + seq![0u8] + text@,
{
    let mut body: Vec<u8> = Vec::new();
    body.push(0x74);
    body.push(0x45);
    body.push(0x58);
    body.push(0x74);
    push_bytes(&mut body, keyword, 0, keyword.len());
    body.push(0);
    push_bytes(&mut body, text, 0, text.len());
    assert(body@ =~= seq![0x74u8, 0x45u8, 0x58u8, 0x74u8] + keyword@ + seq![0u8] + text@);
    body
}

/// Builds a PNG text chunk.
pub fn build_png_text_chunk(keyword: &str, text: &str) -> (r: Vec<u8>)
    ensures
        r@ == text_chunk(keyword@, text@),
{
    let keyword_bytes = keyword.as_bytes();
    let text_bytes = text.as_bytes();
    let body = build_chunk_body(keyword_bytes, text_bytes);
    let mut chunk: Vec<u8> = Vec::new();
    push_be(&mut chunk, data_length(keyword_bytes.len(), text_bytes.len()));
    push_bytes(&mut chunk, &body, 0, body.len());
    push_be(&mut chunk, crc32(&body));
    assert(body@.subrange(0, body@.len() as int) =~= body@);
    assert(Seq::<u8>::empty() + be_bytes(
        chunk_length(keyword_bytes@.len(), text_bytes@.len()),
    ) =~= be_bytes(chunk_length(keyword_bytes@.len(), text_bytes@.len())));
    chunk
}

// ── Embedding ──────────────────────────────────────────────────────

/// The first bytes of every PNG file.
pub open spec fn png_signature() -> Seq<u8> {
    seq![0x89u8, 0x50u8, 0x4eu8, 0x47u8, 0x0du8, 0x0au8, 0x1au8, 0x0au8]
}

/// Where the header chunk of a PNG file ends.
pub open spec fn header_end(png: Seq<u8>) -> int {
    20 + be_number(png, 8)
}

/// Whether a file is a PNG file as far as its whole header chunk goes.
pub open spec fn is_png(png: Seq<u8>) -> bool {
    png.len() >= 16 && png.take(8) == png_signature() && png.len() >= header_end(png)
}

/// The chunk that holds a diagram source.
pub open spec fn diagram_chunk(xml: Seq<char>) -> Seq<u8> {
    text_chunk("mxfile"@, percent_encoded(xml, COMPONENT_MARKS@))
}

/// A PNG file with a diagram source embedded behind its header chunk.
pub open spec fn embedded(png: Seq<u8>, xml: Seq<char>) -> Seq<u8> {
    png.take(header_end(png)) + diagram_chunk(xml) + png.skip(header_end(png))
}

/// Why a diagram source could not be embedded.
#[derive(Debug, Clone, Copy, PartialEq, Eq, Structural)]
pub enum EmbedError {
    NotAPng,
}

impl EmbedError {
    /// The error in words.
    pub fn message(&self) -> (r: String)
        ensures
            r@ == "Not a valid PNG file"@,
    {
        "Not a valid PNG file".to_owned()
    }
}

fn has_signature(png: &[u8]) -> (r: bool)
    requires
        png.len() >= 8,
    ensures
        r == (png@.take(8) == png_signature()),
{
    let r = png[0] == 0x89 && png[1] == 0x50 && png[2] == 0x4e && png[3] == 0x47 && png[4] == 0x0d
        && png[5] == 0x0a && png[6] == 0x1a && png[7] == 0x0a;
    proof {
        if r {
            assert(png@.take(8) =~= png_signature());
        } else {
            let p = png@.take(8);
            let q = png_signature();
            assert(!(p[0] == q[0] && p[1] == q[1] && p[2] == q[2] && p[3] == q[3] && p[4] == q[4]
                && p[5] == q[5] && p[6] == q[6] && p[7] == q[7]));
        }
    }
    r
}

/// Embeds a diagram source in a PNG file, in a text chunk behind its header
/// chunk.
pub fn embed_drawio_xml_in_png(png_bytes: &[u8], drawio_xml: &str) -> (r: Result<
    Vec<u8>,
    EmbedError,
>)
    ensures
        match r {
            Ok(out) => is_png(png_bytes@) && out@ == embedded(png_bytes@, drawio_xml@),
            Err(e) => !is_png(png_bytes@) && e == EmbedError::NotAPng,
        },
{
    if png_bytes.len() < 16 || !has_signature(png_bytes) {
        return Err(EmbedError::NotAPng);
    }
    let header: u64 = png_bytes[8] as u64 * 0x100_0000 + png_bytes[9] as u64 * 0x1_0000
        + png_bytes[10] as u64 * 0x100 + png_bytes[11] as u64;
    if (png_bytes.len() as u64) < 20 + header {
        return Err(EmbedError::NotAPng);
    }
    let end: usize = (20 + header) as usize;
    let encoded = percent_encode(drawio_xml, COMPONENT_MARKS);
    let chunk = build_png_text_chunk("mxfile", &encoded);
    let mut out: Vec<u8> = Vec::new();
    push_bytes(&mut out, png_bytes, 0, end);
    push_bytes(&mut out, &chunk, 0, chunk.len());
    push_bytes(&mut out, png_bytes, end, png_bytes.len());
    assert(out@ =~= embedded(png_bytes@, drawio_xml@));
    Ok(out)
}

/// The text of a chunk with the keyword `mxfile`: what stands between the
/// zero byte and the checksum.
pub open spec fn chunk_text(chunk: Seq<u8>) -> Seq<u8> {
    chunk.subrange(15, chunk.len() - 4)
}

/// An embedded diagram source reads back: the chunk behind the header, its
/// text percent-decoded, is the source in UTF-8. The rest of the file is as
/// it was.
pub proof fn law_embedded_source_reads_back(png: Seq<u8>, xml: Seq<char>)
    requires
        is_png(png),
    ensures
        ({
            let out = embedded(png, xml);
            let a = header_end(png);
            let b = a + diagram_chunk(xml).len();
            &&& out.take(a) == png.take(a)
            &&& out.skip(b) == png.skip(a)
            &&& percent_decoded_bytes(chunk_text(out.subrange(a, b))) == encode_utf8(xml)
        }),
{
    let out = embedded(png, xml);
    let a = header_end(png);
    let chunk = diagram_chunk(xml);
    let b = a + chunk.len();
    assert(out.take(a) =~= png.take(a));
    assert(out.skip(b) =~= png.skip(a));
    assert(out.subrange(a, b) =~= chunk);
    reveal_strlit("mxfile");
    reveal_strlit("-_.!~*'()");
    is_ascii_chars_encode_utf8("mxfile"@);
    assert(encode_utf8("mxfile"@).len() == 6);
    let text = percent_encoded(xml, COMPONENT_MARKS@);
    assert(chunk_text(chunk) =~= encode_utf8(text));
    assert(!COMPONENT_MARKS@.contains('%'));
    lemma_decode_bytes_text(encode_utf8(xml), COMPONENT_MARKS@);
}

/// A chunk tells its own length, where 32 bits can hold it: the number in
/// front is the length of the data between type and checksum.
pub proof fn law_chunk_length(keyword: Seq<char>, text: Seq<char>)
    requires
        encode_utf8(keyword).len() + 1 + encode_utf8(text).len() < 0x1_0000_0000,
    ensures
        be_number(text_chunk(keyword, text), 0) + 12 == text_chunk(keyword, text).len(),
        be_number(text_chunk(keyword, text), text_chunk(keyword, text).len() - 4) == checksum(
            text_chunk(keyword, text).subrange(4, text_chunk(keyword, text).len() - 4),
        ),
{
    let body = chunk_body(keyword, text);
    let chunk = text_chunk(keyword, text);
    assert(chunk.subrange(4, chunk.len() - 4) =~= body);
    lemma_be_round_trip(checksum(body));
    lemma_be_round_trip((encode_utf8(keyword).len() + 1 + encode_utf8(text).len()) as u32);
}

proof fn lemma_be_round_trip(v: u32)
    ensures
        be_number(be_bytes(v), 0) == v,
{
}

/// The header of a PNG file is its first chunk: it ends behind the signature
/// and that chunk, whatever follows.
pub proof fn law_header_is_the_first_chunk(chunk: Seq<u8>, rest: Seq<u8>)
    requires
        chunk.len() >= 12,
        be_number(chunk, 0) + 12 == chunk.len(),
    ensures
        is_png(png_signature() + chunk + rest),
        header_end(png_signature() + chunk + rest) == png_signature().len() + chunk.len(),
{
    let png = png_signature() + chunk + rest;
    assert(png_signature().len() == 8);
    assert(png[8] == chunk[0] && png[9] == chunk[1] && png[10] == chunk[2] && png[11] == chunk[3]);
    assert(png.take(8) =~= png_signature());
}

/// A text chunk is of the type `tEXt`, and a zero byte parts its keyword and
/// its text.
pub proof fn law_chunk_holds_keyword_and_text(keyword: Seq<char>, text: Seq<char>)
    ensures
        ({
            let chunk = text_chunk(keyword, text);
            let data = chunk.subrange(8, chunk.len() - 4);
            let k = encode_utf8(keyword).len() as int;
            &&& chunk.subrange(4, 8) == encode_utf8("tEXt"@)
            &&& data.take(k) == encode_utf8(keyword)
            &&& data[k] == 0
            &&& data.skip(k + 1) == encode_utf8(text)
        }),
{
    reveal_strlit("tEXt");
    is_ascii_chars_encode_utf8("tEXt"@);
    let chunk = text_chunk(keyword, text);
    let data = chunk.subrange(8, chunk.len() - 4);
    let k = encode_utf8(keyword).len() as int;
    assert(chunk.subrange(4, 8) =~= encode_utf8("tEXt"@));
    assert(data.take(k) =~= encode_utf8(keyword));
    assert(data.skip(k + 1) =~= encode_utf8(text));
}

proof fn lemma_step_is_injective(a: u32, b: u32)
    requires
        a != b,
    ensures
        crc_step(a) != crc_step(b),
{
    assert(a != b ==> (if a & 1 != 0 {
        0xedb8_8320u32 ^ (a >> 1)
    } else {
        a >> 1
    }) != (if b & 1 != 0 {
        0xedb8_8320u32 ^ (b >> 1)
    } else {
        b >> 1
    })) by (bit_vector);
}

proof fn lemma_byte_is_injective(a: u32, b: u32)
    requires
        a != b,
    ensures
        crc_byte(a) != crc_byte(b),
{
    let (a1, b1) = (crc_step(a), crc_step(b));
    let (a2, b2) = (crc_step(a1), crc_step(b1));
    let (a3, b3) = (crc_step(a2), crc_step(b2));
    let (a4, b4) = (crc_step(a3), crc_step(b3));
    let (a5, b5) = (crc_step(a4), crc_step(b4));
    let (a6, b6) = (crc_step(a5), crc_step(b5));
    let (a7, b7) = (crc_step(a6), crc_step(b6));
    lemma_step_is_injective(a, b);
    lemma_step_is_injective(a1, b1);
    lemma_step_is_injective(a2, b2);
    lemma_step_is_injective(a3, b3);
    lemma_step_is_injective(a4, b4);
    lemma_step_is_injective(a5, b5);
    lemma_step_is_injective(a6, b6);
    lemma_step_is_injective(a7, b7);
}

proof fn lemma_register_before(data: Seq<u8>, i: int, x: u8, n: int)
    requires
        0 <= n <= i < data.len(),
    ensures
        crc_register(data.update(i, x), n) == crc_register(data, n),
    decreases n,
{
    if n > 0 {
        lemma_register_before(data, i, x, n - 1);
    }
}

proof fn lemma_register_behind(data: Seq<u8>, i: int, x: u8, n: int)
    requires
        0 <= i < n <= data.len(),
        x != data[i],
    ensures
        crc_register(data.update(i, x), n) != crc_register(data, n),
    decreases n,
{
    let changed = data.update(i, x);
    let c = crc_register(data, n - 1);
    let d = crc_register(changed, n - 1);
    let p = data[n - 1];
    let q = changed[n - 1];
    if i == n - 1 {
        lemma_register_before(data, i, x, i);
        assert(p != q ==> c ^ (p as u32) != c ^ (q as u32)) by (bit_vector);
    } else {
        lemma_register_behind(data, i, x, n - 1);
        assert(c != d ==> c ^ (p as u32) != d ^ (p as u32)) by (bit_vector);
    }
    lemma_byte_is_injective(c ^ (p as u32), d ^ (q as u32));
}

/// A change of any single byte changes the checksum.
pub proof fn law_checksum_tells_every_byte(data: Seq<u8>, i: int, x: u8)
    requires
        0 <= i < data.len(),
        x != data[i],
    ensures
        checksum(data.update(i, x)) != checksum(data),
{
    lemma_register_behind(data, i, x, data.len() as int);
    let a = crc_register(data, data.len() as int);
    let b = crc_register(data.update(i, x), data.len() as int);
    assert(a != b ==> a ^ 0xffff_ffff != b ^ 0xffff_ffff) by (bit_vector);
}

} // verus!
