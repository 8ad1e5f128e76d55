use vstd::prelude::*;
use crate::midi_types::{MetaEvent, MetaEventType};

verus! {

broadcast use vstd::string::axiom_spec_iter;

/// The project's name, author and description.
pub struct ProjectInfo {
    pub name: String,
    pub author: String,
    pub description: String,
}

impl Default for ProjectInfo {
    fn default() -> (r: Self)
        ensures
            r.name@.len() == 0,
            r.author@.len() == 0,
            r.description@.len() == 0,
    {
        ProjectInfo { name: String::new(), author: String::new(), description: String::new() }
    }
}

/// `num` as two bytes, most significant first.
pub open spec fn u16_be(num: u16) -> Seq<u8> {
    seq![(num / 256) as u8, (num % 256) as u8]
}

/// `num` as four bytes, most significant first.
pub open spec fn u32_be(num: u32) -> Seq<u8> {
    seq![
        (num / 0x1000000) as u8,
        ((num / 0x10000) % 256) as u8,
        ((num / 0x100) % 256) as u8,
        (num % 256) as u8,
    ]
}

/// The UTF-16 code units of a character: one below U+10000, else a
/// surrogate pair.
pub open spec fn utf16_units(c: char) -> Seq<u16> {
    let v = (c as u32) as int;
    if v < 0x10000 {
        seq![v as u16]
    } else {
        let w = v - 0x10000;
        seq![(0xD800 + w / 0x400) as u16, (0xDC00 + w % 0x400) as u16]
    }
}

/// The UTF-16 code units of a text.
pub open spec fn utf16_of(s: Seq<char>) -> Seq<u16>
    decreases s.len(),
{
    if s.len() == 0 {
        Seq::empty()
    } else {
        utf16_of(s.drop_last()) + utf16_units(s.last())
    }
}

/// Code units as bytes, low byte first.
pub open spec fn units_le(u: Seq<u16>) -> Seq<u8>
    decreases u.len(),
{
    if u.len() == 0 {
        Seq::empty()
    } else {
        units_le(u.drop_last()) + seq![(u.last() % 256) as u8, (u.last() / 256) as u8]
    }
}

/// A text as stored in a project file: its UTF-16 code units, low byte
/// first.
pub open spec fn text_bytes(s: Seq<char>) -> Seq<u8> {
    units_le(utf16_of(s))
}

proof fn lemma_units_le_one(x: u16)
    ensures
        units_le(seq![x]) == seq![(x % 256) as u8, (x / 256) as u8],
{
    let s = seq![x];
    assert(s.drop_last() =~= Seq::<u16>::empty());
    assert(s.last() == x);
    assert(units_le(s.drop_last()) =~= Seq::<u8>::empty());
    assert(units_le(s) == units_le(s.drop_last()) + seq![(x % 256) as u8, (x / 256) as u8]);
    assert(units_le(s) =~= seq![(x % 256) as u8, (x / 256) as u8]);
}

proof fn lemma_units_le_two(x: u16, y: u16)
    ensures
        units_le(seq![x, y]) == seq![(x % 256) as u8, (x / 256) as u8, (y % 256) as u8, (y / 256) as u8],
{
    assert(seq![x, y].drop_last() =~= seq![x]);
    lemma_units_le_one(x);
    assert(units_le(seq![x, y]) =~= seq![(x % 256) as u8, (x / 256) as u8, (y % 256) as u8, (y / 256) as u8]);
}

proof fn lemma_units_le_len(u: Seq<u16>)
    ensures
        units_le(u).len() == 2 * u.len(),
    decreases u.len(),
{
    if u.len() > 0 {
        lemma_units_le_len(u.drop_last());
    }
}

proof fn lemma_units_le_append(a: Seq<u16>, b: Seq<u16>)
    ensures
        units_le(a + b) == units_le(a) + units_le(b),
    decreases b.len(),
{
    if b.len() > 0 {
        lemma_units_le_append(a, b.drop_last());
        assert((a + b).drop_last() =~= a + b.drop_last());
        assert(units_le(a + b) =~= units_le(a) + units_le(b));
    } else {
        assert(a + b =~= a);
        assert(units_le(a) + units_le(b) =~= units_le(a));
    }
}

/// The two bytes of `num`, most significant first.
pub fn u16_to_bytes(num: u16) -> (r: [u8; 2])
    ensures
        r@ == u16_be(num),
{
    let r = [((num & 0xFF00) >> 8) as u8, (num & 0xFF) as u8];
    assert((num & 0xFF00) >> 8 == num / 256) by (bit_vector);
    assert(num & 0xFF == num % 256) by (bit_vector);
    assert(r@ =~= u16_be(num));
    r
}

/// The four bytes of `num`, most significant first.
pub fn u32_to_bytes(num: u32) -> (r: [u8; 4])
    ensures
        r@ == u32_be(num),
{
    let r = [
        ((num & 0xFF000000) >> 24) as u8,
        ((num & 0xFF0000) >> 16) as u8,
        ((num & 0xFF00) >> 8) as u8,
        (num & 0xFF) as u8,
    ];
    assert((num & 0xFF000000) >> 24 == num / 0x1000000) by (bit_vector);
    assert((num & 0xFF0000) >> 16 == (num / 0x10000) % 256) by (bit_vector);
    assert((num & 0xFF00) >> 8 == (num / 0x100) % 256) by (bit_vector);
    assert(num & 0xFF == num % 256) by (bit_vector);
    assert(r@ =~= u32_be(num));
    r
}

/// A text as stored in a project file, with its length in bytes (modulo
/// 2^32, as the length is written in four bytes).
pub fn text_to_bytes(text: &str) -> (r: (u32, Vec<u8>))
    ensures
        r.1@ == text_bytes(text@),
        r.0 == (r.1@.len() as int % 0x1_0000_0000) as u32,
{
    let mut bytes: Vec<u8> = Vec::new();
    let ghost mut seen: Seq<char> = Seq::empty();
    for c in it: text.chars()
        invariant
            it.seq() == text@,
            seen == text@.subrange(0, it.index()),
            bytes@ == text_bytes(seen),
    {
        let v = c as u32;
        let ghost before = seen;
        if v < 0x10000 {
            let u = v as u16;
            proof {
                assert(u & 0xFF == u % 256) by (bit_vector);
                assert(u >> 8 == u / 256) by (bit_vector);
                assert(utf16_units(c) == seq![u]);
            }
            bytes.push((u & 0xFF) as u8);
            bytes.push((u >> 8) as u8);
        } else {
            let w = v - 0x10000;
            assert(w >> 10 <= 0x3fffff) by (bit_vector);
            assert(w & 0x3FF <= 0x3FF) by (bit_vector);
            let hi: u16 = #[verifier::truncate] ((0xD800u32 + (w >> 10)) as u16);
            let lo: u16 = #[verifier::truncate] ((0xDC00u32 + (w & 0x3FF)) as u16);
            proof {
                assert(w >> 10 == w / 0x400) by (bit_vector);
                assert(w & 0x3FF == w % 0x400) by (bit_vector);
                assert(hi & 0xFF == hi % 256) by (bit_vector);
                assert(hi >> 8 == hi / 256) by (bit_vector);
                assert(lo & 0xFF == lo % 256) by (bit_vector);
                assert(lo >> 8 == lo / 256) by (bit_vector);
            }
            assert(utf16_units(c) == seq![hi, lo]);
            bytes.push((hi & 0xFF) as u8);
            bytes.push((hi >> 8) as u8);
            bytes.push((lo & 0xFF) as u8);
            bytes.push((lo >> 8) as u8);
        }
        proof {
            let un = utf16_units(c);
            if un.len() == 1 {
                lemma_units_le_one(un[0]);
                assert(un =~= seq![un[0]]);
            } else {
                lemma_units_le_two(un[0], un[1]);
                assert(un =~= seq![un[0], un[1]]);
            }
            assert(bytes@ =~= text_bytes(before) + units_le(un));
            seen = seen.push(c);
            assert(seen.drop_last() =~= before);
            lemma_units_le_append(utf16_of(before), utf16_units(c));
            assert(text@.subrange(0, it.index() + 1) =~= seen);
        }
    }
    proof {
        assert(seen =~= text@);
    }
    let len = len_mod_u32(bytes.len());
    (len, bytes)
}

/// The header of a project file: "AnHd" (0x41 0x6e 0x48 0x64), then the length of the rest (four
/// bytes, most significant first), then the rest: the ticks per quarter note
/// (two bytes), and the name, author and description, each as its length in
/// bytes (four bytes) followed by its UTF-16 code units.
pub open spec fn header_body(ppq: u16, name: Seq<char>, author: Seq<char>, description: Seq<char>) -> Seq<u8> {
    u16_be(ppq) + u32_be((text_bytes(name).len() as int % 0x1_0000_0000) as u32) + text_bytes(name) + u32_be(
        (text_bytes(author).len() as int % 0x1_0000_0000) as u32,
    ) + text_bytes(author) + u32_be((text_bytes(description).len() as int % 0x1_0000_0000) as u32) + text_bytes(
        description,
    )
}

pub open spec fn header_spec(ppq: u16, name: Seq<char>, author: Seq<char>, description: Seq<char>) -> Seq<u8> {
    let body = header_body(ppq, name, author, description);
    seq![0x41u8, 0x6eu8, 0x48u8, 0x64u8] + u32_be((body.len() as int % 0x1_0000_0000) as u32) + body
}

/// A length modulo 2^32.
fn len_mod_u32(n: usize) -> (r: u32)
    ensures
        r == (n as int % 0x1_0000_0000) as u32,
{
    let m: u64 = (n as u64) % 0x1_0000_0000u64;
    m as u32
}

fn append_bytes(out: &mut Vec<u8>, bytes: &[u8])
    ensures
        final(out)@ == old(out)@ + bytes@,
{
    let n = bytes.len();
    let ghost start = out@;
    for i in 0..n
        invariant
            n == bytes@.len(),
            out@ == start + bytes@.subrange(0, i as int),
    {
        out.push(bytes[i]);
        assert(out@ =~= start + bytes@.subrange(0, i + 1));
    }
    assert(bytes@.subrange(0, n as int) =~= bytes@);
}

/// The bytes of a project file's header.
#[verifier::rlimit(40)]
pub fn write_header(ppq: u16, project_info: &ProjectInfo) -> (r: Vec<u8>)
    ensures
        r@ == header_spec(ppq, project_info.name@, project_info.author@, project_info.description@),
        r@.subrange(0, 4) == seq![0x41u8, 0x6eu8, 0x48u8, 0x64u8],
{
    let mut buffer: Vec<u8> = Vec::new();
    let ppq_bytes = u16_to_bytes(ppq);
    append_bytes(&mut buffer, &ppq_bytes);
    let (name_len, name_bytes) = text_to_bytes(project_info.name.as_str());
    let name_len_bytes = u32_to_bytes(name_len);
    append_bytes(&mut buffer, &name_len_bytes);
    append_bytes(&mut buffer, name_bytes.as_slice());
    let (author_len, author_bytes) = text_to_bytes(project_info.author.as_str());
    let author_len_bytes = u32_to_bytes(author_len);
    append_bytes(&mut buffer, &author_len_bytes);
    append_bytes(&mut buffer, author_bytes.as_slice());
    let (desc_len, desc_bytes) = text_to_bytes(project_info.description.as_str());
    let desc_len_bytes = u32_to_bytes(desc_len);
    append_bytes(&mut buffer, &desc_len_bytes);
    append_bytes(&mut buffer, desc_bytes.as_slice());
    let ghost body = buffer@;
    assert(body =~= header_body(ppq, project_info.name@, project_info.author@, project_info.description@));
    let mut out: Vec<u8> = Vec::new();
    out.push(0x41u8);
    out.push(0x6eu8);
    out.push(0x48u8);
    out.push(0x64u8);
    let buf_len = len_mod_u32(buffer.len());
    let buf_len_bytes = u32_to_bytes(buf_len);
    append_bytes(&mut out, &buf_len_bytes);
    append_bytes(&mut out, buffer.as_slice());
    assert(out@ =~= header_spec(ppq, project_info.name@, project_info.author@, project_info.description@));
    out
}

/// A tempo in microseconds per quarter note as the three bytes of a tempo
/// event, most significant first (the value is taken modulo 2^24).
pub open spec fn tempo_bytes_spec(us_per_qn: u32) -> Seq<u8> {
    seq![((us_per_qn / 0x10000) % 256) as u8, ((us_per_qn / 0x100) % 256) as u8, (us_per_qn % 256) as u8]
}

/// The three bytes of a tempo event for `us_per_qn` microseconds per
/// quarter note.
pub fn us_per_qn_as_bytes(us_per_qn: u32) -> (r: [u8; 3])
    ensures
        r@ == tempo_bytes_spec(us_per_qn),
{
    let r = [((us_per_qn >> 16) & 0xFF) as u8, ((us_per_qn >> 8) & 0xFF) as u8, (us_per_qn & 0xFF) as u8];
    assert((us_per_qn >> 16) & 0xFF == (us_per_qn / 0x10000) % 256) by (bit_vector);
    assert((us_per_qn >> 8) & 0xFF == (us_per_qn / 0x100) % 256) by (bit_vector);
    assert(us_per_qn & 0xFF == us_per_qn % 256) by (bit_vector);
    assert(r@ =~= tempo_bytes_spec(us_per_qn));
    r
}

/// The microseconds per quarter note that the first three bytes of a tempo
/// event hold.
pub fn bytes_as_us_per_qn(bytes: &[u8]) -> (r: u32)
    requires
        bytes@.len() >= 3,
    ensures
        r == bytes@[0] as int * 0x10000 + bytes@[1] as int * 0x100 + bytes@[2] as int,
{
    let b0 = bytes[0] as u32;
    let b1 = bytes[1] as u32;
    let b2 = bytes[2] as u32;
    let r = (b0 << 16) | (b1 << 8) | b2;
    assert((b0 << 16) | (b1 << 8) | b2 == b0 * 0x10000 + b1 * 0x100 + b2) by (bit_vector)
        requires
            b0 < 256,
            b1 < 256,
            b2 < 256,
    ;
    r
}

/// Reading back the bytes of a tempo gives the tempo, for any tempo that
/// fits in three bytes.
pub proof fn lemma_tempo_bytes_roundtrip(us_per_qn: u32)
    requires
        us_per_qn < 0x1000000,
    ensures
        ({
            let b = tempo_bytes_spec(us_per_qn);
            b[0] as int * 0x10000 + b[1] as int * 0x100 + b[2] as int == us_per_qn
        }),
{
    let x = us_per_qn;
    assert(((x / 0x10000) % 256) * 0x10000 + ((x / 0x100) % 256) * 0x100 + x % 256 == x) by (nonlinear_arith)
        requires
            x < 0x1000000,
    ;
}

/// The meta events of a new project: 120 beats per minute (500000
/// microseconds per quarter note), C major, 4/4.
pub fn default_global_metas() -> (r: Vec<MetaEvent>)
    ensures
        r@.len() == 3,
        r@[0].tick == 0 && r@[0].event_type == MetaEventType::Tempo && r@[0].data@ == seq![0x07u8, 0xA1u8, 0x20u8],
        r@[1].tick == 0 && r@[1].event_type == MetaEventType::KeySignature && r@[1].data@ == seq![0x00u8, 0x00u8],
        r@[2].tick == 0 && r@[2].event_type == MetaEventType::TimeSignature && r@[2].data@ == seq![0x04u8, 0x02u8, 0x18u8, 0x08u8],
{
    let tempo = us_per_qn_as_bytes(500000);
    assert(tempo@ =~= seq![0x07u8, 0xA1u8, 0x20u8]);
    let tempo_data = vec![tempo[0], tempo[1], tempo[2]];
    let key_data = vec![0x00u8, 0x00u8];
    let ts_data = vec![0x04u8, 0x02u8, 0x18u8, 0x08u8];
    let r = vec![
        MetaEvent { tick: 0, event_type: MetaEventType::Tempo, data: tempo_data },
        MetaEvent { tick: 0, event_type: MetaEventType::KeySignature, data: key_data },
        MetaEvent { tick: 0, event_type: MetaEventType::TimeSignature, data: ts_data },
    ];
    r
}

} // verus!
