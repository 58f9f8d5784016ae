//! The layer directly over PDF object syntax: object IDs, indirect objects
//! and streams appended to one byte buffer, then the cross-reference table
//! and trailer.

use std::collections::hash_map::DefaultHasher;
use std::hash::{Hash, Hasher};
use vstd::prelude::*;
use vstd::string::StringSliceAdditionalSpecFns;
use crate::bytes::push_bytes;
use crate::pdf::num::{
    dec_bytes, dec_bytes_padded, hex_bytes, push_dec_bytes, push_dec_bytes_padded, push_hex, push_str,
};
use crate::text::{dec_chars, push_dec, string_from_chars};

verus! {

/// An indirect object reference; the generation is always 0.
#[derive(Clone, Copy, PartialEq, Eq, Debug)]
pub struct Ref(pub u32);

/// `N 0 R`, as used inside dictionaries and arrays.
pub open spec fn ref_chars(id: nat) -> Seq<char> {
    dec_chars(id) + seq![' ', '0', ' ', 'R']
}

impl Ref {
    /// `"N 0 R"` as used inside dictionaries and arrays.
    pub fn write(&self) -> (s: String)
        ensures
            s@ == ref_chars(self.0 as nat),
    {
        let mut out: Vec<char> = Vec::new();
        push_dec(&mut out, self.0 as u64);
        out.push(' ');
        out.push('0');
        out.push(' ');
        out.push('R');
        assert(out@ =~= ref_chars(self.0 as nat));
        string_from_chars(out)
    }
}

/// The file header: `%PDF-1.7`, then a comment of four high bytes marking
/// the file as binary.
pub open spec fn pdf_header() -> Seq<u8> {
    seq![37u8, 80u8, 68u8, 70u8, 45u8, 49u8, 46u8, 55u8, 10u8, 37u8, 0xE2u8, 0xE3u8, 0xCFu8, 0xD3u8, 10u8]
}

/// `N 0 obj\n`, the start of indirect object `N`.
pub open spec fn obj_header(id: nat) -> Seq<u8> {
    dec_bytes(id) + " 0 obj\n".spec_bytes()
}

/// Whether `buf` holds object `id`'s header at `off`.
pub open spec fn obj_at(buf: Seq<u8>, off: nat, id: nat) -> bool {
    off + obj_header(id).len() <= buf.len() && buf.subrange(off as int, off + obj_header(id).len() as int) == obj_header(id)
}

/// The offset recorded for object `id` (0 when none was recorded).
pub open spec fn recorded_offset(offsets: Seq<usize>, id: nat) -> nat {
    if 1 <= id && id - 1 < offsets.len() {
        offsets[id - 1] as nat
    } else {
        0
    }
}

/// `offsets` after recording `off` for object `id`: grown with zeros to
/// cover it, then set.
pub open spec fn record(offsets: Seq<usize>, id: nat, off: usize) -> Seq<usize> {
    let grown = if offsets.len() < id {
        offsets + Seq::new((id - offsets.len()) as nat, |i: int| 0usize)
    } else {
        offsets
    };
    grown.update(id - 1, off)
}

/// Whether an offset is recorded for object `id`.
pub open spec fn has_offset(offsets: Seq<usize>, id: nat) -> bool {
    recorded_offset(offsets, id) != 0
}

/// Every object with an offset in `a` still has one in `b`.
pub open spec fn keeps_offsets(a: Seq<usize>, b: Seq<usize>) -> bool {
    forall|id: nat| #[trigger] has_offset(a, id) ==> has_offset(b, id)
}

/// Every object from `lo` up to (not including) `hi` has an offset.
pub open spec fn offsets_cover(offsets: Seq<usize>, lo: nat, hi: nat) -> bool {
    forall|id: nat| lo <= id < hi ==> #[trigger] has_offset(offsets, id)
}

/// Recording a nonzero offset gives `id` one and takes none away.
pub proof fn lemma_record_offset(o: Seq<usize>, id: nat, off: usize)
    requires
        id >= 1,
        off > 0,
    ensures
        keeps_offsets(o, record(o, id, off)),
        has_offset(record(o, id, off), id),
{
    let r = record(o, id, off);
    assert forall|x: nat| #[trigger] has_offset(o, x) implies has_offset(r, x) by {
        if x != id {
            assert(r[x - 1] == o[x - 1]);
        }
    }
}

/// A plain indirect object: `id 0 obj\n<body>\nendobj\n`.
pub open spec fn object_bytes(id: nat, body: Seq<u8>) -> Seq<u8> {
    obj_header(id) + body + "\nendobj\n".spec_bytes()
}

/// A stream object: its dictionary holds `/Length` and then `dict`.
pub open spec fn stream_bytes(id: nat, dict: Seq<u8>, data: Seq<u8>) -> Seq<u8> {
    obj_header(id) + "<< /Length ".spec_bytes() + dec_bytes(data.len()) + " ".spec_bytes() + dict
        + " >>\nstream\n".spec_bytes() + data + "\nendstream\nendobj\n".spec_bytes()
}

/// The result of `miniz_oxide::deflate::compress_to_vec_zlib(data, level)`.
pub uninterp spec fn zlib_compressed(data: Seq<u8>, level: u8) -> Seq<u8>;

/// `miniz_oxide::deflate::compress_to_vec_zlib`: the zlib-wrapped
/// (RFC 1950) DEFLATE compression of `data` at `level`. Only its result is
/// named; nothing is stated of its contents.
#[verifier::external_body]
fn zlib_compress(data: &[u8], level: u8) -> (r: Vec<u8>)
    ensures
        r@ == zlib_compressed(data@, level),
{
    miniz_oxide::deflate::compress_to_vec_zlib(data, level)
}

/// `<[u8] as Hash>::hash(content, h)`: feeds `content` to `h`, its length
/// first. The bytes that this writes depend on the width of `usize`;
/// nothing is stated of them.
#[verifier::external_body]
fn feed_bytes(h: &mut DefaultHasher, content: &[u8]) {
    content.hash(h);
}

/// `<u8 as Hash>::hash(&b, h)`: feeds the byte `b` to `h`. Nothing is
/// stated of what it writes.
#[verifier::external_body]
fn feed_byte(h: &mut DefaultHasher, b: u8) {
    b.hash(h);
}

/// The hash of `content` with a fresh `DefaultHasher`, after first feeding
/// it `tag` where there is one. std leaves the algorithm open between
/// releases, so nothing is stated of the result.
fn hash_content(tag: Option<u8>, content: &[u8]) -> u64 {
    let mut h = DefaultHasher::new();
    if let Some(b) = tag {
        feed_byte(&mut h, b);
    }
    feed_bytes(&mut h, content);
    h.finish()
}

/// The two hashes of `content` that make the document ID: one of the
/// content alone, one of the content tagged with the byte 1.
fn content_hashes(content: &[u8]) -> (u64, u64) {
    (hash_content(None, content), hash_content(Some(1), content))
}

/// The document ID's 32 lowercase hex digits from the two content hashes.
pub open spec fn id_hex(h1: u64, h2: u64) -> Seq<u8> {
    hex_bytes(h1 as nat, 16, false) + hex_bytes(h2 as nat, 16, false)
}

/// The xref lines for objects `1..=k`: each recorded offset (0 when none
/// was recorded), ten digits, generation 0, in use.
pub open spec fn xref_entries(offsets: Seq<usize>, k: nat) -> Seq<u8>
    decreases k,
{
    if k == 0 {
        Seq::empty()
    } else {
        xref_entries(offsets, (k - 1) as nat) + dec_bytes_padded(recorded_offset(offsets, k), 10)
            + " 00000 n \n".spec_bytes()
    }
}

/// ` /Info N 0 R` when there is an info dictionary.
pub open spec fn info_entry(info: Option<Ref>) -> Seq<u8> {
    match info {
        Some(r) => " /Info ".spec_bytes() + dec_bytes(r.0 as nat) + " 0 R".spec_bytes(),
        None => Seq::empty(),
    }
}

/// What `finish` appends to the objects written so far (`body`): the xref
/// table for objects `0..count`, the trailer and `%%EOF`.
pub open spec fn tail_bytes(
    body: Seq<u8>,
    offsets: Seq<usize>,
    count: nat,
    root: Ref,
    info: Option<Ref>,
    h1: u64,
    h2: u64,
) -> Seq<u8> {
    "xref\n0 ".spec_bytes() + dec_bytes(count) + "\n0000000000 65535 f \n".spec_bytes() + xref_entries(
        offsets,
        (count - 1) as nat,
    ) + "trailer\n<< /Size ".spec_bytes() + dec_bytes(count) + " /Root ".spec_bytes() + dec_bytes(root.0 as nat)
        + " 0 R".spec_bytes() + info_entry(info) + " /ID [<".spec_bytes() + id_hex(h1, h2) + "> <".spec_bytes()
        + id_hex(h1, h2) + ">] >>\nstartxref\n".spec_bytes() + dec_bytes(body.len()) + "\n%%EOF".spec_bytes()
}

/// Appends indirect objects to one buffer, remembering each object's
/// offset for the cross-reference table.
pub struct PdfWriter {
    buf: Vec<u8>,
    /// Byte offset of each object, indexed by `id - 1`.
    offsets: Vec<usize>,
    next_id: u32,
}

impl PdfWriter {
    /// The bytes written so far.
    pub closed spec fn bytes(&self) -> Seq<u8> {
        self.buf@
    }

    /// The recorded object offsets, indexed by `id - 1`.
    pub closed spec fn offsets(&self) -> Seq<usize> {
        self.offsets@
    }

    /// The ID the next `allocate` hands out.
    pub closed spec fn next_id(&self) -> nat {
        self.next_id as nat
    }

    /// The writer's invariant: the buffer starts with the header, object
    /// IDs start at 1, and every recorded offset locates its object.
    pub closed spec fn wf(&self) -> bool {
        &&& self.buf@.len() >= 15
        &&& self.buf@.take(15) == pdf_header()
        &&& self.next_id >= 1
        &&& forall|i: int|
            0 <= i < self.offsets@.len() ==> self.offsets@[i] == 0 || obj_at(
                self.buf@,
                #[trigger] self.offsets@[i] as nat,
                (i + 1) as nat,
            )
    }

    /// What every writer satisfies: it starts with the header and every
    /// recorded offset locates its object's `N 0 obj` header.
    pub proof fn lemma_offsets_locate_objects(&self)
        requires
            self.wf(),
        ensures
            self.bytes().len() >= 15,
            self.bytes().take(15) == pdf_header(),
            self.next_id() >= 1,
            forall|id: nat|
                #![trigger recorded_offset(self.offsets(), id)]
                1 <= id && recorded_offset(self.offsets(), id) != 0 ==> obj_at(
                    self.bytes(),
                    recorded_offset(self.offsets(), id),
                    id,
                ),
    {
        assert forall|id: nat|
            #![trigger recorded_offset(self.offsets(), id)]
            1 <= id && recorded_offset(self.offsets(), id) != 0 implies obj_at(
                self.bytes(),
                recorded_offset(self.offsets(), id),
                id,
            ) by {
            assert(self.offsets@[id - 1] as nat == recorded_offset(self.offsets(), id));
        }
    }

    /// A writer holding just the file header.
    pub fn new() -> (w: Self)
        ensures
            w.wf(),
            w.bytes() == pdf_header(),
            w.offsets() == Seq::<usize>::empty(),
            w.next_id() == 1,
    {
        let mut buf: Vec<u8> = Vec::new();
        push_bytes(&mut buf, &[37u8, 80u8, 68u8, 70u8, 45u8, 49u8, 46u8, 55u8, 10u8, 37u8, 0xE2u8, 0xE3u8, 0xCFu8, 0xD3u8, 10u8]);
        assert(buf@ =~= pdf_header());
        assert(buf@.take(15) =~= pdf_header());
        PdfWriter { buf, offsets: Vec::new(), next_id: 1 }
    }

    /// The ID the next `allocate` hands out.
    pub fn next_object_id(&self) -> (n: u32)
        requires
            self.wf(),
        ensures
            n == self.next_id(),
            n >= 1,
    {
        self.next_id
    }

    /// Hands out the next object ID.
    pub fn allocate(&mut self) -> (r: Ref)
        requires
            old(self).wf(),
            old(self).next_id() < u32::MAX,
        ensures
            final(self).wf(),
            r.0 == old(self).next_id(),
            r.0 >= 1,
            final(self).next_id() == old(self).next_id() + 1,
            final(self).bytes() == old(self).bytes(),
            final(self).offsets() == old(self).offsets(),
    {
        let id = self.next_id;
        self.next_id = self.next_id + 1;
        Ref(id)
    }

    /// Appends `s`; every object already written stays where it is.
    fn append(&mut self, s: &[u8])
        requires
            old(self).wf(),
        ensures
            final(self).wf(),
            final(self).bytes() == old(self).bytes() + s@,
            final(self).offsets() == old(self).offsets(),
            final(self).next_id() == old(self).next_id(),
    {
        let ghost before = self.buf@;
        push_bytes(&mut self.buf, s);
        proof {
            assert(self.buf@.take(15) =~= before.take(15));
            assert forall|i: int| 0 <= i < self.offsets@.len() && self.offsets@[i] != 0 implies obj_at(
                self.buf@,
                #[trigger] self.offsets@[i] as nat,
                (i + 1) as nat,
            ) by {
                let o = self.offsets@[i] as nat;
                assert(obj_at(before, o, (i + 1) as nat));
                assert(self.buf@.subrange(o as int, o + obj_header((i + 1) as nat).len() as int) =~= before.subrange(
                    o as int,
                    o + obj_header((i + 1) as nat).len() as int,
                ));
            }
        }
    }
    /// Records the current end of the buffer as object `id`'s offset and
    /// writes its `id 0 obj` header there.
    fn begin_object(&mut self, id: Ref)
        requires
            old(self).wf(),
            id.0 >= 1,
        ensures
            final(self).wf(),
            final(self).bytes() == old(self).bytes() + obj_header(id.0 as nat),
            final(self).offsets() == record(old(self).offsets(), id.0 as nat, old(self).bytes().len() as usize),
            final(self).next_id() == old(self).next_id(),
    {
        let ghost before = self.buf@;
        let ghost old_offsets = self.offsets@;
        let ghost nid = self.next_id;
        let idx = (id.0 - 1) as usize;
        let here = self.buf.len();
        let mut header: Vec<u8> = Vec::new();
        push_dec_bytes(&mut header, id.0 as u64);
        push_str(&mut header, " 0 obj\n");
        assert(header@ =~= obj_header(id.0 as nat));
        self.append(header.as_slice());
        let ghost grown_target = if old_offsets.len() < id.0 {
            old_offsets + Seq::new((id.0 - old_offsets.len()) as nat, |i: int| 0usize)
        } else {
            old_offsets
        };
        while self.offsets.len() <= idx
            invariant
                idx == id.0 - 1,
                self.offsets@.len() <= idx + 1 || self.offsets@ == old_offsets,
                self.offsets@.len() >= old_offsets.len(),
                self.offsets@.subrange(0, old_offsets.len() as int) == old_offsets,
                forall|k: int| old_offsets.len() <= k < self.offsets@.len() ==> self.offsets@[k] == 0,
                self.buf@ == before + obj_header(id.0 as nat),
                self.buf@.len() >= 15,
                self.buf@.take(15) == pdf_header(),
                self.next_id == nid,
                nid >= 1,
                forall|i: int|
                    0 <= i < old_offsets.len() ==> old_offsets[i] == 0 || obj_at(
                        self.buf@,
                        #[trigger] old_offsets[i] as nat,
                        (i + 1) as nat,
                    ),
            decreases idx + 1 - self.offsets@.len(),
        {
            self.offsets.push(0);
        }
        assert(self.offsets@ =~= grown_target);
        self.offsets.set(idx, here);
        proof {
            assert(obj_at(self.buf@, here as nat, id.0 as nat)) by {
                assert(self.buf@.subrange(here as int, here + obj_header(id.0 as nat).len() as int) =~= obj_header(
                    id.0 as nat,
                ));
            }
            assert forall|i: int|
                0 <= i < self.offsets@.len() && self.offsets@[i] != 0 implies obj_at(
                self.buf@,
                #[trigger] self.offsets@[i] as nat,
                (i + 1) as nat,
            ) by {
                if i != idx && i < old_offsets.len() {
                    assert(self.offsets@[i] == old_offsets[i]);
                }
            }
        }
    }

    /// Writes a plain indirect object: `id 0 obj\n<body>\nendobj\n`.
    pub fn object(&mut self, id: Ref, body: &str)
        requires
            old(self).wf(),
            id.0 >= 1,
        ensures
            final(self).wf(),
            final(self).bytes() == old(self).bytes() + object_bytes(id.0 as nat, body.spec_bytes()),
            final(self).offsets() == record(old(self).offsets(), id.0 as nat, old(self).bytes().len() as usize),
            final(self).next_id() == old(self).next_id(),
            keeps_offsets(old(self).offsets(), final(self).offsets()),
            has_offset(final(self).offsets(), id.0 as nat),
    {
        proof {
            assert(old(self).buf@.len() >= 15);
            assert(old(self).buf@.len() == old(self).buf.len());
            lemma_record_offset(old(self).offsets(), id.0 as nat, old(self).bytes().len() as usize);
        }
        self.begin_object(id);
        let mut rest: Vec<u8> = Vec::new();
        push_str(&mut rest, body);
        push_str(&mut rest, "\nendobj\n");
        self.append(rest.as_slice());
        assert(self.buf@ =~= old(self).bytes() + object_bytes(id.0 as nat, body.spec_bytes()));
    }

    /// Writes a stream object whose dictionary holds `/Length`, then `dict`.
    pub fn write_stream(&mut self, id: Ref, dict: &[u8], data: &[u8])
        requires
            old(self).wf(),
            id.0 >= 1,
        ensures
            final(self).wf(),
            final(self).bytes() == old(self).bytes() + stream_bytes(id.0 as nat, dict@, data@),
            final(self).offsets() == record(old(self).offsets(), id.0 as nat, old(self).bytes().len() as usize),
            final(self).next_id() == old(self).next_id(),
            keeps_offsets(old(self).offsets(), final(self).offsets()),
            has_offset(final(self).offsets(), id.0 as nat),
    {
        proof {
            assert(old(self).buf@.len() >= 15);
            assert(old(self).buf@.len() == old(self).buf.len());
            lemma_record_offset(old(self).offsets(), id.0 as nat, old(self).bytes().len() as usize);
        }
        self.begin_object(id);
        let mut rest: Vec<u8> = Vec::new();
        push_str(&mut rest, "<< /Length ");
        push_dec_bytes(&mut rest, data.len() as u64);
        push_str(&mut rest, " ");
        push_bytes(&mut rest, dict);
        push_str(&mut rest, " >>\nstream\n");
        push_bytes(&mut rest, data);
        push_str(&mut rest, "\nendstream\nendobj\n");
        self.append(rest.as_slice());
        assert(self.buf@ =~= old(self).bytes() + stream_bytes(id.0 as nat, dict@, data@));
    }

    /// Writes an uncompressed stream object. `dict_extra` holds further
    /// dictionary entries; `/Length` is added automatically.
    pub fn stream(&mut self, id: Ref, dict_extra: &str, data: &[u8])
        requires
            old(self).wf(),
            id.0 >= 1,
        ensures
            final(self).wf(),
            final(self).bytes() == old(self).bytes() + stream_bytes(id.0 as nat, dict_extra.spec_bytes(), data@),
            final(self).offsets() == record(old(self).offsets(), id.0 as nat, old(self).bytes().len() as usize),
            final(self).next_id() == old(self).next_id(),
            keeps_offsets(old(self).offsets(), final(self).offsets()),
            has_offset(final(self).offsets(), id.0 as nat),
    {
        proof {
            assert(old(self).buf@.len() >= 15);
            assert(old(self).buf@.len() == old(self).buf.len());
            lemma_record_offset(old(self).offsets(), id.0 as nat, old(self).bytes().len() as usize);
        }
        self.write_stream(id, dict_extra.as_bytes(), data);
    }

    /// Writes a DEFLATE-compressed stream object: `data` is zlib-wrapped
    /// at level 6 and `/Filter /FlateDecode` precedes `dict_extra`.
    pub fn compressed_stream(&mut self, id: Ref, dict_extra: &str, data: &[u8])
        requires
            old(self).wf(),
            id.0 >= 1,
        ensures
            final(self).wf(),
            final(self).bytes() == old(self).bytes() + stream_bytes(
                id.0 as nat,
                "/Filter /FlateDecode ".spec_bytes() + dict_extra.spec_bytes(),
                zlib_compressed(data@, 6),
            ),
            final(self).offsets() == record(old(self).offsets(), id.0 as nat, old(self).bytes().len() as usize),
            final(self).next_id() == old(self).next_id(),
            keeps_offsets(old(self).offsets(), final(self).offsets()),
            has_offset(final(self).offsets(), id.0 as nat),
    {
        proof {
            assert(old(self).buf@.len() >= 15);
            assert(old(self).buf@.len() == old(self).buf.len());
            lemma_record_offset(old(self).offsets(), id.0 as nat, old(self).bytes().len() as usize);
        }
        self.write_compressed_stream(id, dict_extra.as_bytes(), data);
    }

    /// `compressed_stream` with the dictionary entries given as bytes.
    pub fn write_compressed_stream(&mut self, id: Ref, dict: &[u8], data: &[u8])
        requires
            old(self).wf(),
            id.0 >= 1,
        ensures
            final(self).wf(),
            final(self).bytes() == old(self).bytes() + stream_bytes(
                id.0 as nat,
                "/Filter /FlateDecode ".spec_bytes() + dict@,
                zlib_compressed(data@, 6),
            ),
            final(self).offsets() == record(old(self).offsets(), id.0 as nat, old(self).bytes().len() as usize),
            final(self).next_id() == old(self).next_id(),
            keeps_offsets(old(self).offsets(), final(self).offsets()),
            has_offset(final(self).offsets(), id.0 as nat),
    {
        proof {
            assert(old(self).buf@.len() >= 15);
            assert(old(self).buf@.len() == old(self).buf.len());
            lemma_record_offset(old(self).offsets(), id.0 as nat, old(self).bytes().len() as usize);
        }
        let compressed = zlib_compress(data, 6);
        let mut full: Vec<u8> = Vec::new();
        push_str(&mut full, "/Filter /FlateDecode ");
        push_bytes(&mut full, dict);
        self.write_stream(id, full.as_slice(), compressed.as_slice());
    }

    /// Writes the xref table, trailer and `%%EOF` with the document ID
    /// made from the two given content hashes, consuming the writer.
    pub fn finish_with_hashes(self, root: Ref, info: Option<Ref>, h1: u64, h2: u64) -> (out: Vec<u8>)
        requires
            self.wf(),
        ensures
            out@ == self.bytes() + tail_bytes(self.bytes(), self.offsets(), self.next_id(), root, info, h1, h2),
    {
        let count = self.next_id;
        let xref_offset = self.buf.len();
        let mut tail: Vec<u8> = Vec::new();
        push_str(&mut tail, "xref\n0 ");
        push_dec_bytes(&mut tail, count as u64);
        push_str(&mut tail, "\n0000000000 65535 f \n");
        let ghost start = tail@;
        let mut i: u32 = 0;
        while i < count - 1
            invariant
                count == self.next_id,
                count >= 1,
                i <= count - 1,
                tail@ == start + xref_entries(self.offsets@, i as nat),
            decreases count - 1 - i,
        {
            let idx = i as usize;
            let off: usize = if idx < self.offsets.len() {
                self.offsets[idx]
            } else {
                0
            };
            push_dec_bytes_padded(&mut tail, off as u64, 10);
            push_str(&mut tail, " 00000 n \n");
            i = i + 1;
            assert(recorded_offset(self.offsets@, i as nat) == off as nat);
            assert(tail@ =~= start + xref_entries(self.offsets@, i as nat));
        }
        push_str(&mut tail, "trailer\n<< /Size ");
        push_dec_bytes(&mut tail, count as u64);
        push_str(&mut tail, " /Root ");
        push_dec_bytes(&mut tail, root.0 as u64);
        push_str(&mut tail, " 0 R");
        let ghost before_info = tail@;
        match info {
            Some(r) => {
                push_str(&mut tail, " /Info ");
                push_dec_bytes(&mut tail, r.0 as u64);
                push_str(&mut tail, " 0 R");
            },
            None => {},
        }
        assert(tail@ =~= before_info + info_entry(info));
        push_str(&mut tail, " /ID [<");
        push_hex(&mut tail, h1, 16, false);
        push_hex(&mut tail, h2, 16, false);
        push_str(&mut tail, "> <");
        push_hex(&mut tail, h1, 16, false);
        push_hex(&mut tail, h2, 16, false);
        push_str(&mut tail, ">] >>\nstartxref\n");
        push_dec_bytes(&mut tail, xref_offset as u64);
        push_str(&mut tail, "\n%%EOF");
        assert(tail@ =~= tail_bytes(self.bytes(), self.offsets(), self.next_id(), root, info, h1, h2));
        let mut out = self.buf;
        push_bytes(&mut out, tail.as_slice());
        out
    }

    /// Writes the xref table, trailer and `%%EOF`, consuming the writer.
    /// The document ID is two hashes of everything written before the xref
    /// table (see `content_hashes`); every in-use xref entry locates its
    /// object.
    pub fn finish(self, root: Ref, info: Option<Ref>) -> (out: Vec<u8>)
        requires
            self.wf(),
        ensures
            exists|h1: u64, h2: u64|
                out@ == self.bytes() + #[trigger] tail_bytes(
                    self.bytes(),
                    self.offsets(),
                    self.next_id(),
                    root,
                    info,
                    h1,
                    h2,
                ),
            forall|id: nat|
                #![trigger recorded_offset(self.offsets(), id)]
                1 <= id && recorded_offset(self.offsets(), id) != 0 ==> obj_at(out@, recorded_offset(self.offsets(), id), id),
    {
        let ghost body = self.bytes();
        let ghost offsets = self.offsets();
        proof {
            self.lemma_offsets_locate_objects();
        }
        let (h1, h2) = content_hashes(self.buf.as_slice());
        let out = self.finish_with_hashes(root, info, h1, h2);
        proof {
            assert forall|id: nat|
                #![trigger recorded_offset(offsets, id)]
                1 <= id && recorded_offset(offsets, id) != 0 implies obj_at(out@, recorded_offset(offsets, id), id) by {
                let o = recorded_offset(offsets, id);
                assert(obj_at(body, o, id));
                assert(out@.subrange(o as int, o + obj_header(id).len() as int) =~= body.subrange(
                    o as int,
                    o + obj_header(id).len() as int,
                ));
            }
        }
        out
    }
}

/// The number of allocations among the first `k` calls.
pub open spec fn allocations_before(allocs: Seq<bool>, k: nat) -> nat
    decreases k,
{
    if k == 0 || k > allocs.len() {
        0
    } else {
        allocations_before(allocs, (k - 1) as nat) + if allocs[k - 1] {
            1nat
        } else {
            0nat
        }
    }
}

proof fn lemma_next_ids(ids: Seq<nat>, allocs: Seq<bool>, k: nat)
    requires
        ids.len() == allocs.len() + 1,
        ids[0] == 1,
        forall|i: int| 0 <= i < allocs.len() ==> ids[i + 1] == ids[i] + if #[trigger] allocs[i] {
            1nat
        } else {
            0nat
        },
        k <= allocs.len(),
    ensures
        ids[k as int] == 1 + allocations_before(allocs, k),
    decreases k,
{
    if k > 0 {
        lemma_next_ids(ids, allocs, (k - 1) as nat);
    }
}

proof fn lemma_allocations_grow(allocs: Seq<bool>, a: nat, b: nat)
    requires
        a <= b <= allocs.len(),
    ensures
        allocations_before(allocs, a) <= allocations_before(allocs, b),
    decreases b - a,
{
    if a < b {
        lemma_allocations_grow(allocs, a, (b - 1) as nat);
    }
}

/// Object IDs start at 1 and never repeat. Take the writers before each
/// of a run of calls on a new writer, each call an `allocate` or any
/// other method: the contracts say that `allocate` hands out the writer's
/// next ID and raises it by one while every other method keeps it. Then
/// the call at `i`, if an allocation, hands out 1 plus the number of
/// allocations before it, and two allocations hand out different IDs.
pub proof fn lemma_ids_count_up_and_never_repeat(writers: Seq<PdfWriter>, allocs: Seq<bool>, i: nat, j: nat)
    requires
        writers.len() == allocs.len() + 1,
        writers[0].next_id() == 1,
        forall|k: int| 0 <= k < allocs.len() ==> writers[k + 1].next_id() == writers[k].next_id() + if #[trigger] allocs[k] {
            1nat
        } else {
            0nat
        },
        i < j < allocs.len(),
        allocs[i as int],
    ensures
        writers[i as int].next_id() == 1 + allocations_before(allocs, i),
        writers[i as int].next_id() < writers[j as int].next_id(),
{
    let ids = writers.map_values(|w: PdfWriter| w.next_id() as nat);
    assert forall|k: int| 0 <= k < allocs.len() implies ids[k + 1] == ids[k] + if #[trigger] allocs[k] {
        1nat
    } else {
        0nat
    } by {
        assert(writers[k + 1].next_id() == writers[k].next_id() + if allocs[k] {
            1nat
        } else {
            0nat
        });
    }
    lemma_next_ids(ids, allocs, i);
    lemma_next_ids(ids, allocs, j);
    lemma_allocations_grow(allocs, i + 1, j);
}

} // verus!
