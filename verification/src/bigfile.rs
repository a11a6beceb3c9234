//! The BigFile archive: a count, a one-byte key, a table of offsets and
//! sizes, and the members, each byte combined with the key by exclusive or.
//!
//! | offset | field                         | size |
//! |--------|-------------------------------|------|
//! | 0      | count of members              | 4    |
//! | 4      | key                           | 1    |
//! | 5      | for each member: start, size  | 8    |
//! | ...    | the scrambled members         |      |
use vstd::prelude::*;
use crate::archive::{
    all_within, check_table, concat, cut, extract, lemma_concat_len, lemma_concat_part,
    lemma_offset_order, lemma_offset_step, lemma_placed_sound, lemma_xor_twice, offset,
    overlap_warnings, payloads, place, placed, total_len, xor_bytes, xor_seq, Span,
};
use crate::bmp::{bmp_of_dib, dib_of_bmp, encode_bmp_from_dib, strip_bmp_to_dib};
use crate::cursor::{Reader, Writer};
use crate::error::{CodecError, Warning};
use crate::wire::{le_u32, lemma_field_u32, u32_le};

verus! {

/// One row of the table: where a member starts, counted from the start of
/// the archive, and how many bytes it takes.
#[derive(Clone, Copy, Debug, PartialEq, Eq, Structural)]
pub struct BigFileDescriptor {
    pub start_at: u32,
    pub size: u32,
}

impl BigFileDescriptor {
    /// The eight bytes of the row as stored.
    pub open spec fn wire(self) -> Seq<u8> {
        u32_le(self.start_at) + u32_le(self.size)
    }

    /// The row whose stored bytes start at `b[at]`.
    pub open spec fn at(b: Seq<u8>, at: int) -> BigFileDescriptor {
        BigFileDescriptor { start_at: le_u32(b, at), size: le_u32(b, at + 4) }
    }

    /// The bytes that the row speaks of.
    pub open spec fn span(self) -> Span {
        Span { start_at: self.start_at, size: self.size }
    }
}

/// The header of an archive: the key and the table. The count is that of
/// the rows of the table.
#[derive(Debug, PartialEq, Eq)]
pub struct BigFile {
    pub encrypt_key: u8,
    pub file_descriptors: Vec<BigFileDescriptor>,
}

/// What a `BigFile` holds.
pub struct BigFileView {
    pub encrypt_key: u8,
    pub descriptors: Seq<BigFileDescriptor>,
}

impl View for BigFile {
    type V = BigFileView;

    open spec fn view(&self) -> BigFileView {
        BigFileView { encrypt_key: self.encrypt_key, descriptors: self.file_descriptors@ }
    }
}

/// The number of bytes that the header of an archive of `n` members takes.
pub open spec fn header_len(n: nat) -> nat {
    5 + 8 * n
}

/// The stored bytes of a table: eight for each row, in order.
pub open spec fn table_bytes(rows: Seq<BigFileDescriptor>) -> Seq<u8> {
    Seq::new(8 * rows.len(), |i: int| rows[i / 8].wire()[i % 8])
}

/// The `n` rows whose stored bytes start at `b[at]`.
pub open spec fn table_at(b: Seq<u8>, at: int, n: nat) -> Seq<BigFileDescriptor> {
    Seq::new(n, |i: int| BigFileDescriptor::at(b, at + 8 * i))
}

/// The spans that the rows of a table speak of.
pub open spec fn spans_of(rows: Seq<BigFileDescriptor>) -> Seq<Span> {
    Seq::new(rows.len(), |i: int| rows[i].span())
}

/// The rows of a table that speaks of the given spans.
pub open spec fn rows_of(spans: Seq<Span>) -> Seq<BigFileDescriptor> {
    Seq::new(
        spans.len(),
        |i: int| BigFileDescriptor { start_at: spans[i].start_at, size: spans[i].size },
    )
}

/// The stored form of a header.
pub open spec fn header_bytes(h: BigFileView) -> Seq<u8> {
    u32_le(h.descriptors.len() as u32) + seq![h.encrypt_key] + table_bytes(h.descriptors)
}

/// The header at the start of `b`: the count and the key must be there,
/// then the whole table.
pub open spec fn parse_header(b: Seq<u8>) -> Result<BigFileView, CodecError> {
    if b.len() < 5 {
        Err(CodecError::TruncatedInput)
    } else if b.len() < header_len(le_u32(b, 0) as nat) {
        Err(CodecError::TruncatedInput)
    } else {
        Ok(BigFileView { encrypt_key: b[4], descriptors: table_at(b, 5, le_u32(b, 0) as nat) })
    }
}

/// The header of the archive that holds the given members under the key.
pub open spec fn header_for(members: Seq<Seq<u8>>, key: u8) -> BigFileView {
    BigFileView {
        encrypt_key: key,
        descriptors: rows_of(placed(header_len(members.len()), members)),
    }
}

/// The number of bytes of the archive that holds the given members.
pub open spec fn bigfile_len(members: Seq<Seq<u8>>) -> nat {
    header_len(members.len()) + total_len(members)
}

/// The archive that holds the given members under the key: the header,
/// then the members back to back, each byte combined with the key.
pub open spec fn bigfile_bytes(members: Seq<Seq<u8>>, key: u8) -> Seq<u8> {
    header_bytes(header_for(members, key)) + xor_seq(concat(members), key)
}

/// What an archive was found to hold.
#[derive(Debug, PartialEq, Eq)]
pub struct BigFileContents {
    pub encrypt_key: u8,
    pub members: Vec<Vec<u8>>,
    pub warnings: Vec<Warning>,
}

/// What a `BigFileContents` holds.
pub struct BigFileContentsView {
    pub encrypt_key: u8,
    pub members: Seq<Seq<u8>>,
    pub warnings: Seq<Warning>,
}

impl View for BigFileContents {
    type V = BigFileContentsView;

    open spec fn view(&self) -> BigFileContentsView {
        BigFileContentsView {
            encrypt_key: self.encrypt_key,
            members: payloads(self.members@),
            warnings: self.warnings@,
        }
    }
}

/// What decoding the archive `b` gives. The header is read first; then
/// every member must lie within the archive; each member is the bytes that
/// its row names, combined with the key.
pub open spec fn parse_bigfile(b: Seq<u8>) -> Result<BigFileContentsView, CodecError> {
    match parse_header(b) {
        Err(e) => Err(e),
        Ok(h) => if !all_within(spans_of(h.descriptors), b.len()) {
            Err(CodecError::OffsetOutOfRange)
        } else {
            Ok(
                BigFileContentsView {
                    encrypt_key: h.encrypt_key,
                    members: Seq::new(
                        h.descriptors.len(),
                        |i: int| xor_seq(cut(b, h.descriptors[i].span()), h.encrypt_key),
                    ),
                    warnings: overlap_warnings(spans_of(h.descriptors)),
                },
            )
        },
    }
}

impl BigFileDescriptor {
    /// The bytes that the row speaks of.
    pub fn to_span(&self) -> (s: Span)
        ensures
            s == self.span(),
    {
        Span { start_at: self.start_at, size: self.size }
    }
}

impl BigFile {
    /// Reads a header at the reader's position. On success the reader
    /// stands behind the table.
    pub fn decode(reader: &mut Reader) -> (r: Result<BigFile, CodecError>)
        ensures
            final(reader).data == old(reader).data,
            match parse_header(old(reader).rest()) {
                Ok(h) => r is Ok && r->Ok_0@ == h && final(reader).pos == old(reader).pos
                    + header_len(h.descriptors.len()),
                Err(e) => r is Err && r->Err_0 == e,
            },
    {
        let ghost b = reader.rest();
        let ghost start = reader.pos as int;
        if reader.remaining() < 5 {
            return Err(CodecError::TruncatedInput);
        }
        assert(forall|k: int| 0 <= k < b.len() ==> b[k] == reader.data@[start + k]);
        let count: u32 = reader.read_u32()?;
        let encrypt_key: u8 = reader.read_u8()?;
        if (reader.remaining() as u64) < 8 * (count as u64) {
            return Err(CodecError::TruncatedInput);
        }
        let mut file_descriptors: Vec<BigFileDescriptor> = Vec::new();
        let mut i: u32 = 0;
        while i < count
            invariant
                0 <= i <= count,
                reader.data == old(reader).data,
                b == old(reader).rest(),
                start == old(reader).pos,
                start + 5 + 8 * count <= reader.data@.len(),
                reader.pos == start + 5 + 8 * i,
                file_descriptors@ == table_at(b, 5, i as nat),
            decreases count - i,
        {
            let start_at: u32 = reader.read_u32()?;
            let size: u32 = reader.read_u32()?;
            file_descriptors.push(BigFileDescriptor { start_at, size });
            i = i + 1;
            assert(file_descriptors@ =~= table_at(b, 5, i as nat));
        }
        Ok(BigFile { encrypt_key, file_descriptors })
    }

    /// The stored form of the header. A table of more rows than a 32-bit
    /// count can hold is refused, and so is one that no buffer can hold.
    pub fn encode(&self) -> (r: Result<Vec<u8>, CodecError>)
        ensures
            self@.descriptors.len() <= u32::MAX && header_len(self@.descriptors.len())
                <= usize::MAX ==> r is Ok && r->Ok_0@ == header_bytes(self@),
            !(self@.descriptors.len() <= u32::MAX && header_len(self@.descriptors.len())
                <= usize::MAX) ==> r == Err::<Vec<u8>, CodecError>(CodecError::Overflow),
    {
        let n: usize = self.file_descriptors.len();
        if n > u32::MAX as usize || n > (usize::MAX - 5) / 8 {
            return Err(CodecError::Overflow);
        }
        let mut w = Writer::new();
        w.write_u32(n as u32)?;
        w.write_u8(self.encrypt_key)?;
        let ghost head = w.buf@;
        let mut i: usize = 0;
        while i < n
            invariant
                0 <= i <= n,
                n == self.file_descriptors@.len(),
                5 + 8 * n <= usize::MAX,
                w.limit == usize::MAX,
                w.pos == 5 + 8 * i,
                w.at_end(),
                head == u32_le(n as u32) + seq![self.encrypt_key],
                w.buf@ == head + table_bytes(self.file_descriptors@.subrange(0, i as int)),
            decreases n - i,
        {
            let d: BigFileDescriptor = self.file_descriptors[i];
            let ghost before = w.buf@;
            w.write_u32(d.start_at)?;
            w.write_u32(d.size)?;
            assert(w.buf@ =~= head + table_bytes(self.file_descriptors@.subrange(0, i + 1))) by {
                let now = table_bytes(self.file_descriptors@.subrange(0, i + 1));
                let was = table_bytes(self.file_descriptors@.subrange(0, i as int));
                assert(w.buf@ =~= before + d.wire());
                assert(now =~= was + d.wire());
            }
            i = i + 1;
        }
        assert(self.file_descriptors@.subrange(0, n as int) =~= self.file_descriptors@);
        Ok(w.into_bytes())
    }
}

/// Packs the members into an archive under the key. An archive of more
/// bytes than a 32-bit offset can count is refused.
pub fn encode_bigfile(members: &Vec<Vec<u8>>, key: u8) -> (r: Result<Vec<u8>, CodecError>)
    ensures
        bigfile_len(payloads(members@)) <= u32::MAX ==> r is Ok && r->Ok_0@ == bigfile_bytes(
            payloads(members@),
            key,
        ),
        bigfile_len(payloads(members@)) > u32::MAX ==> r == Err::<Vec<u8>, CodecError>(
            CodecError::Overflow,
        ),
{
    let ghost parts = payloads(members@);
    let n: usize = members.len();
    if n > (u32::MAX as usize - 5) / 8 {
        return Err(CodecError::Overflow);
    }
    let spans: Vec<Span> = place(5 + 8 * n, members)?;
    let mut file_descriptors: Vec<BigFileDescriptor> = Vec::new();
    let mut i: usize = 0;
    while i < n
        invariant
            0 <= i <= n,
            n == spans@.len(),
            file_descriptors@ == rows_of(spans@).subrange(0, i as int),
        decreases n - i,
    {
        let s: Span = spans[i];
        file_descriptors.push(BigFileDescriptor { start_at: s.start_at, size: s.size });
        i = i + 1;
        assert(file_descriptors@ =~= rows_of(spans@).subrange(0, i as int));
    }
    assert(rows_of(spans@).subrange(0, n as int) =~= rows_of(spans@));
    let header = BigFile { encrypt_key: key, file_descriptors };
    assert(header@ == header_for(parts, key));
    let head: Vec<u8> = header.encode()?;
    let mut w = Writer::append_within(head, u32::MAX as usize);
    let mut k: usize = 0;
    proof {
        assert(parts.take(0) =~= Seq::<Seq<u8>>::empty());
        assert(xor_seq(concat(parts.take(0)), key) =~= Seq::<u8>::empty());
        assert(header_bytes(header@).len() == 5 + 8 * n);
    }
    while k < n
        invariant
            0 <= k <= n,
            n == members@.len(),
            parts == payloads(members@),
            header_len(n as nat) + total_len(parts) <= u32::MAX,
            w.limit == u32::MAX,
            w.at_end(),
            w.pos == header_len(n as nat) + offset(parts, k as int),
            w.buf@ == header_bytes(header_for(parts, key)) + xor_seq(
                concat(parts.take(k as int)),
                key,
            ),
        decreases n - k,
    {
        proof {
            lemma_offset_step(parts, k as int);
            lemma_offset_order(parts, k as int, n as int);
        }
        let scrambled: Vec<u8> = xor_bytes(members[k].as_slice(), key);
        w.write_all(scrambled.as_slice())?;
        assert(xor_seq(concat(parts.take(k as int)), key) + xor_seq(parts[k as int], key)
            =~= xor_seq(concat(parts.take(k + 1)), key));
        k = k + 1;
    }
    assert(parts.take(n as int) =~= parts);
    Ok(w.into_bytes())
}

/// Unpacks an archive: the key, the members with the scramble taken off,
/// and a warning if two members share bytes. A member that reaches beyond
/// the archive is refused.
pub fn decode_bigfile(bytes: &[u8]) -> (r: Result<BigFileContents, CodecError>)
    ensures
        match parse_bigfile(bytes@) {
            Ok(found) => r is Ok && r->Ok_0@ == found,
            Err(e) => r is Err && r->Err_0 == e,
        },
{
    let mut reader = Reader::new(bytes);
    let header: BigFile = BigFile::decode(&mut reader)?;
    let n: usize = header.file_descriptors.len();
    let ghost rows = header.file_descriptors@;
    assert(parse_header(bytes@) == Ok::<BigFileView, CodecError>(header@));
    let mut spans: Vec<Span> = Vec::new();
    let mut members: Vec<Vec<u8>> = Vec::new();
    let mut i: usize = 0;
    while i < n
        invariant
            0 <= i <= n,
            n == rows.len(),
            rows == header.file_descriptors@,
            parse_header(bytes@) == Ok::<BigFileView, CodecError>(header@),
            spans@ == spans_of(rows).subrange(0, i as int),
            forall|k: int| 0 <= k < i ==> (#[trigger] spans_of(rows)[k]).within(bytes@.len()),
            members@.len() == i,
            forall|k: int|
                0 <= k < i ==> (#[trigger] members@[k])@ == xor_seq(
                    cut(bytes@, rows[k].span()),
                    header.encrypt_key,
                ),
        decreases n - i,
    {
        let span: Span = header.file_descriptors[i].to_span();
        assert(span == spans_of(rows)[i as int]);
        proof {
            if !span.within(bytes@.len()) {
                assert(!spans_of(rows)[i as int].within(bytes@.len()));
            }
        }
        let stored: Vec<u8> = extract(bytes, span)?;
        members.push(xor_bytes(stored.as_slice(), header.encrypt_key));
        spans.push(span);
        i = i + 1;
        assert(spans@ =~= spans_of(rows).subrange(0, i as int));
    }
    assert(spans@ =~= spans_of(rows));
    let warnings: Vec<Warning> = check_table(spans.as_slice());
    let found = BigFileContents { encrypt_key: header.encrypt_key, members, warnings };
    assert(found@.members =~= parse_bigfile(bytes@)->Ok_0.members);
    Ok(found)
}

/// The bitmaps without their file headers, in order.
pub open spec fn strip_all(files: Seq<Seq<u8>>) -> Seq<Seq<u8>> {
    Seq::new(files.len(), |i: int| dib_of_bmp(files[i]))
}

/// The DIBs with a file header put before each, in order; the first DIB
/// that cannot get one ends the wrapping with its error.
pub open spec fn wrap_all(dibs: Seq<Seq<u8>>) -> Result<Seq<Seq<u8>>, CodecError>
    decreases dibs.len(),
{
    if dibs.len() == 0 {
        Ok(Seq::empty())
    } else {
        match wrap_all(dibs.drop_last()) {
            Err(e) => Err(e),
            Ok(before) => match bmp_of_dib(dibs.last()) {
                Err(e) => Err(e),
                Ok(bmp) => Ok(before.push(bmp)),
            },
        }
    }
}

/// The archive that packing the given files gives: the files as they are
/// if `raw` is set, else each without its bitmap file header.
pub open spec fn packed(files: Seq<Seq<u8>>, key: u8, raw: bool) -> Result<Seq<u8>, CodecError> {
    let members = if raw {
        files
    } else {
        strip_all(files)
    };
    if bigfile_len(members) > u32::MAX {
        Err(CodecError::Overflow)
    } else {
        Ok(bigfile_bytes(members, key))
    }
}

/// The bitmap files that unpacking the archive `b` gives: its members, a
/// file header put before each.
pub open spec fn unpacked(b: Seq<u8>) -> Result<Seq<Seq<u8>>, CodecError> {
    match parse_bigfile(b) {
        Err(e) => Err(e),
        Ok(found) => wrap_all(found.members),
    }
}

/// Once wrapping has failed at some DIB, it fails in the same way for every
/// longer list that starts with the same DIBs.
proof fn lemma_wrap_all_err(dibs: Seq<Seq<u8>>, k: int)
    requires
        0 <= k <= dibs.len(),
        wrap_all(dibs.take(k)) is Err,
    ensures
        wrap_all(dibs) == wrap_all(dibs.take(k)),
    decreases dibs.len(),
{
    if k < dibs.len() {
        assert(dibs.drop_last().take(k) =~= dibs.take(k));
        lemma_wrap_all_err(dibs.drop_last(), k);
    } else {
        assert(dibs.take(k) =~= dibs);
    }
}

/// Packs bitmap files into an archive under the key, each without its file
/// header. With `raw` set the files are packed as they are, whatever they
/// hold.
pub fn pack_bitmaps(files: &Vec<Vec<u8>>, key: u8, raw: bool) -> (r: Result<Vec<u8>, CodecError>)
    ensures
        match packed(payloads(files@), key, raw) {
            Ok(archive) => r is Ok && r->Ok_0@ == archive,
            Err(e) => r is Err && r->Err_0 == e,
        },
{
    if raw {
        return encode_bigfile(files, key);
    }
    let mut members: Vec<Vec<u8>> = Vec::new();
    let mut i: usize = 0;
    while i < files.len()
        invariant
            0 <= i <= files@.len(),
            members@.len() == i,
            forall|k: int|
                0 <= k < i ==> (#[trigger] members@[k])@ == dib_of_bmp(payloads(files@)[k]),
        decreases files@.len() - i,
    {
        members.push(strip_bmp_to_dib(files[i].as_slice()));
        i = i + 1;
    }
    assert(payloads(members@) =~= strip_all(payloads(files@)));
    encode_bigfile(&members, key)
}

/// Unpacks an archive of bitmaps into bitmap files: each member gets the
/// file header that its info header calls for.
pub fn unpack_bitmaps(archive: &[u8]) -> (r: Result<Vec<Vec<u8>>, CodecError>)
    ensures
        match unpacked(archive@) {
            Ok(files) => r is Ok && payloads(r->Ok_0@) == files,
            Err(e) => r is Err && r->Err_0 == e,
        },
{
    let found: BigFileContents = decode_bigfile(archive)?;
    let ghost parts = payloads(found.members@);
    assert(unpacked(archive@) == wrap_all(parts));
    let mut files: Vec<Vec<u8>> = Vec::new();
    let mut i: usize = 0;
    assert(parts.take(0) =~= Seq::<Seq<u8>>::empty());
    assert(payloads(files@) =~= Seq::<Seq<u8>>::empty());
    while i < found.members.len()
        invariant
            0 <= i <= found.members@.len(),
            parts == payloads(found.members@),
            unpacked(archive@) == wrap_all(parts),
            wrap_all(parts.take(i as int)) == Ok::<Seq<Seq<u8>>, CodecError>(payloads(files@)),
        decreases found.members@.len() - i,
    {
        proof {
            assert(parts.take(i + 1).drop_last() =~= parts.take(i as int));
            assert(parts.take(i + 1).last() == found.members@[i as int]@);
            if wrap_all(parts.take(i + 1)) is Err {
                lemma_wrap_all_err(parts, i + 1);
            }
        }
        let bmp: Vec<u8> = encode_bmp_from_dib(found.members[i].as_slice())?;
        let ghost before = payloads(files@);
        files.push(bmp);
        assert(payloads(files@) =~= before.push(bmp@));
        i = i + 1;
    }
    assert(parts.take(found.members@.len() as int) =~= parts);
    Ok(files)
}

/// Reading back the stored bytes of a table gives the table, whatever
/// stands before and behind them.
pub proof fn lemma_table_round_trip(head: Seq<u8>, rows: Seq<BigFileDescriptor>, tail: Seq<u8>)
    ensures
        table_at(head + table_bytes(rows) + tail, head.len() as int, rows.len()) == rows,
{
    let b = head + table_bytes(rows) + tail;
    assert forall|i: int| 0 <= i < rows.len() implies BigFileDescriptor::at(b, head.len() + 8 * i)
        == rows[i] by {
        let k = head.len() + 8 * i;
        let t = table_bytes(rows);
        assert(b.subrange(k, k + 4) =~= u32_le(rows[i].start_at)) by {
            assert forall|j: int| 0 <= j < 4 implies b[k + j] == u32_le(rows[i].start_at)[j] by {
                assert(b[k + j] == t[8 * i + j]);
                assert(rows[i].wire()[j] == u32_le(rows[i].start_at)[j]);
            }
        }
        assert(b.subrange(k + 4, k + 8) =~= u32_le(rows[i].size)) by {
            assert forall|j: int| 0 <= j < 4 implies b[k + 4 + j] == u32_le(rows[i].size)[j] by {
                assert(b[k + 4 + j] == t[8 * i + 4 + j]);
                assert(rows[i].wire()[4 + j] == u32_le(rows[i].size)[j]);
            }
        }
        lemma_field_u32(b, k, rows[i].start_at);
        lemma_field_u32(b, k + 4, rows[i].size);
    }
    assert(table_at(b, head.len() as int, rows.len()) =~= rows);
}

/// Reading back a stored header gives the header, whatever follows it.
pub proof fn lemma_header_round_trip(h: BigFileView, tail: Seq<u8>)
    requires
        h.descriptors.len() <= u32::MAX,
    ensures
        header_bytes(h).len() == header_len(h.descriptors.len()),
        parse_header(header_bytes(h) + tail) == Ok::<BigFileView, CodecError>(h),
{
    let n = h.descriptors.len() as u32;
    let head = u32_le(n) + seq![h.encrypt_key];
    let b = header_bytes(h) + tail;
    assert(b.subrange(0, 4) =~= u32_le(n));
    lemma_field_u32(b, 0, n);
    assert(b[4] == h.encrypt_key);
    lemma_table_round_trip(head, h.descriptors, tail);
}

/// The header of a packed archive reads back as it was written, and its
/// table names members that lie within the archive and share no byte.
proof fn lemma_packed_header(members: Seq<Seq<u8>>, key: u8)
    requires
        bigfile_len(members) <= u32::MAX,
    ensures
        bigfile_bytes(members, key).len() == bigfile_len(members),
        parse_header(bigfile_bytes(members, key)) == Ok::<BigFileView, CodecError>(
            header_for(members, key),
        ),
        spans_of(header_for(members, key).descriptors) == placed(
            header_len(members.len()),
            members,
        ),
        all_within(placed(header_len(members.len()), members), bigfile_len(members)),
        overlap_warnings(placed(header_len(members.len()), members)) == Seq::<Warning>::empty(),
{
    let h = header_for(members, key);
    lemma_header_round_trip(h, xor_seq(concat(members), key));
    lemma_concat_len(members);
    lemma_placed_sound(header_len(members.len()), members);
    assert(spans_of(h.descriptors) =~= placed(header_len(members.len()), members));
}

/// The bytes that the table of a packed archive names for member `i` are
/// that member, combined with the key.
proof fn lemma_packed_member(members: Seq<Seq<u8>>, key: u8, i: int)
    requires
        bigfile_len(members) <= u32::MAX,
        0 <= i < members.len(),
    ensures
        xor_seq(
            cut(bigfile_bytes(members, key), placed(header_len(members.len()), members)[i]),
            key,
        ) == members[i],
{
    let n = members.len();
    let b = bigfile_bytes(members, key);
    let span = placed(header_len(n), members)[i];
    let at = offset(members, i) as int;
    lemma_packed_header(members, key);
    lemma_concat_len(members);
    lemma_concat_part(members, i);
    lemma_offset_order(members, i, n as int);
    assert(span.start_at == header_len(n) + at);
    assert(span.size == members[i].len());
    assert(header_bytes(header_for(members, key)).len() == header_len(n));
    assert(cut(b, span) =~= xor_seq(concat(members).subrange(at, at + members[i].len()), key));
    lemma_xor_twice(members[i], key);
}

/// Unpacking what was packed gives the key and the members back, and no
/// warning.
pub proof fn lemma_bigfile_round_trip(members: Seq<Seq<u8>>, key: u8)
    requires
        bigfile_len(members) <= u32::MAX,
    ensures
        bigfile_bytes(members, key).len() == bigfile_len(members),
        parse_bigfile(bigfile_bytes(members, key)) == Ok::<BigFileContentsView, CodecError>(
            BigFileContentsView { encrypt_key: key, members, warnings: Seq::empty() },
        ),
{
    let b = bigfile_bytes(members, key);
    let h = header_for(members, key);
    lemma_packed_header(members, key);
    let got = parse_bigfile(b)->Ok_0;
    assert forall|i: int| 0 <= i < members.len() implies #[trigger] got.members[i] == members[i] by {
        lemma_packed_member(members, key, i);
        assert(h.descriptors[i].span() == placed(header_len(members.len()), members)[i]);
    }
    assert(got.members =~= members);
}

} // verus!
