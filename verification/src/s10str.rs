//! The S10Str archive: a count, a table of titled rows, and the members,
//! stored as they are.
//!
//! | offset | field                                  | size |
//! |--------|----------------------------------------|------|
//! | 0      | count of members                       | 4    |
//! | 4      | for each member: title, start, size    | 528  |
//! | ...    | the members                            |      |
//!
//! A title takes 520 bytes: its UTF-16LE encoding, followed by zeros.
use vstd::prelude::*;
use vstd::slice::slice_to_vec;
use vstd::string::*;
use crate::archive::{
    check_table, concat, cut, extract, lemma_concat_len, lemma_concat_part, lemma_offset_order,
    lemma_offset_step, lemma_placed_sound, offset, overlap_warnings, place_sizes, placed,
    total_len, Span,
};
use crate::cursor::{Reader, Writer};
use crate::error::{CodecError, Warning};
use crate::utf16::{
    decode_utf16le, encode_utf16le, is_utf16le, lemma_trim_padding, lemma_utf16le_concat,
    lemma_utf16le_injective, lemma_utf16le_len, lemma_utf16le_nuls, lemma_utf16le_text, nuls,
    trim_nuls, utf16le, utf16le_text, zeros,
};
use crate::wire::{le_u32, lemma_field_u32, u32_le};

verus! {

/// One row of the table: the stored title of a member, where the member
/// starts, counted from the start of the archive, and how many bytes it
/// takes.
#[derive(Clone, Copy, Debug, PartialEq, Eq)]
pub struct S10StrFileDescriptor {
    pub title_u16le: [u8; 520],
    pub start_at: u32,
    pub size: u32,
}

/// What a row holds.
pub struct S10StrRow {
    pub title: Seq<u8>,
    pub start_at: u32,
    pub size: u32,
}

impl View for S10StrFileDescriptor {
    type V = S10StrRow;

    open spec fn view(&self) -> S10StrRow {
        S10StrRow { title: self.title_u16le@, start_at: self.start_at, size: self.size }
    }
}

impl S10StrRow {
    /// The 528 bytes of the row as stored.
    pub open spec fn wire(self) -> Seq<u8> {
        self.title + u32_le(self.start_at) + u32_le(self.size)
    }

    /// The row whose stored bytes start at `b[at]`.
    pub open spec fn at(b: Seq<u8>, at: int) -> S10StrRow {
        S10StrRow {
            title: b.subrange(at, at + 520),
            start_at: le_u32(b, at + 520),
            size: le_u32(b, at + 524),
        }
    }

    /// The bytes that the row speaks of.
    pub open spec fn span(self) -> Span {
        Span { start_at: self.start_at, size: self.size }
    }
}

/// The header of an archive: the table. The count is that of its rows.
#[derive(Debug, PartialEq, Eq)]
pub struct S10StrFile {
    pub file_descriptors: Vec<S10StrFileDescriptor>,
}

impl View for S10StrFile {
    type V = Seq<S10StrRow>;

    open spec fn view(&self) -> Seq<S10StrRow> {
        Seq::new(self.file_descriptors@.len(), |i: int| self.file_descriptors@[i]@)
    }
}

/// A member of an archive with its title.
#[derive(Debug, PartialEq, Eq)]
pub struct S10StrEntry {
    pub title: String,
    pub payload: Vec<u8>,
}

/// What an entry holds.
pub struct S10StrEntryView {
    pub title: Seq<char>,
    pub payload: Seq<u8>,
}

impl View for S10StrEntry {
    type V = S10StrEntryView;

    open spec fn view(&self) -> S10StrEntryView {
        S10StrEntryView { title: self.title@, payload: self.payload@ }
    }
}

/// What a list of entries holds.
pub open spec fn entry_views(entries: Seq<S10StrEntry>) -> Seq<S10StrEntryView> {
    Seq::new(entries.len(), |i: int| entries[i]@)
}

/// The payloads of the entries, in order.
pub open spec fn entry_payloads(entries: Seq<S10StrEntryView>) -> Seq<Seq<u8>> {
    Seq::new(entries.len(), |i: int| entries[i].payload)
}

/// The number of bytes that the header of an archive of `n` members takes.
pub open spec fn header_len(n: nat) -> nat {
    4 + 528 * n
}

/// Whether a title can be stored: its encoding must not take more than 520
/// bytes.
pub open spec fn title_fits(title: Seq<char>) -> bool {
    utf16le(title).len() <= 520
}

/// Whether the title of every entry can be stored.
pub open spec fn titles_fit(entries: Seq<S10StrEntryView>) -> bool {
    forall|i: int| 0 <= i < entries.len() ==> title_fits(#[trigger] entries[i].title)
}

/// The 520 bytes of a stored title: the encoding, then zeros.
pub open spec fn title_field(title: Seq<char>) -> Seq<u8> {
    utf16le(title) + zeros((520 - utf16le(title).len()) as nat)
}

/// The title that a stored title stands for: the text it encodes, without
/// the characters U+0000 at its end.
pub open spec fn field_title(field: Seq<u8>) -> Seq<char> {
    trim_nuls(utf16le_text(field))
}

/// The stored bytes of a table: 528 for each row, in order.
pub open spec fn table_bytes(rows: Seq<S10StrRow>) -> Seq<u8> {
    Seq::new(528 * rows.len(), |i: int| rows[i / 528].wire()[i % 528])
}

/// The `n` rows whose stored bytes start at `b[at]`.
pub open spec fn table_at(b: Seq<u8>, at: int, n: nat) -> Seq<S10StrRow> {
    Seq::new(n, |i: int| S10StrRow::at(b, at + 528 * i))
}

/// The spans that the rows of a table speak of.
pub open spec fn spans_of(rows: Seq<S10StrRow>) -> Seq<Span> {
    Seq::new(rows.len(), |i: int| rows[i].span())
}

/// The stored form of a header.
pub open spec fn header_bytes(rows: Seq<S10StrRow>) -> Seq<u8> {
    u32_le(rows.len() as u32) + table_bytes(rows)
}

/// The header at the start of `b`: the count must be there, then the whole
/// table.
pub open spec fn parse_header(b: Seq<u8>) -> Result<Seq<S10StrRow>, CodecError> {
    if b.len() < 4 {
        Err(CodecError::TruncatedInput)
    } else if b.len() < header_len(le_u32(b, 0) as nat) {
        Err(CodecError::TruncatedInput)
    } else {
        Ok(table_at(b, 4, le_u32(b, 0) as nat))
    }
}

/// The table of the archive that holds the given entries.
pub open spec fn rows_for(entries: Seq<S10StrEntryView>) -> Seq<S10StrRow> {
    Seq::new(
        entries.len(),
        |i: int|
            S10StrRow {
                title: title_field(entries[i].title),
                start_at: placed(header_len(entries.len()), entry_payloads(entries))[i].start_at,
                size: placed(header_len(entries.len()), entry_payloads(entries))[i].size,
            },
    )
}

/// The number of bytes of the archive that holds the given entries.
pub open spec fn s10str_len(entries: Seq<S10StrEntryView>) -> nat {
    header_len(entries.len()) + total_len(entry_payloads(entries))
}

/// The archive that holds the given entries: the header, then the payloads
/// back to back.
pub open spec fn s10str_bytes(entries: Seq<S10StrEntryView>) -> Seq<u8> {
    header_bytes(rows_for(entries)) + concat(entry_payloads(entries))
}

/// The first `k` members of the archive `b` with the table `rows`, read one
/// after the other. The first row whose title is not UTF-16LE, or whose
/// member reaches beyond the archive, ends the reading with its error; the
/// title of a row is looked at before its member.
pub open spec fn read_entries(b: Seq<u8>, rows: Seq<S10StrRow>, k: nat) -> Result<
    Seq<S10StrEntryView>,
    CodecError,
>
    decreases k,
{
    if k == 0 {
        Ok(Seq::empty())
    } else {
        match read_entries(b, rows, (k - 1) as nat) {
            Err(e) => Err(e),
            Ok(before) => {
                let row = rows[k - 1];
                if !is_utf16le(row.title) {
                    Err(CodecError::InvalidUtf16)
                } else if !row.span().within(b.len()) {
                    Err(CodecError::OffsetOutOfRange)
                } else {
                    Ok(
                        before.push(
                            S10StrEntryView {
                                title: field_title(row.title),
                                payload: cut(b, row.span()),
                            },
                        ),
                    )
                }
            },
        }
    }
}

/// What an archive was found to hold.
#[derive(Debug, PartialEq, Eq)]
pub struct S10StrContents {
    pub entries: Vec<S10StrEntry>,
    pub warnings: Vec<Warning>,
}

/// What an `S10StrContents` holds.
pub struct S10StrContentsView {
    pub entries: Seq<S10StrEntryView>,
    pub warnings: Seq<Warning>,
}

impl View for S10StrContents {
    type V = S10StrContentsView;

    open spec fn view(&self) -> S10StrContentsView {
        S10StrContentsView { entries: entry_views(self.entries@), warnings: self.warnings@ }
    }
}

/// What decoding the archive `b` gives: the header is read first, then the
/// members in the order of the table.
pub open spec fn parse_s10str(b: Seq<u8>) -> Result<S10StrContentsView, CodecError> {
    match parse_header(b) {
        Err(e) => Err(e),
        Ok(rows) => match read_entries(b, rows, rows.len()) {
            Err(e) => Err(e),
            Ok(entries) => Ok(
                S10StrContentsView { entries, warnings: overlap_warnings(spans_of(rows)) },
            ),
        },
    }
}

/// The stored form of a title. A title whose encoding takes more than 520
/// bytes is refused.
pub fn encode_title(title: &str) -> (r: Result<[u8; 520], CodecError>)
    ensures
        title_fits(title@) ==> r is Ok && r->Ok_0@ == title_field(title@),
        !title_fits(title@) ==> r == Err::<[u8; 520], CodecError>(CodecError::TitleTooLong),
{
    let encoded: Vec<u8> = encode_utf16le(title);
    let n: usize = encoded.len();
    if n > 520 {
        return Err(CodecError::TitleTooLong);
    }
    let mut field: [u8; 520] = [0u8; 520];
    let mut i: usize = 0;
    while i < n
        invariant
            0 <= i <= n <= 520,
            n == encoded@.len(),
            forall|k: int| 0 <= k < i ==> field@[k] == encoded@[k],
            forall|k: int| i <= k < 520 ==> field@[k] == 0,
        decreases n - i,
    {
        field[i] = encoded[i];
        i = i + 1;
    }
    assert(field@ =~= title_field(title@));
    Ok(field)
}

/// The title that a stored title stands for: its text without the
/// characters U+0000 at its end. Bytes that are not UTF-16LE are refused.
pub fn decode_title(field: &[u8]) -> (r: Result<String, CodecError>)
    ensures
        is_utf16le(field@) ==> r is Ok && r->Ok_0@ == field_title(field@),
        !is_utf16le(field@) ==> r is Err && r->Err_0 == CodecError::InvalidUtf16,
{
    let text: String = match decode_utf16le(slice_to_vec(field)) {
        Ok(text) => text,
        Err(_) => {
            return Err(CodecError::InvalidUtf16);
        },
    };
    proof {
        assert(utf16le(text@) == field@);
        lemma_utf16le_injective(utf16le_text(field@), text@);
    }
    let s: &str = text.as_str();
    let mut n: usize = s.unicode_len();
    assert(s@.subrange(0, n as int) =~= s@);
    while n > 0 && s.get_char(n - 1) == '\0'
        invariant
            0 <= n <= s@.len(),
            trim_nuls(s@.subrange(0, n as int)) == trim_nuls(s@),
        decreases n,
    {
        assert(s@.subrange(0, n as int).drop_last() =~= s@.subrange(0, n - 1));
        n = n - 1;
    }
    let trimmed: &str = s.substring_char(0, n);
    Ok(trimmed.to_owned())
}

/// A slice of 520 bytes as a stored title.
fn to_field(bytes: &[u8]) -> (field: [u8; 520])
    requires
        bytes@.len() == 520,
    ensures
        field@ == bytes@,
{
    let mut field: [u8; 520] = [0u8; 520];
    let mut i: usize = 0;
    while i < 520
        invariant
            0 <= i <= 520,
            bytes@.len() == 520,
            forall|k: int| 0 <= k < i ==> field@[k] == bytes@[k],
        decreases 520 - i,
    {
        field[i] = bytes[i];
        i = i + 1;
    }
    assert(field@ =~= bytes@);
    field
}

impl S10StrFileDescriptor {
    /// The bytes that the row speaks of.
    pub fn to_span(&self) -> (s: Span)
        ensures
            s == self@.span(),
    {
        Span { start_at: self.start_at, size: self.size }
    }
}

impl S10StrFile {
    /// Reads a header at the reader's position. On success the reader
    /// stands behind the table.
    pub fn decode(reader: &mut Reader) -> (r: Result<S10StrFile, CodecError>)
        ensures
            final(reader).data == old(reader).data,
            match parse_header(old(reader).rest()) {
                Ok(rows) => r is Ok && r->Ok_0@ == rows && final(reader).pos == old(reader).pos
                    + header_len(rows.len()),
                Err(e) => r is Err && r->Err_0 == e,
            },
    {
        let ghost b = reader.rest();
        let ghost start = reader.pos as int;
        if reader.remaining() < 4 {
            return Err(CodecError::TruncatedInput);
        }
        assert(forall|k: int| 0 <= k < b.len() ==> b[k] == reader.data@[start + k]);
        let count: u32 = reader.read_u32()?;
        if (reader.remaining() as u64) < 528 * (count as u64) {
            return Err(CodecError::TruncatedInput);
        }
        let mut file_descriptors: Vec<S10StrFileDescriptor> = Vec::new();
        let mut i: u32 = 0;
        while i < count
            invariant
                0 <= i <= count,
                reader.data == old(reader).data,
                b == old(reader).rest(),
                start == old(reader).pos,
                start + 4 + 528 * count <= reader.data@.len(),
                reader.pos == start + 4 + 528 * i,
                file_descriptors@.len() == i,
                forall|k: int|
                    0 <= k < i ==> (#[trigger] file_descriptors@[k])@ == S10StrRow::at(
                        b,
                        4 + 528 * k,
                    ),
            decreases count - i,
        {
            let title: Vec<u8> = reader.read_exact(520)?;
            let start_at: u32 = reader.read_u32()?;
            let size: u32 = reader.read_u32()?;
            assert(title@ =~= b.subrange(4 + 528 * i, 4 + 528 * i + 520));
            let title_u16le: [u8; 520] = to_field(title.as_slice());
            file_descriptors.push(S10StrFileDescriptor { title_u16le, start_at, size });
            i = i + 1;
        }
        let file = S10StrFile { file_descriptors };
        assert(file@ =~= table_at(b, 4, count as nat));
        Ok(file)
    }

    /// The stored form of the header. A table of more rows than a 32-bit
    /// count can hold is refused, and so is one that no buffer can hold.
    pub fn encode(&self) -> (r: Result<Vec<u8>, CodecError>)
        ensures
            self@.len() <= u32::MAX && header_len(self@.len()) <= usize::MAX ==> r is Ok
                && r->Ok_0@ == header_bytes(self@),
            !(self@.len() <= u32::MAX && header_len(self@.len()) <= usize::MAX) ==> r == Err::<
                Vec<u8>,
                CodecError,
            >(CodecError::Overflow),
    {
        let n: usize = self.file_descriptors.len();
        if n > u32::MAX as usize || n > (usize::MAX - 4) / 528 {
            return Err(CodecError::Overflow);
        }
        let mut w = Writer::new();
        w.write_u32(n as u32)?;
        let ghost head = w.buf@;
        let mut i: usize = 0;
        while i < n
            invariant
                0 <= i <= n,
                n == self.file_descriptors@.len(),
                4 + 528 * n <= usize::MAX,
                w.limit == usize::MAX,
                w.pos == 4 + 528 * i,
                w.at_end(),
                head == u32_le(n as u32),
                w.buf@ == head + table_bytes(self@.subrange(0, i as int)),
            decreases n - i,
        {
            let d: S10StrFileDescriptor = self.file_descriptors[i];
            let ghost before = w.buf@;
            w.write_all(&d.title_u16le)?;
            w.write_u32(d.start_at)?;
            w.write_u32(d.size)?;
            assert(w.buf@ =~= head + table_bytes(self@.subrange(0, i + 1))) by {
                let now = table_bytes(self@.subrange(0, i + 1));
                let was = table_bytes(self@.subrange(0, i as int));
                assert(d@ == self@[i as int]);
                assert(d@.title.len() == 520);
                assert(w.buf@ =~= before + d@.wire());
                assert(now =~= was + d@.wire());
            }
            i = i + 1;
        }
        assert(self@.subrange(0, n as int) =~= self@);
        Ok(w.into_bytes())
    }
}

/// Once the reading has failed at some row, it fails in the same way for
/// every greater number of rows.
pub proof fn lemma_read_entries_err(b: Seq<u8>, rows: Seq<S10StrRow>, k: nat, n: nat)
    requires
        k <= n,
        read_entries(b, rows, k) is Err,
    ensures
        read_entries(b, rows, n) == read_entries(b, rows, k),
    decreases n,
{
    if k < n {
        lemma_read_entries_err(b, rows, k, (n - 1) as nat);
    }
}

/// Packs the entries into an archive. A title whose encoding takes more
/// than 520 bytes is refused; then an archive of more bytes than a 32-bit
/// offset can count is refused.
pub fn encode_s10str(entries: &Vec<S10StrEntry>) -> (r: Result<Vec<u8>, CodecError>)
    ensures
        !titles_fit(entry_views(entries@)) ==> r == Err::<Vec<u8>, CodecError>(
            CodecError::TitleTooLong,
        ),
        titles_fit(entry_views(entries@)) && s10str_len(entry_views(entries@)) > u32::MAX ==> r
            == Err::<Vec<u8>, CodecError>(CodecError::Overflow),
        titles_fit(entry_views(entries@)) && s10str_len(entry_views(entries@)) <= u32::MAX ==> r
            is Ok && r->Ok_0@ == s10str_bytes(entry_views(entries@)),
{
    let ghost views = entry_views(entries@);
    let ghost parts = entry_payloads(views);
    let n: usize = entries.len();
    let mut titles: Vec<[u8; 520]> = Vec::new();
    let mut sizes: Vec<usize> = Vec::new();
    let mut i: usize = 0;
    while i < n
        invariant
            0 <= i <= n,
            n == entries@.len(),
            views == entry_views(entries@),
            parts == entry_payloads(views),
            titles@.len() == i,
            sizes@.len() == i,
            forall|k: int| 0 <= k < i ==> title_fits(#[trigger] views[k].title),
            forall|k: int| 0 <= k < i ==> (#[trigger] titles@[k])@ == title_field(views[k].title),
            forall|k: int| 0 <= k < i ==> sizes@[k] == (#[trigger] parts[k]).len(),
        decreases n - i,
    {
        assert(views[i as int].title == entries@[i as int].title@);
        let field: [u8; 520] = encode_title(entries[i].title.as_str())?;
        titles.push(field);
        sizes.push(entries[i].payload.len());
        i = i + 1;
    }
    assert(titles_fit(views));
    if n > (u32::MAX as usize - 4) / 528 {
        proof {
            assert(s10str_len(views) > u32::MAX);
        }
        return Err(CodecError::Overflow);
    }
    let spans: Vec<Span> = place_sizes(4 + 528 * n, &sizes, Ghost(parts))?;
    let mut file_descriptors: Vec<S10StrFileDescriptor> = Vec::new();
    let mut j: usize = 0;
    while j < n
        invariant
            0 <= j <= n,
            n == spans@.len(),
            n == titles@.len(),
            n == views.len(),
            parts == entry_payloads(views),
            spans@ == placed(header_len(n as nat), parts),
            forall|k: int| 0 <= k < n ==> (#[trigger] titles@[k])@ == title_field(views[k].title),
            file_descriptors@.len() == j,
            forall|k: int| 0 <= k < j ==> (#[trigger] file_descriptors@[k])@ == rows_for(views)[k],
        decreases n - j,
    {
        let s: Span = spans[j];
        file_descriptors.push(
            S10StrFileDescriptor { title_u16le: titles[j], start_at: s.start_at, size: s.size },
        );
        j = j + 1;
    }
    let header = S10StrFile { file_descriptors };
    assert(header@ =~= rows_for(views));
    let head: Vec<u8> = header.encode()?;
    let mut w = Writer::append_within(head, u32::MAX as usize);
    let mut k: usize = 0;
    proof {
        assert(parts.take(0) =~= Seq::<Seq<u8>>::empty());
        assert(header_bytes(header@).len() == 4 + 528 * n);
        assert(header_bytes(header@) + concat(parts.take(0)) =~= header_bytes(header@));
    }
    while k < n
        invariant
            0 <= k <= n,
            n == entries@.len(),
            views == entry_views(entries@),
            parts == entry_payloads(views),
            header_len(n as nat) + total_len(parts) <= u32::MAX,
            w.limit == u32::MAX,
            w.at_end(),
            w.pos == header_len(n as nat) + offset(parts, k as int),
            w.buf@ == header_bytes(rows_for(views)) + concat(parts.take(k as int)),
        decreases n - k,
    {
        proof {
            lemma_offset_step(parts, k as int);
            lemma_offset_order(parts, k as int, n as int);
            assert(parts[k as int] == entries@[k as int].payload@);
        }
        w.write_all(entries[k].payload.as_slice())?;
        assert(w.buf@ =~= header_bytes(rows_for(views)) + concat(parts.take(k + 1)));
        k = k + 1;
    }
    assert(parts.take(n as int) =~= parts);
    Ok(w.into_bytes())
}

/// Unpacks an archive: the members with their titles, in the order of the
/// table, and a warning if two members share bytes. A title that is not
/// UTF-16LE is refused, and so is a member that reaches beyond the archive.
pub fn decode_s10str(bytes: &[u8]) -> (r: Result<S10StrContents, CodecError>)
    ensures
        match parse_s10str(bytes@) {
            Ok(found) => r is Ok && r->Ok_0@ == found,
            Err(e) => r is Err && r->Err_0 == e,
        },
{
    let mut reader = Reader::new(bytes);
    let header: S10StrFile = S10StrFile::decode(&mut reader)?;
    let n: usize = header.file_descriptors.len();
    let ghost rows = header@;
    assert(parse_header(bytes@) == Ok::<Seq<S10StrRow>, CodecError>(rows));
    let mut spans: Vec<Span> = Vec::new();
    let mut entries: Vec<S10StrEntry> = Vec::new();
    let mut i: usize = 0;
    assert(entry_views(entries@) =~= Seq::<S10StrEntryView>::empty());
    while i < n
        invariant
            0 <= i <= n,
            n == rows.len(),
            n == header.file_descriptors@.len(),
            rows == header@,
            parse_header(bytes@) == Ok::<Seq<S10StrRow>, CodecError>(rows),
            spans@ == spans_of(rows).subrange(0, i as int),
            read_entries(bytes@, rows, i as nat) == Ok::<Seq<S10StrEntryView>, CodecError>(
                entry_views(entries@),
            ),
        decreases n - i,
    {
        let d: &S10StrFileDescriptor = &header.file_descriptors[i];
        assert(d@ == rows[i as int]);
        proof {
            if read_entries(bytes@, rows, (i + 1) as nat) is Err {
                lemma_read_entries_err(bytes@, rows, (i + 1) as nat, n as nat);
            }
        }
        let title: String = decode_title(&d.title_u16le)?;
        let span: Span = d.to_span();
        let payload: Vec<u8> = extract(bytes, span)?;
        let ghost before = entry_views(entries@);
        entries.push(S10StrEntry { title, payload });
        spans.push(span);
        assert(entry_views(entries@) =~= before.push(
            S10StrEntryView {
                title: field_title(rows[i as int].title),
                payload: cut(bytes@, rows[i as int].span()),
            },
        ));
        i = i + 1;
        assert(spans@ =~= spans_of(rows).subrange(0, i as int));
    }
    assert(spans@ =~= spans_of(rows));
    let warnings: Vec<Warning> = check_table(spans.as_slice());
    Ok(S10StrContents { entries, warnings })
}

/// Whether the title of every entry comes back from its stored form as it
/// is: a title must not end in U+0000, which the decoder takes for padding.
pub open spec fn titles_plain(entries: Seq<S10StrEntryView>) -> bool {
    forall|i: int|
        0 <= i < entries.len() ==> (#[trigger] entries[i].title).len() == 0
            || entries[i].title.last() != '\0'
}

/// A title that fits and does not end in U+0000 comes back from its stored
/// form as it is.
pub proof fn lemma_title_round_trip(title: Seq<char>)
    requires
        title_fits(title),
        title.len() == 0 || title.last() != '\0',
    ensures
        title_field(title).len() == 520,
        is_utf16le(title_field(title)),
        field_title(title_field(title)) == title,
{
    lemma_utf16le_len(title);
    let pad = (520 - utf16le(title).len()) as nat;
    let k = pad / 2;
    assert(pad == 2 * k);
    lemma_utf16le_nuls(k);
    lemma_utf16le_concat(title, nuls(k));
    assert(title_field(title) == utf16le(title + nuls(k)));
    lemma_utf16le_text(title + nuls(k));
    lemma_trim_padding(title, k);
}

/// Reading back the stored bytes of a table gives the table, whatever
/// stands before and behind them.
pub proof fn lemma_table_round_trip(head: Seq<u8>, rows: Seq<S10StrRow>, tail: Seq<u8>)
    requires
        forall|i: int| 0 <= i < rows.len() ==> (#[trigger] rows[i]).title.len() == 520,
    ensures
        table_at(head + table_bytes(rows) + tail, head.len() as int, rows.len()) == rows,
{
    let b = head + table_bytes(rows) + tail;
    let t = table_bytes(rows);
    assert forall|i: int| 0 <= i < rows.len() implies S10StrRow::at(b, head.len() + 528 * i)
        == rows[i] by {
        let k = head.len() + 528 * i;
        let row = rows[i];
        assert(row.title.len() == 520);
        assert forall|j: int| 0 <= j < 528 implies b[k + j] == row.wire()[j] by {
            assert(b[k + j] == t[528 * i + j]);
        }
        assert(b.subrange(k, k + 520) =~= row.title) by {
            assert forall|j: int| 0 <= j < 520 implies b[k + j] == row.title[j] by {
                assert(row.wire()[j] == row.title[j]);
            }
        }
        assert(b.subrange(k + 520, k + 524) =~= u32_le(row.start_at)) by {
            assert forall|j: int| 0 <= j < 4 implies b[k + 520 + j] == u32_le(row.start_at)[j] by {
                assert(row.wire()[520 + j] == u32_le(row.start_at)[j]);
            }
        }
        assert(b.subrange(k + 524, k + 528) =~= u32_le(row.size)) by {
            assert forall|j: int| 0 <= j < 4 implies b[k + 524 + j] == u32_le(row.size)[j] by {
                assert(row.wire()[524 + j] == u32_le(row.size)[j]);
            }
        }
        lemma_field_u32(b, k + 520, row.start_at);
        lemma_field_u32(b, k + 524, row.size);
    }
    assert(table_at(b, head.len() as int, rows.len()) =~= rows);
}

/// Reading back a stored header gives the table, whatever follows it.
pub proof fn lemma_header_round_trip(rows: Seq<S10StrRow>, tail: Seq<u8>)
    requires
        rows.len() <= u32::MAX,
        forall|i: int| 0 <= i < rows.len() ==> (#[trigger] rows[i]).title.len() == 520,
    ensures
        header_bytes(rows).len() == header_len(rows.len()),
        parse_header(header_bytes(rows) + tail) == Ok::<Seq<S10StrRow>, CodecError>(rows),
{
    let n = rows.len() as u32;
    let b = header_bytes(rows) + tail;
    assert(b.subrange(0, 4) =~= u32_le(n));
    lemma_field_u32(b, 0, n);
    lemma_table_round_trip(u32_le(n), rows, tail);
}

/// The table of a packed archive reads back as it was written, and it
/// names members that share no byte.
proof fn lemma_packed_header(entries: Seq<S10StrEntryView>)
    requires
        titles_fit(entries),
        s10str_len(entries) <= u32::MAX,
    ensures
        s10str_bytes(entries).len() == s10str_len(entries),
        parse_header(s10str_bytes(entries)) == Ok::<Seq<S10StrRow>, CodecError>(
            rows_for(entries),
        ),
        overlap_warnings(spans_of(rows_for(entries))) == Seq::<Warning>::empty(),
{
    let rows = rows_for(entries);
    let parts = entry_payloads(entries);
    let n = entries.len();
    assert forall|j: int| 0 <= j < n implies (#[trigger] rows[j]).title.len() == 520 by {
        lemma_utf16le_len(entries[j].title);
        assert(title_fits(entries[j].title));
    }
    lemma_header_round_trip(rows, concat(parts));
    lemma_concat_len(parts);
    lemma_placed_sound(header_len(n), parts);
    assert(spans_of(rows) =~= placed(header_len(n), parts));
}

/// A stored header takes four bytes and 528 for each row.
proof fn lemma_header_len(rows: Seq<S10StrRow>)
    ensures
        header_bytes(rows).len() == header_len(rows.len()),
{
}

/// The bytes that the table of a packed archive names for member `i` lie
/// within the archive and are the payload of entry `i`.
proof fn lemma_packed_payload(entries: Seq<S10StrEntryView>, i: int)
    requires
        s10str_len(entries) <= u32::MAX,
        0 <= i < entries.len(),
    ensures
        rows_for(entries)[i].span().within(s10str_bytes(entries).len()),
        cut(s10str_bytes(entries), rows_for(entries)[i].span()) == entries[i].payload,
{
    let parts = entry_payloads(entries);
    let n = entries.len();
    let head = header_bytes(rows_for(entries));
    let span = rows_for(entries)[i].span();
    let at = offset(parts, i) as int;
    lemma_header_len(rows_for(entries));
    lemma_concat_len(parts);
    lemma_concat_part(parts, i);
    lemma_offset_order(parts, i, n as int);
    assert(span.start_at == header_len(n) + at);
    assert(span.size == parts[i].len());
    assert((head + concat(parts)).subrange(head.len() + at, head.len() + at + parts[i].len())
        =~= concat(parts).subrange(at, at + parts[i].len()));
}

/// The stored title of row `i` of the table of a packed archive reads as
/// the title of entry `i`.
proof fn lemma_packed_title(entries: Seq<S10StrEntryView>, i: int)
    requires
        0 <= i < entries.len(),
        title_fits(entries[i].title),
        entries[i].title.len() == 0 || entries[i].title.last() != '\0',
    ensures
        is_utf16le(rows_for(entries)[i].title),
        field_title(rows_for(entries)[i].title) == entries[i].title,
{
    lemma_title_round_trip(entries[i].title);
}

/// Whether row `i` of the table `rows` of the archive `b` reads as `entry`.
pub open spec fn reads_as(b: Seq<u8>, row: S10StrRow, entry: S10StrEntryView) -> bool {
    &&& is_utf16le(row.title)
    &&& row.span().within(b.len())
    &&& field_title(row.title) == entry.title
    &&& cut(b, row.span()) == entry.payload
}

/// Where each of the first `k` rows reads as the entry of its place, the
/// first `k` members read are the first `k` entries.
proof fn lemma_read_all(b: Seq<u8>, rows: Seq<S10StrRow>, entries: Seq<S10StrEntryView>, k: nat)
    requires
        k <= rows.len() == entries.len(),
        forall|i: int| 0 <= i < k ==> reads_as(b, #[trigger] rows[i], entries[i]),
    ensures
        read_entries(b, rows, k) == Ok::<Seq<S10StrEntryView>, CodecError>(entries.take(k as int)),
    decreases k,
{
    if k == 0 {
        assert(entries.take(0) =~= Seq::<S10StrEntryView>::empty());
    } else {
        lemma_read_all(b, rows, entries, (k - 1) as nat);
        assert(reads_as(b, rows[k - 1], entries[k - 1]));
        assert(entries.take(k as int) =~= entries.take(k - 1).push(entries[k - 1]));
    }
}

/// Row `i` of the table of a packed archive reads as entry `i`.
proof fn lemma_packed_entry(entries: Seq<S10StrEntryView>, i: int)
    requires
        titles_fit(entries),
        titles_plain(entries),
        s10str_len(entries) <= u32::MAX,
        0 <= i < entries.len(),
    ensures
        reads_as(s10str_bytes(entries), rows_for(entries)[i], entries[i]),
{
    assert(title_fits(entries[i].title));
    lemma_packed_title(entries, i);
    lemma_packed_payload(entries, i);
}

/// Unpacking what was packed gives the entries back, and no warning, when
/// every title fits and none ends in U+0000.
pub proof fn lemma_s10str_round_trip(entries: Seq<S10StrEntryView>)
    requires
        titles_fit(entries),
        titles_plain(entries),
        s10str_len(entries) <= u32::MAX,
    ensures
        s10str_bytes(entries).len() == s10str_len(entries),
        parse_s10str(s10str_bytes(entries)) == Ok::<S10StrContentsView, CodecError>(
            S10StrContentsView { entries, warnings: Seq::empty() },
        ),
{
    let b = s10str_bytes(entries);
    let rows = rows_for(entries);
    lemma_packed_header(entries);
    assert forall|i: int| 0 <= i < entries.len() implies reads_as(
        b,
        #[trigger] rows[i],
        entries[i],
    ) by {
        lemma_packed_entry(entries, i);
    }
    lemma_read_all(b, rows, entries, entries.len());
    assert(entries.take(entries.len() as int) =~= entries);
}

} // verus!
