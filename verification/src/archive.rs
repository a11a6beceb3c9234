//! What the two archive formats share: payloads stored back to back behind
//! a table of 32-bit offsets and sizes, and the rules that such a table has
//! to meet.
use vstd::prelude::*;
use vstd::slice::slice_to_vec;
use crate::error::{CodecError, Warning};

verus! {

/// Where a member of an archive stands: `size` bytes from `start_at` on,
/// counted from the start of the archive.
#[derive(Clone, Copy, Debug, PartialEq, Eq, Structural)]
pub struct Span {
    pub start_at: u32,
    pub size: u32,
}

impl Span {
    /// Whether the member lies within an archive of `len` bytes.
    pub open spec fn within(self, len: nat) -> bool {
        self.start_at + self.size <= len
    }

    /// Whether two members share a byte.
    pub open spec fn overlaps(self, other: Span) -> bool {
        self.size > 0 && other.size > 0 && self.start_at < other.start_at + other.size
            && other.start_at < self.start_at + self.size
    }
}

/// The payloads that a list of buffers holds.
pub open spec fn payloads(members: Seq<Vec<u8>>) -> Seq<Seq<u8>> {
    Seq::new(members.len(), |i: int| members[i]@)
}

/// The number of bytes in all the parts together.
pub open spec fn total_len(parts: Seq<Seq<u8>>) -> nat
    decreases parts.len(),
{
    if parts.len() == 0 {
        0
    } else {
        total_len(parts.drop_last()) + parts.last().len()
    }
}

/// The parts one after the other.
pub open spec fn concat(parts: Seq<Seq<u8>>) -> Seq<u8>
    decreases parts.len(),
{
    if parts.len() == 0 {
        Seq::empty()
    } else {
        concat(parts.drop_last()) + parts.last()
    }
}

/// Where part `i` starts among the parts put one after the other.
pub open spec fn offset(parts: Seq<Seq<u8>>, i: int) -> nat {
    total_len(parts.take(i))
}

/// The table of an archive whose header takes `header_len` bytes and whose
/// members follow it back to back, in order.
pub open spec fn placed(header_len: nat, parts: Seq<Seq<u8>>) -> Seq<Span> {
    Seq::new(
        parts.len(),
        |i: int|
            Span {
                start_at: (header_len + offset(parts, i)) as u32,
                size: parts[i].len() as u32,
            },
    )
}

/// Whether every member of a table lies within an archive of `len` bytes.
pub open spec fn all_within(spans: Seq<Span>, len: nat) -> bool {
    forall|i: int| 0 <= i < spans.len() ==> (#[trigger] spans[i]).within(len)
}

/// Whether two members of a table share a byte.
pub open spec fn any_overlap(spans: Seq<Span>) -> bool {
    exists|i: int, j: int| 0 <= i < j < spans.len() && (#[trigger] spans[i]).overlaps(#[trigger] spans[j])
}

/// The bytes of `b` that a member takes.
pub open spec fn cut(b: Seq<u8>, span: Span) -> Seq<u8> {
    b.subrange(span.start_at as int, span.start_at + span.size)
}

/// The parts put one after the other take as many bytes as the parts do.
pub proof fn lemma_concat_len(parts: Seq<Seq<u8>>)
    ensures
        concat(parts).len() == total_len(parts),
    decreases parts.len(),
{
    if parts.len() > 0 {
        lemma_concat_len(parts.drop_last());
    }
}

/// Part `i` ends where part `i + 1` starts; the first part starts at 0 and
/// the last one ends at the end.
pub proof fn lemma_offset_step(parts: Seq<Seq<u8>>, i: int)
    requires
        0 <= i < parts.len(),
    ensures
        offset(parts, i + 1) == offset(parts, i) + parts[i].len(),
        offset(parts, 0) == 0,
        offset(parts, parts.len() as int) == total_len(parts),
        concat(parts.take(i + 1)) == concat(parts.take(i)) + parts[i],
{
    assert(parts.take(i + 1).drop_last() =~= parts.take(i));
    assert(parts.take(parts.len() as int) =~= parts);
    assert(parts.take(0).len() == 0);
}

/// A later part starts no earlier than an earlier one ends, and no part
/// reaches beyond the end.
pub proof fn lemma_offset_order(parts: Seq<Seq<u8>>, i: int, j: int)
    requires
        0 <= i < j <= parts.len(),
    ensures
        offset(parts, i) + parts[i].len() <= offset(parts, j),
        offset(parts, j) <= total_len(parts),
    decreases parts.len() - i,
{
    lemma_offset_step(parts, i);
    if i + 1 < j {
        lemma_offset_order(parts, i + 1, j);
    } else if j < parts.len() {
        lemma_offset_order(parts, j, parts.len() as int);
        lemma_offset_step(parts, j);
    }
}

/// Part `i` stands at its offset among the parts put one after the other.
pub proof fn lemma_concat_part(parts: Seq<Seq<u8>>, i: int)
    requires
        0 <= i < parts.len(),
    ensures
        offset(parts, i) + parts[i].len() <= concat(parts).len(),
        concat(parts).subrange(
            offset(parts, i) as int,
            (offset(parts, i) + parts[i].len()) as int,
        )
            == parts[i],
    decreases parts.len(),
{
    lemma_concat_len(parts);
    lemma_concat_len(parts.drop_last());
    if i == parts.len() - 1 {
        assert(parts.take(i) =~= parts.drop_last());
        assert(concat(parts).subrange(
            offset(parts, i) as int,
            (offset(parts, i) + parts[i].len()) as int,
        )
            =~= parts[i]);
    } else {
        lemma_concat_part(parts.drop_last(), i);
        assert(parts.drop_last().take(i) =~= parts.take(i));
        assert(concat(parts).subrange(
            offset(parts, i) as int,
            (offset(parts, i) + parts[i].len()) as int,
        )
            =~= concat(parts.drop_last()).subrange(
            offset(parts, i) as int,
            (offset(parts, i) + parts[i].len()) as int,
        ));
    }
}

/// Whether the members of a table stand in order, none starting before the
/// one before it has ended.
pub open spec fn ascending(spans: Seq<Span>) -> bool {
    forall|i: int, j: int|
        0 <= i < j < spans.len() ==> (#[trigger] spans[i]).start_at + spans[i].size
            <= (#[trigger] spans[j]).start_at
}

/// Members that follow a header back to back start right behind the header,
/// stand in order, lie within the archive and share no byte.
pub proof fn lemma_placed_sound(header_len: nat, parts: Seq<Seq<u8>>)
    requires
        header_len + total_len(parts) <= u32::MAX,
    ensures
        all_within(placed(header_len, parts), header_len + total_len(parts)),
        ascending(placed(header_len, parts)),
        !any_overlap(placed(header_len, parts)),
        parts.len() > 0 ==> placed(header_len, parts)[0].start_at == header_len,
        forall|i: int|
            0 <= i < parts.len() ==> (#[trigger] placed(header_len, parts)[i]).start_at
                == header_len + offset(parts, i) && placed(header_len, parts)[i].size
                == parts[i].len(),
{
    let spans = placed(header_len, parts);
    assert forall|i: int| 0 <= i < parts.len() implies (#[trigger] spans[i]).start_at == header_len
        + offset(parts, i) && spans[i].size == parts[i].len() && spans[i].within(
        header_len + total_len(parts),
    ) by {
        lemma_offset_order(parts, i, parts.len() as int);
    }
    assert forall|i: int, j: int| 0 <= i < j < spans.len() implies (#[trigger] spans[i]).start_at
        + spans[i].size <= (#[trigger] spans[j]).start_at by {
        lemma_offset_order(parts, i, j);
    }
    if parts.len() > 0 {
        lemma_offset_step(parts, 0);
    }
}

/// Lays members of the given sizes out back to back behind a header of
/// `header_len` bytes.
pub(crate) fn place_sizes(
    header_len: usize,
    sizes: &Vec<usize>,
    Ghost(parts): Ghost<Seq<Seq<u8>>>,
) -> (r: Result<Vec<Span>, CodecError>)
    requires
        sizes@.len() == parts.len(),
        forall|i: int| 0 <= i < parts.len() ==> sizes@[i] == (#[trigger] parts[i]).len(),
    ensures
        header_len + total_len(parts) <= u32::MAX ==> r is Ok && r->Ok_0@ == placed(
            header_len as nat,
            parts,
        ),
        header_len + total_len(parts) > u32::MAX ==> r == Err::<Vec<Span>, CodecError>(
            CodecError::Overflow,
        ),
{
    if header_len > u32::MAX as usize {
        return Err(CodecError::Overflow);
    }
    let mut at: u32 = header_len as u32;
    let mut spans: Vec<Span> = Vec::new();
    let mut i: usize = 0;
    while i < sizes.len()
        invariant
            0 <= i <= sizes@.len(),
            sizes@.len() == parts.len(),
            forall|i: int| 0 <= i < parts.len() ==> sizes@[i] == (#[trigger] parts[i]).len(),
            at == header_len + offset(parts, i as int),
            spans@ == placed(header_len as nat, parts).subrange(0, i as int),
        decreases sizes@.len() - i,
    {
        let size: usize = sizes[i];
        proof {
            lemma_offset_step(parts, i as int);
            lemma_offset_order(parts, i as int, parts.len() as int);
        }
        if size > (u32::MAX - at) as usize {
            return Err(CodecError::Overflow);
        }
        spans.push(Span { start_at: at, size: size as u32 });
        assert(spans@ =~= placed(header_len as nat, parts).subrange(0, i + 1));
        at = at + size as u32;
        i = i + 1;
    }
    proof {
        if parts.len() > 0 {
            lemma_offset_step(parts, 0);
        } else {
            assert(parts.take(0) =~= parts);
        }
        assert(spans@ =~= placed(header_len as nat, parts));
    }
    Ok(spans)
}

/// Lays the members out back to back behind a header of `header_len` bytes.
/// An archive of more bytes than a 32-bit offset can count is refused.
pub fn place(header_len: usize, members: &Vec<Vec<u8>>) -> (r: Result<Vec<Span>, CodecError>)
    ensures
        header_len + total_len(payloads(members@)) <= u32::MAX ==> r is Ok && r->Ok_0@ == placed(
            header_len as nat,
            payloads(members@),
        ),
        header_len + total_len(payloads(members@)) > u32::MAX ==> r == Err::<
            Vec<Span>,
            CodecError,
        >(CodecError::Overflow),
{
    let mut sizes: Vec<usize> = Vec::new();
    let mut i: usize = 0;
    while i < members.len()
        invariant
            0 <= i <= members@.len(),
            sizes@.len() == i,
            forall|k: int| 0 <= k < i ==> sizes@[k] == (#[trigger] payloads(members@)[k]).len(),
        decreases members@.len() - i,
    {
        sizes.push(members[i].len());
        i = i + 1;
    }
    place_sizes(header_len, &sizes, Ghost(payloads(members@)))
}

/// The warning about a table, if two of its members share a byte.
pub open spec fn overlap_warnings(spans: Seq<Span>) -> Seq<Warning> {
    if any_overlap(spans) {
        seq![Warning::OverlappingMembers]
    } else {
        Seq::empty()
    }
}

/// The warnings about a table.
pub fn check_table(spans: &[Span]) -> (warnings: Vec<Warning>)
    ensures
        warnings@ == overlap_warnings(spans@),
{
    let mut warnings: Vec<Warning> = Vec::new();
    if overlapping(spans) {
        warnings.push(Warning::OverlappingMembers);
    }
    assert(warnings@ =~= overlap_warnings(spans@));
    warnings
}

/// The bytes of a member, if it lies within the archive.
pub fn extract(bytes: &[u8], span: Span) -> (r: Result<Vec<u8>, CodecError>)
    ensures
        span.within(bytes@.len()) ==> r is Ok && r->Ok_0@ == cut(bytes@, span),
        !span.within(bytes@.len()) ==> r == Err::<Vec<u8>, CodecError>(
            CodecError::OffsetOutOfRange,
        ),
{
    let end: u64 = span.start_at as u64 + span.size as u64;
    if end > bytes.len() as u64 {
        return Err(CodecError::OffsetOutOfRange);
    }
    Ok(slice_to_vec(&bytes[span.start_at as usize..end as usize]))
}

/// Whether two members of the table share a byte.
pub fn overlapping(spans: &[Span]) -> (r: bool)
    ensures
        r == any_overlap(spans@),
{
    let n: usize = spans.len();
    let mut j: usize = 0;
    while j < n
        invariant
            0 <= j <= n,
            n == spans@.len(),
            forall|a: int, b: int|
                0 <= a < b < j ==> !(#[trigger] spans@[a]).overlaps(#[trigger] spans@[b]),
        decreases n - j,
    {
        let later: Span = spans[j];
        let mut i: usize = 0;
        while i < j
            invariant
                0 <= i <= j < n,
                n == spans@.len(),
                later == spans@[j as int],
                forall|a: int| 0 <= a < i ==> !(#[trigger] spans@[a]).overlaps(later),
            decreases j - i,
        {
            let earlier: Span = spans[i];
            if earlier.size > 0 && later.size > 0 && (earlier.start_at as u64) < later.start_at as u64
                + later.size as u64 && (later.start_at as u64) < earlier.start_at as u64
                + earlier.size as u64 {
                assert(spans@[i as int].overlaps(spans@[j as int]));
                return true;
            }
            i = i + 1;
        }
        j = j + 1;
    }
    false
}

/// Every byte of `s` combined with `key` by exclusive or.
pub open spec fn xor_seq(s: Seq<u8>, key: u8) -> Seq<u8> {
    Seq::new(s.len(), |i: int| s[i] ^ key)
}

/// The scramble is its own inverse.
pub proof fn lemma_xor_twice(s: Seq<u8>, key: u8)
    ensures
        xor_seq(xor_seq(s, key), key) == s,
{
    assert forall|i: int| 0 <= i < s.len() implies (s[i] ^ key) ^ key == s[i] by {
        let b = s[i];
        assert((b ^ key) ^ key == b) by (bit_vector);
    }
    assert(xor_seq(xor_seq(s, key), key) =~= s);
}

/// Every byte of `data` combined with `key` by exclusive or: the scramble
/// that hides the payloads of an archive, and takes it off again.
pub fn xor_bytes(data: &[u8], key: u8) -> (out: Vec<u8>)
    ensures
        out@ == xor_seq(data@, key),
{
    let mut out: Vec<u8> = Vec::new();
    let mut i: usize = 0;
    while i < data.len()
        invariant
            0 <= i <= data@.len(),
            out@ == xor_seq(data@, key).subrange(0, i as int),
        decreases data@.len() - i,
    {
        out.push(data[i] ^ key);
        i = i + 1;
        assert(out@ =~= xor_seq(data@, key).subrange(0, i as int));
    }
    assert(xor_seq(data@, key).subrange(0, data@.len() as int) =~= xor_seq(data@, key));
    out
}

} // verus!
