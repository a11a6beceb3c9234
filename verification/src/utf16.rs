//! UTF-16LE: what the encoding of a text is, and the calls that encode and
//! decode it.
use vstd::prelude::*;
use crate::wire::{le_u16, lemma_u16_round_trip, u16_le};

verus! {

/// The bytes of one character: its scalar value as one 16-bit unit if it
/// is below 0x10000, else 0x10000 less than it as a pair of surrogate units
/// of ten bits each, the high one first. Each unit is stored low byte first.
pub open spec fn utf16le_char(c: char) -> Seq<u8> {
    let v = c as u32;
    if v < 0x10000 {
        u16_le(v as u16)
    } else {
        u16_le((0xD800 + (v - 0x10000) / 0x400) as u16) + u16_le(
            (0xDC00 + (v - 0x10000) % 0x400) as u16,
        )
    }
}

/// The bytes of a text: those of its characters, in order.
pub open spec fn utf16le(s: Seq<char>) -> Seq<u8>
    decreases s.len(),
{
    if s.len() == 0 {
        Seq::empty()
    } else {
        utf16le(s.drop_last()) + utf16le_char(s.last())
    }
}

/// Whether the bytes are the encoding of a text.
pub open spec fn is_utf16le(b: Seq<u8>) -> bool {
    exists|s: Seq<char>| #[trigger] utf16le(s) == b
}

/// The text that the bytes are the encoding of, if they are one.
pub open spec fn utf16le_text(b: Seq<u8>) -> Seq<char> {
    choose|s: Seq<char>| #[trigger] utf16le(s) == b
}

/// A text of `k` characters U+0000.
pub open spec fn nuls(k: nat) -> Seq<char> {
    Seq::new(k, |i: int| '\0')
}

/// A run of `k` zero bytes.
pub open spec fn zeros(k: nat) -> Seq<u8> {
    Seq::new(k, |i: int| 0u8)
}

/// The text without the characters U+0000 at its end.
pub open spec fn trim_nuls(s: Seq<char>) -> Seq<char>
    decreases s.len(),
{
    if s.len() > 0 && s.last() == '\0' {
        trim_nuls(s.drop_last())
    } else {
        s
    }
}

/// The opaque error of the decoder.
#[verifier::external_type_specification]
#[verifier::external_body]
pub struct ExUtf16Error(utf16string::Utf16Error);

/// The shape of the bytes of one character: two bytes that form a unit
/// outside the surrogate range, or four bytes that form a high and a low
/// surrogate.
pub proof fn lemma_char_shape(c: char)
    ensures
        ({
            let e = utf16le_char(c);
            if (c as u32) < 0x10000 {
                &&& e.len() == 2
                &&& le_u16(e, 0) == c as u32
                &&& !(0xD800 <= le_u16(e, 0) <= 0xDFFF)
            } else {
                &&& e.len() == 4
                &&& 0xD800 <= le_u16(e, 0) <= 0xDBFF
                &&& 0xDC00 <= le_u16(e, 2) <= 0xDFFF
                &&& c as u32 == 0x10000 + (le_u16(e, 0) - 0xD800) * 0x400 + (le_u16(e, 2) - 0xDC00)
            }
        }),
{
    let v = c as u32;
    if v < 0x10000 {
        lemma_u16_round_trip(v as u16);
    } else {
        let hi = (0xD800 + (v - 0x10000) / 0x400) as u16;
        let lo = (0xDC00 + (v - 0x10000) % 0x400) as u16;
        lemma_u16_round_trip(hi);
        lemma_u16_round_trip(lo);
        let e = utf16le_char(c);
        assert(e[0] == u16_le(hi)[0] && e[1] == u16_le(hi)[1]);
        assert(e[2] == u16_le(lo)[0] && e[3] == u16_le(lo)[1]);
    }
}

/// The encoding of a text takes an even number of bytes, at least two for
/// each character.
pub proof fn lemma_utf16le_len(s: Seq<char>)
    ensures
        utf16le(s).len() % 2 == 0,
        2 * s.len() <= utf16le(s).len() <= 4 * s.len(),
    decreases s.len(),
{
    if s.len() > 0 {
        lemma_utf16le_len(s.drop_last());
        lemma_char_shape(s.last());
    }
}

/// The encoding of two texts one after the other is that of the first
/// followed by that of the second.
pub proof fn lemma_utf16le_concat(a: Seq<char>, b: Seq<char>)
    ensures
        utf16le(a + b) == utf16le(a) + utf16le(b),
    decreases b.len(),
{
    if b.len() == 0 {
        assert(a + b =~= a);
        assert(utf16le(a) + utf16le(b) =~= utf16le(a));
    } else {
        lemma_utf16le_concat(a, b.drop_last());
        assert((a + b).drop_last() =~= a + b.drop_last());
        assert((a + b).last() == b.last());
        assert(utf16le(a + b) =~= utf16le(a) + utf16le(b));
    }
}

/// Different characters have different bytes.
pub proof fn lemma_char_injective(c: char, d: char)
    requires
        utf16le_char(c) == utf16le_char(d),
    ensures
        c == d,
{
    lemma_char_shape(c);
    lemma_char_shape(d);
    assert(c as u32 == d as u32);
}

/// Different texts have different encodings.
pub proof fn lemma_utf16le_injective(a: Seq<char>, b: Seq<char>)
    requires
        utf16le(a) == utf16le(b),
    ensures
        a == b,
    decreases a.len(),
{
    lemma_utf16le_len(a);
    lemma_utf16le_len(b);
    if a.len() == 0 {
        assert(b.len() == 0);
        assert(a =~= b);
    } else {
        assert(b.len() > 0);
        let c = a.last();
        let d = b.last();
        let ea = utf16le(a.drop_last());
        let eb = utf16le(b.drop_last());
        let ec = utf16le_char(c);
        let ed = utf16le_char(d);
        let all = utf16le(a);
        lemma_char_shape(c);
        lemma_char_shape(d);
        assert(all == ea + ec);
        assert(all == eb + ed);
        let n = all.len() as int;
        // The last unit is a low surrogate exactly if the last character
        // takes four bytes.
        assert(le_u16(all, n - 2) == le_u16(ec, ec.len() - 2)) by {
            assert(all[n - 2] == ec[ec.len() - 2]);
            assert(all[n - 1] == ec[ec.len() - 1]);
        }
        assert(le_u16(all, n - 2) == le_u16(ed, ed.len() - 2)) by {
            assert(all[n - 2] == ed[ed.len() - 2]);
            assert(all[n - 1] == ed[ed.len() - 1]);
        }
        assert(ec.len() == ed.len());
        assert(ec =~= all.subrange(n - ec.len(), n));
        assert(ed =~= all.subrange(n - ed.len(), n));
        assert(ea =~= all.subrange(0, n - ec.len()));
        assert(eb =~= all.subrange(0, n - ed.len()));
        lemma_char_injective(c, d);
        lemma_utf16le_injective(a.drop_last(), b.drop_last());
        assert(a =~= a.drop_last().push(c));
        assert(b =~= b.drop_last().push(d));
    }
}

/// The bytes of a text decode to that text.
pub proof fn lemma_utf16le_text(s: Seq<char>)
    ensures
        is_utf16le(utf16le(s)),
        utf16le_text(utf16le(s)) == s,
{
    let t = utf16le_text(utf16le(s));
    assert(utf16le(t) == utf16le(s));
    lemma_utf16le_injective(t, s);
}

/// A run of characters U+0000 is encoded as twice as many zero bytes.
pub proof fn lemma_utf16le_nuls(k: nat)
    ensures
        utf16le(nuls(k)) == zeros(2 * k),
    decreases k,
{
    if k == 0 {
        assert(utf16le(nuls(k)) =~= zeros(2 * k));
    } else {
        lemma_utf16le_nuls((k - 1) as nat);
        assert(nuls(k).drop_last() =~= nuls((k - 1) as nat));
        assert('\0' as u32 == 0);
        assert(utf16le_char('\0') =~= zeros(2));
        assert(zeros((2 * (k - 1)) as nat) + zeros(2) =~= zeros(2 * k));
    }
}

/// Trimming takes exactly the padding off a text that does not itself end
/// in U+0000.
pub proof fn lemma_trim_padding(s: Seq<char>, k: nat)
    requires
        s.len() == 0 || s.last() != '\0',
    ensures
        trim_nuls(s + nuls(k)) == s,
    decreases k,
{
    if k == 0 {
        assert(s + nuls(k) =~= s);
    } else {
        lemma_trim_padding(s, (k - 1) as nat);
        assert((s + nuls(k)).drop_last() =~= s + nuls((k - 1) as nat));
        assert((s + nuls(k)).last() == '\0');
    }
}

/// The UTF-16LE bytes of `text`, through `WString::<LE>::from(&str)` and
/// `WString::into_bytes` of the crate utf16string. The claim: the call
/// encodes each character of the text in turn, a scalar value below 0x10000
/// as one unit and any other as a surrogate pair, each unit low byte first.
#[verifier::external_body]
pub(crate) fn encode_utf16le(text: &str) -> (out: Vec<u8>)
    ensures
        out@ == utf16le(text@),
{
    utf16string::WString::<utf16string::LE>::from(text).into_bytes()
}

/// The text that `bytes` encode, through `WString::from_utf16le` and
/// `WStr::to_utf8` of the crate utf16string. The claim: the call succeeds
/// exactly on the bytes that are the UTF-16LE encoding of some text, and
/// then returns that text; an odd length, a lone surrogate or a pair in the
/// wrong order makes it fail.
#[verifier::external_body]
pub(crate) fn decode_utf16le(bytes: Vec<u8>) -> (r: Result<String, utf16string::Utf16Error>)
    ensures
        r is Ok ==> utf16le(r->Ok_0@) == bytes@,
        r is Err ==> !is_utf16le(bytes@),
{
    Ok(utf16string::WString::<utf16string::LE>::from_utf16le(bytes)?.to_utf8())
}

} // verus!
