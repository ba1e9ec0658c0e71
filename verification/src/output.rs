//! Reading the formatter's output buffer.
use vstd::prelude::*;
use vstd::slice::*;
use vstd::utf8::*;

verus! {

/// Capacity, in bytes, of the buffer that the formatter writes to.
pub const OUTPUT_CAPACITY: usize = 100;

/// The text that lossy UTF-8 decoding makes of `bytes`: the decoded
/// characters, with U+FFFD in place of each ill-formed sequence.
pub uninterp spec fn lossy_text(bytes: Seq<u8>) -> Seq<char>;

/// The text of a buffer of which the formatter reports `written` bytes: the
/// lossy decoding of that many leading bytes, and of nothing behind them.
pub open spec fn reported_text(buf: Seq<u8>, written: int) -> Seq<char>
    recommends
        0 <= written <= buf.len(),
{
    lossy_text(buf.subrange(0, written))
}

/// The characters of a byte string that is pure ASCII, one per byte.
pub open spec fn ascii_text(bytes: Seq<u8>) -> Seq<char> {
    Seq::new(bytes.len(), |i: int| bytes[i] as char)
}

/// Every byte of `bytes` is below 0x80.
pub open spec fn all_ascii(bytes: Seq<u8>) -> bool {
    forall|i: int| 0 <= i < bytes.len() ==> bytes[i] < 0x80u8
}

/// Calls `String::from_utf8_lossy` of std and takes ownership of what it
/// hands back. Trusted: the result is a function of the bytes alone, named
/// [`lossy_text`], and for well-formed UTF-8 it is the decoded text itself,
/// nothing being replaced.
#[verifier::external_body]
fn from_utf8_lossy(bytes: &[u8]) -> (text: String)
    ensures
        text@ == lossy_text(bytes@),
        valid_utf8(bytes@) ==> text@ == decode_utf8(bytes@),
{
    String::from_utf8_lossy(bytes).into_owned()
}

/// Decodes what the formatter wrote: exactly the first `written` bytes of
/// `buf`, lossily. A count of zero, which the formatter also reports when the
/// text did not fit, gives the empty text.
pub fn decode_output(buf: &[u8], written: usize) -> (text: String)
    requires
        written <= buf@.len(),
    ensures
        text@ == reported_text(buf@, written as int),
        valid_utf8(buf@.subrange(0, written as int)) ==> text@ == decode_utf8(
            buf@.subrange(0, written as int),
        ),
        written == 0 ==> text@ == Seq::<char>::empty(),
{
    let reported = slice_subrange(buf, 0, written);
    proof {
        if written == 0 {
            assert(reported@.len() == 0);
            assert(valid_utf8(reported@));
            assert(decode_utf8(reported@) == Seq::<char>::empty());
        }
    }
    from_utf8_lossy(reported)
}

/// What lies in the buffer behind the reported count never shows in the
/// text: two buffers that agree on their first `written` bytes give the same
/// text.
pub proof fn lemma_text_ignores_tail(a: Seq<u8>, b: Seq<u8>, written: int)
    requires
        0 <= written <= a.len(),
        written <= b.len(),
        forall|i: int| 0 <= i < written ==> a[i] == b[i],
    ensures
        reported_text(a, written) == reported_text(b, written),
{
    assert(a.subrange(0, written) =~= b.subrange(0, written));
}

/// Pure ASCII is well-formed UTF-8 and decodes byte for byte.
pub proof fn lemma_ascii_decodes_bytewise(bytes: Seq<u8>)
    requires
        all_ascii(bytes),
    ensures
        valid_utf8(bytes),
        decode_utf8(bytes) == ascii_text(bytes),
{
    let chars = ascii_text(bytes);
    assert forall|i: int| 0 <= i < chars.len() implies '\0' <= #[trigger] chars[i] <= '\u{7f}' by {
        assert(bytes[i] < 0x80u8);
    }
    assert(is_ascii_chars(chars));
    is_ascii_chars_encode_utf8(chars);
    assert forall|i: int| 0 <= i < bytes.len() implies encode_utf8(chars)[i] == bytes[i] by {
        assert(chars[i] as u8 == encode_utf8(chars)[i]);
        assert(bytes[i] < 0x80u8);
    }
    assert(encode_utf8(chars) =~= bytes);
    encode_utf8_valid_utf8(chars);
    encode_utf8_decode_utf8(chars);
}

} // verus!
