//! Format specifiers as NUL-terminated byte strings.
use vstd::prelude::*;
use vstd::utf8::*;

verus! {

/// `bytes` ends in a NUL and holds no other: the shape of a C string.
pub open spec fn nul_terminated(bytes: Seq<u8>) -> bool {
    &&& bytes.len() > 0
    &&& bytes.last() == 0u8
    &&& forall|i: int| 0 <= i < bytes.len() - 1 ==> bytes[i] != 0u8
}

/// `pos` is where the first NUL of `bytes` stands.
pub open spec fn first_nul_at(bytes: Seq<u8>, pos: int) -> bool {
    &&& 0 <= pos < bytes.len()
    &&& bytes[pos] == 0u8
    &&& forall|i: int| 0 <= i < pos ==> bytes[i] != 0u8
}

/// A format specifier that holds a NUL character, and so cannot be written
/// as a C string.
#[derive(Clone, Copy, Debug, PartialEq, Eq)]
pub struct EncodingError {
    /// Offset, in bytes of the specifier's UTF-8 form, of its first NUL.
    pub position: usize,
}

/// A format specifier in the form the C formatter takes: its UTF-8 bytes
/// followed by one NUL.
#[derive(Debug)]
pub struct EncodedSpec {
    bytes: Vec<u8>,
}

proof fn lemma_width_1_nul(c: u32)
    by (bit_vector)
    requires
        c <= 0x7F,
    ensures
        ((c & 0x7F) as u8 == 0u8) <==> c == 0,
{
}

proof fn lemma_marked_bytes_not_nul(x: u8)
    by (bit_vector)
    ensures
        0xC0u8 | x != 0u8,
        0xE0u8 | x != 0u8,
        0xF0u8 | x != 0u8,
        0x80u8 | x != 0u8,
{
}

/// The UTF-8 form of one scalar holds a zero byte only if the scalar is zero,
/// and then it is that one byte.
proof fn lemma_scalar_nul(c: u32)
    requires
        is_scalar(c),
    ensures
        encode_scalar(c).len() >= 1,
        c == 0 ==> encode_scalar(c)[0] == 0u8,
        c != 0 ==> forall|i: int| 0 <= i < encode_scalar(c).len() ==> encode_scalar(c)[i] != 0u8,
{
    if has_width_1_encoding(c) {
        lemma_width_1_nul(c);
    } else if has_width_2_encoding(c) {
        lemma_marked_bytes_not_nul(((c >> 6) & 0x1F) as u8);
        lemma_marked_bytes_not_nul((c & 0x3F) as u8);
    } else if has_width_3_encoding(c) {
        lemma_marked_bytes_not_nul(((c >> 12) & 0x0F) as u8);
        lemma_marked_bytes_not_nul(((c >> 6) & 0x3F) as u8);
        lemma_marked_bytes_not_nul((c & 0x3F) as u8);
    } else {
        lemma_marked_bytes_not_nul(((c >> 18) & 0x7) as u8);
        lemma_marked_bytes_not_nul(((c >> 12) & 0x3F) as u8);
        lemma_marked_bytes_not_nul(((c >> 6) & 0x3F) as u8);
        lemma_marked_bytes_not_nul((c & 0x3F) as u8);
    }
}

/// A text holds a NUL character exactly when its UTF-8 form holds a zero
/// byte: no other character's encoding contains one.
pub proof fn lemma_nul_char_iff_nul_byte(chars: Seq<char>)
    ensures
        chars.contains('\0') <==> encode_utf8(chars).contains(0u8),
    decreases chars.len(),
{
    let bytes = encode_utf8(chars);
    if chars.len() == 0 {
        assert(!chars.contains('\0'));
        assert(!bytes.contains(0u8));
    } else {
        let c = chars[0] as u32;
        let head = encode_scalar(c);
        let rest = chars.drop_first();
        let tail = encode_utf8(rest);
        char_is_scalar(chars[0]);
        lemma_scalar_nul(c);
        lemma_nul_char_iff_nul_byte(rest);
        assert(bytes == head + tail);
        if chars.contains('\0') {
            let k = choose|k: int| 0 <= k < chars.len() && chars[k] == '\0';
            if k == 0 {
                assert(bytes[0] == head[0]);
                assert(bytes[0] == 0u8);
            } else {
                assert(rest[k - 1] == '\0');
                assert(rest.contains('\0'));
                let j = choose|j: int| 0 <= j < tail.len() && tail[j] == 0u8;
                assert(bytes[head.len() + j] == tail[j]);
            }
            assert(bytes.contains(0u8));
        }
        if bytes.contains(0u8) {
            let j = choose|j: int| 0 <= j < bytes.len() && bytes[j] == 0u8;
            if j < head.len() {
                assert(bytes[j] == head[j]);
                assert(c == 0);
                char_u32_cast(chars[0], c);
                char_u32_cast('\0', 0u32);
                assert(chars[0] == '\0');
            } else {
                assert(bytes[j] == tail[j - head.len()]);
                assert(tail.contains(0u8));
                let k = choose|k: int| 0 <= k < rest.len() && rest[k] == '\0';
                assert(chars[k + 1] == '\0');
            }
            assert(chars.contains('\0'));
        }
    }
}

/// ASCII text is encoded byte for byte.
pub proof fn lemma_ascii_encodes_bytewise(chars: Seq<char>)
    requires
        is_ascii_chars(chars),
    ensures
        encode_utf8(chars) == Seq::new(chars.len(), |i: int| chars[i] as u8),
{
    is_ascii_chars_encode_utf8(chars);
    assert(encode_utf8(chars) =~= Seq::new(chars.len(), |i: int| chars[i] as u8));
}

impl View for EncodedSpec {
    type V = Seq<u8>;

    /// The bytes handed to the formatter, terminator included.
    closed spec fn view(&self) -> Seq<u8> {
        self.bytes@
    }
}

impl EncodedSpec {
    #[verifier::type_invariant]
    spec fn well_formed(self) -> bool {
        nul_terminated(self.bytes@)
    }

    /// Encodes `spec` for the formatter. Fails exactly when `spec` holds a
    /// NUL character, and then tells where its first NUL stands; otherwise
    /// the result is the UTF-8 form of `spec` with one NUL behind it.
    pub fn new(spec: &str) -> (r: Result<EncodedSpec, EncodingError>)
        ensures
            r is Err <==> spec@.contains('\0'),
            r is Ok ==> r->Ok_0@ == encode_utf8(spec@).push(0u8),
            r is Ok ==> nul_terminated(r->Ok_0@),
            r is Err ==> first_nul_at(encode_utf8(spec@), r->Err_0.position as int),
    {
        let text = spec.as_bytes();
        let n: usize = text.len();
        let mut bytes: Vec<u8> = Vec::new();
        let mut i: usize = 0;
        proof {
            lemma_nul_char_iff_nul_byte(spec@);
        }
        while i < n
            invariant
                n == text@.len(),
                text@ == encode_utf8(spec@),
                spec@.contains('\0') <==> text@.contains(0u8),
                0 <= i <= n,
                bytes@ == text@.subrange(0, i as int),
                forall|j: int| 0 <= j < i ==> text@[j] != 0u8,
            decreases n - i,
        {
            let b: u8 = text[i];
            if b == 0 {
                assert(text@.contains(0u8));
                return Err(EncodingError { position: i });
            }
            bytes.push(b);
            assert(bytes@ == text@.subrange(0, i + 1));
            i += 1;
        }
        assert(bytes@ == text@);
        assert(!text@.contains(0u8));
        bytes.push(0);
        Ok(EncodedSpec { bytes })
    }

    /// The encoded bytes, terminator included: what the formatter reads.
    pub fn as_bytes(&self) -> (bytes: &[u8])
        ensures
            bytes@ == self@,
            nul_terminated(bytes@),
    {
        proof {
            use_type_invariant(self);
        }
        self.bytes.as_slice()
    }

    /// The number of bytes of the specifier itself, the terminator left out.
    pub fn len(&self) -> (n: usize)
        ensures
            n == self@.len() - 1,
    {
        proof {
            use_type_invariant(self);
        }
        self.bytes.len() - 1
    }
}

} // verus!
