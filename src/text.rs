//! Cutting pieces out of a source text by byte offsets.
use vstd::prelude::*;
use vstd::string::StringSliceAdditionalSpecFns;
use vstd::utf8::*;

verus! {

broadcast use vstd::utf8::encode_utf8_valid_utf8, vstd::utf8::encode_utf8_decode_utf8;

/// An offset of `b` next to an ASCII byte (or at either end of `b`). In UTF-8
/// such an offset never falls inside the encoding of a character.
pub open spec fn at_ascii_edge(b: Seq<u8>, i: int) -> bool {
    ||| i == 0
    ||| i == b.len()
    ||| (0 <= i < b.len() && b[i] < 0x80)
    ||| (0 < i <= b.len() && b[i - 1] < 0x80)
}

/// The characters of the bytes of `b` from offset `from` up to offset `to`.
pub open spec fn text_of(b: Seq<u8>, from: int, to: int) -> Seq<char> {
    decode_utf8(b.subrange(from, to))
}

/// In UTF-8, an offset is a character boundary exactly where it is the start,
/// the end, or the offset of a byte that does not continue a character.
pub proof fn lemma_boundary_iff(b: Seq<u8>, i: int)
    requires
        valid_utf8(b),
        0 <= i <= b.len(),
    ensures
        is_char_boundary(b, i) <==> (i == 0 || i == b.len() || !is_continuation_byte(b[i])),
    decreases b.len(),
{
    if i != 0 {
        let l = length_of_first_scalar(b);
        let rest = pop_first_scalar(b);
        reveal_with_fuel(valid_utf8, 2);
        assert(valid_first_scalar(b));
        if i >= l {
            lemma_boundary_iff(rest, i - l);
            if i - l == 0 && i < b.len() {
                assert(rest[0] == b[i]);
                assert(valid_first_scalar(rest));
            }
            if i - l > 0 && i < b.len() {
                assert(rest[i - l] == b[i]);
            }
        } else {
            reveal_with_fuel(is_char_boundary, 2);
            assert(!is_char_boundary(b, i));
            assert(is_continuation_byte(b[i]));
        }
    }
}

proof fn lemma_ascii_bits(c: u8)
    requires
        c < 0x80,
    ensures
        c & 0x7f == c,
{
    assert(c < 0x80 ==> c & 0x7f == c) by (bit_vector);
}

/// Bytes that are all ASCII are valid UTF-8, one character each.
pub proof fn lemma_decode_ascii(b: Seq<u8>)
    requires
        forall|k: int| 0 <= k < b.len() ==> #[trigger] b[k] < 0x80,
    ensures
        valid_utf8(b),
        decode_utf8(b) =~= Seq::new(b.len(), |k: int| (b[k] as u32) as char),
    decreases b.len(),
{
    if b.len() > 0 {
        lemma_ascii_bits(b[0]);
        let rest = b.subrange(1, b.len() as int);
        lemma_decode_ascii(rest);
        assert(decode_utf8(b) == seq![(b[0] as u32) as char] + decode_utf8(rest));
    }
}

/// An offset next to an ASCII byte is a character boundary.
pub proof fn lemma_ascii_edge_is_boundary(b: Seq<u8>, i: int)
    requires
        valid_utf8(b),
        0 <= i <= b.len(),
        at_ascii_edge(b, i),
    ensures
        is_char_boundary(b, i),
    decreases b.len(),
{
    if i != 0 {
        let l = length_of_first_scalar(b);
        let rest = pop_first_scalar(b);
        if i >= l {
            assert(at_ascii_edge(rest, i - l));
            lemma_ascii_edge_is_boundary(rest, i - l);
        }
    }
}

/// An offset of the text of `source` next to an ASCII byte is a character boundary.
pub proof fn lemma_edge_of_str(source: &str, i: int)
    requires
        0 <= i <= source.spec_bytes().len(),
        at_ascii_edge(source.spec_bytes(), i),
    ensures
        is_char_boundary(source.spec_bytes(), i),
{
    lemma_ascii_edge_is_boundary(source.spec_bytes(), i);
}

/// The text of `source` from byte `from` up to byte `to`.
pub fn text_between(source: &str, from: usize, to: usize) -> (r: String)
    requires
        from <= to <= source.spec_bytes().len(),
        is_char_boundary(source.spec_bytes(), from as int),
        is_char_boundary(source.spec_bytes(), to as int),
    ensures
        r@ == text_of(source.spec_bytes(), from as int, to as int),
        encode_utf8(r@) == source.spec_bytes().subrange(from as int, to as int),
{
    let ghost b = source.spec_bytes();
    let (_, rest) = source.split_at(from);
    proof {
        let rb = rest.spec_bytes();
        let k = (to - from) as int;
        lemma_boundary_iff(b, to as int);
        lemma_boundary_iff(rb, k);
        if k > 0 && k < rb.len() {
            assert(rb[k] == b[to as int]);
        }
    }
    let (piece, _) = rest.split_at(to - from);
    assert(piece.spec_bytes() =~= b.subrange(from as int, to as int));
    piece.to_owned()
}

} // verus!
