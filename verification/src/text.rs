use vstd::prelude::*;
use vstd::string::StringSliceAdditionalSpecFns;
use vstd::utf8::{
    decode_utf8, encode_utf8, encode_utf8_decode_utf8, encode_utf8_valid_utf8, is_char_boundary,
    is_char_boundary_iff_not_is_continuation_byte, is_char_boundary_start_end_of_seq,
    valid_utf8_split,
};

verus! {

/// The most bytes of the source that an error shows.
pub const SNIPPET_LIMIT: usize = 100;

/// The characters that the bytes `from..to` of the encoded text spell.
pub open spec fn lexeme(source: Seq<char>, from: int, to: int) -> Seq<char> {
    decode_utf8(encode_utf8(source).subrange(from, to))
}

/// Whether `end` is where a snippet that begins at `offset` ends: the last
/// character boundary that lies no more than `SNIPPET_LIMIT` bytes on.
pub open spec fn is_snippet_end(bytes: Seq<u8>, offset: int, end: int) -> bool {
    let limit = if bytes.len() - offset > SNIPPET_LIMIT {
        offset + SNIPPET_LIMIT
    } else {
        bytes.len() as int
    };
    &&& offset <= end <= limit
    &&& is_char_boundary(bytes, end)
    &&& forall|later: int| end < later <= limit ==> !is_char_boundary(bytes, later)
}

/// A boundary of the text that lies at or after another is a boundary of
/// the rest of the text from there on.
proof fn lemma_boundary_of_rest(bytes: Seq<u8>, from: int, to: int)
    requires
        vstd::utf8::valid_utf8(bytes),
        0 <= from <= to <= bytes.len(),
        is_char_boundary(bytes, from),
        is_char_boundary(bytes, to),
    ensures
        vstd::utf8::valid_utf8(bytes.subrange(from, bytes.len() as int)),
        is_char_boundary(bytes.subrange(from, bytes.len() as int), to - from),
{
    let rest = bytes.subrange(from, bytes.len() as int);
    valid_utf8_split(bytes, from);
    if to == from {
    } else if to == bytes.len() {
        is_char_boundary_start_end_of_seq(rest);
    } else {
        is_char_boundary_iff_not_is_continuation_byte(bytes, to);
        is_char_boundary_iff_not_is_continuation_byte(rest, to - from);
    }
}

/// The length of `source` in bytes.
pub fn byte_len(source: &str) -> (n: usize)
    ensures
        n == source.spec_bytes().len(),
{
    source.as_bytes().len()
}

/// The part of `source` between the byte offsets `from` and `to`.
pub fn slice<'a>(source: &'a str, from: usize, to: usize) -> (part: &'a str)
    requires
        from <= to <= source.spec_bytes().len(),
        is_char_boundary(source.spec_bytes(), from as int),
        is_char_boundary(source.spec_bytes(), to as int),
    ensures
        part@ == lexeme(source@, from as int, to as int),
        part.spec_bytes() == source.spec_bytes().subrange(from as int, to as int),
{
    let ghost bytes = source.spec_bytes();
    proof {
        encode_utf8_valid_utf8(source@);
        lemma_boundary_of_rest(bytes, from as int, to as int);
    }
    let (_, rest) = source.split_at(from);
    let (part, _) = rest.split_at(to - from);
    proof {
        assert(part.spec_bytes() =~= bytes.subrange(from as int, to as int));
        encode_utf8_decode_utf8(part@);
    }
    part
}

/// Where the snippet that begins at `offset` ends.
pub fn snippet_end(source: &str, offset: usize) -> (end: usize)
    requires
        offset <= source.spec_bytes().len(),
        is_char_boundary(source.spec_bytes(), offset as int),
    ensures
        is_snippet_end(source.spec_bytes(), offset as int, end as int),
{
    let len = byte_len(source);
    let limit = if len - offset > SNIPPET_LIMIT {
        offset + SNIPPET_LIMIT
    } else {
        len
    };
    let mut end = limit;
    while !source.is_char_boundary(end)
        invariant
            offset <= end <= limit,
            limit <= source.spec_bytes().len(),
            is_char_boundary(source.spec_bytes(), offset as int),
            forall|later: int|
                end < later <= limit ==> !is_char_boundary(source.spec_bytes(), later),
        decreases end - offset,
    {
        end -= 1;
    }
    end
}

} // verus!
