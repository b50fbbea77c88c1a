//! Text shown in the header and status lines.
use vstd::prelude::*;
use vstd::string::{StringExecFns, StringSliceAdditionalSpecFns};
use vstd::utf8::{decode_utf8, encode_utf8, encode_scalar, has_width_1_encoding, is_char_boundary, valid_utf8};

verus! {

broadcast use {
    vstd::utf8::encode_utf8_valid_utf8,
    vstd::utf8::encode_utf8_decode_utf8,
    vstd::utf8::decode_utf8_encode_utf8,
    vstd::utf8::is_char_boundary_start_end_of_seq,
    vstd::utf8::valid_utf8_split,
};

/// The first character boundary of `bytes` at or after `i` (the end counts as one).
pub open spec fn boundary_from(bytes: Seq<u8>, i: nat) -> nat
    decreases bytes.len() - i,
{
    if i >= bytes.len() || is_char_boundary(bytes, i as int) {
        i
    } else {
        boundary_from(bytes, i + 1)
    }
}

/// Where the kept suffix of a too-long path starts: `max_length - 3` bytes from
/// the end (none if `max_length` is below three), moved forward to a character
/// boundary.
pub open spec fn suffix_start(bytes: Seq<u8>, max_length: nat) -> nat {
    let keep: nat = if max_length >= 3 { (max_length - 3) as nat } else { 0 };
    boundary_from(bytes, (bytes.len() - keep) as nat)
}

/// A path cut to fit: unchanged when it fits in `max_length` bytes, otherwise
/// `...` followed by the characters of its kept suffix.
pub open spec fn truncated_path(path: Seq<char>, max_length: nat) -> Seq<char> {
    let bytes = encode_utf8(path);
    if bytes.len() <= max_length {
        path
    } else {
        seq!['.', '.', '.'] + decode_utf8(bytes.subrange(suffix_start(bytes, max_length) as int, bytes.len() as int))
    }
}

proof fn lemma_boundary_from(bytes: Seq<u8>, i: nat)
    requires
        valid_utf8(bytes),
        i <= bytes.len(),
    ensures
        i <= boundary_from(bytes, i) <= bytes.len(),
        is_char_boundary(bytes, boundary_from(bytes, i) as int),
        forall|j: int| i <= j < boundary_from(bytes, i) ==> !is_char_boundary(bytes, j),
    decreases bytes.len() - i,
{
    if !(i >= bytes.len() || is_char_boundary(bytes, i as int)) {
        lemma_boundary_from(bytes, i + 1);
    }
}

/// Encoding a concatenation encodes each part in turn.
pub proof fn lemma_encode_concat(a: Seq<char>, b: Seq<char>)
    ensures
        encode_utf8(a + b) == encode_utf8(a) + encode_utf8(b),
    decreases a.len(),
{
    if a.len() == 0 {
        assert(a + b =~= b);
        assert(encode_utf8(a) =~= Seq::<u8>::empty());
        assert(encode_utf8(a) + encode_utf8(b) =~= encode_utf8(b));
    } else {
        assert((a + b).drop_first() =~= a.drop_first() + b);
        assert((a + b)[0] == a[0]);
        lemma_encode_concat(a.drop_first(), b);
        assert(encode_scalar(a[0] as u32) + (encode_utf8(a.drop_first()) + encode_utf8(b))
            =~= (encode_scalar(a[0] as u32) + encode_utf8(a.drop_first())) + encode_utf8(b));
    }
}

/// Truncates a long path by keeping its last `max_length - 3` bytes, prefixed
/// with `...`. The cut always lands on a UTF-8 character boundary, moving
/// forward past a split character rather than splitting it.
pub fn truncate_path_prefix(path: &str, max_length: usize) -> (out: String)
    requires
        path.spec_bytes().len() <= usize::MAX,
    ensures
        out@ == truncated_path(path@, max_length as nat),
{
    let len = path.len();
    if len <= max_length {
        return String::from_str(path);
    }
    let ghost bytes = path.spec_bytes();
    let keep = if max_length >= 3 { max_length - 3 } else { 0 };
    let mut start = len - keep;
    while start < len && !path.is_char_boundary(start)
        invariant
            len == bytes.len(),
            bytes == path.spec_bytes(),
            len - keep <= start <= len,
            keep == if max_length >= 3 { (max_length - 3) as nat } else { 0 },
            boundary_from(bytes, start as nat) == suffix_start(bytes, max_length as nat),
        decreases len - start,
    {
        start = start + 1;
    }
    proof {
        assert(boundary_from(bytes, start as nat) == start as nat);
        assert(is_char_boundary(bytes, start as int)) by {
            if start == len {
                assert(is_char_boundary(bytes, bytes.len() as int));
            }
        }
    }
    let (_, suffix) = path.split_at(start);
    let mut out = String::from_str("...");
    proof {
        reveal_strlit("...");
        assert(suffix@ == decode_utf8(encode_utf8(suffix@)));
    }
    out.append(suffix);
    out
}

/// A truncated path never splits a character, keeps the end of the given
/// path, and fits its byte budget whenever the budget has room for the `...`.
pub proof fn law_truncated_path_fits(path: Seq<char>, max_length: nat)
    ensures
        ({
            let bytes = encode_utf8(path);
            let out = truncated_path(path, max_length);
            &&& bytes.len() <= max_length ==> out == path
            &&& bytes.len() > max_length ==> {
                let start = suffix_start(bytes, max_length);
                &&& is_char_boundary(bytes, start as int)
                &&& encode_utf8(out) == encode_utf8(seq!['.', '.', '.']) + bytes.subrange(start as int, bytes.len() as int)
                &&& max_length >= 3 ==> encode_utf8(out).len() <= max_length
                &&& forall|j: int| bytes.len() - (if max_length >= 3 { max_length - 3 } else { 0 }) <= j < start
                    ==> !is_char_boundary(bytes, j)
            }
        }),
{
    let bytes = encode_utf8(path);
    if bytes.len() > max_length {
        let keep: nat = if max_length >= 3 { (max_length - 3) as nat } else { 0 };
        lemma_boundary_from(bytes, (bytes.len() - keep) as nat);
        let start = suffix_start(bytes, max_length);
        let tail = bytes.subrange(start as int, bytes.len() as int);
        let dots = seq!['.', '.', '.'];
        lemma_encode_concat(dots, decode_utf8(tail));
        assert(encode_utf8(dots).len() == 3) by {
            reveal_with_fuel(encode_utf8, 4);
            assert(dots.drop_first().drop_first().drop_first() =~= Seq::<char>::empty());
            assert(has_width_1_encoding('.' as u32));
            assert(encode_scalar('.' as u32).len() == 1);
        }
    }
}

} // verus!
