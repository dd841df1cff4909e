use vstd::prelude::*;

verus! {

use vstd::utf8::{
    valid_utf8, decode_utf8, encode_utf8, encode_scalar, has_width_1_encoding,
    encode_utf8_valid_utf8, encode_utf8_decode_utf8,
};
use vstd::arithmetic::div_mod::lemma_fundamental_div_mod;
use crate::error::DecodeErr;
use crate::stream::{spec_scan, spec_scan_rest};
use crate::parse::{spec_split_header, spec_parse_usize, is_digits, is_digit, spec_dec_val, hex_digit};
use crate::object::{
    spec_decode, spec_tree, spec_commit, spec_lines, commit_fold, ObjectView, ObjectTypeView,
    BlobView, TreeEntryView, CommitView,
};

/// A header whose text has no space at all, or more than one space, is
/// rejected as `MalformedHeader`, whatever its type and size tokens hold.
pub proof fn lemma_header_single_space(hash: Seq<char>, s: Seq<u8>)
    requires
        valid_utf8(spec_scan(s, 0)),
        ({
            let h = decode_utf8(spec_scan(s, 0));
            !h.contains(' ') || exists|i: int, j: int|
                0 <= i < j < h.len() && h[i] == ' ' && h[j] == ' '
        }),
    ensures
        spec_decode(hash, s) == Err::<ObjectView, DecodeErr>(DecodeErr::MalformedHeader),
{
    let h = decode_utf8(spec_scan(s, 0));
    h.index_of_first_ensures(' ');
    if h.contains(' ') {
        let (i, j) = choose|i: int, j: int|
            0 <= i < j < h.len() && h[i] == ' ' && h[j] == ' ';
        match h.index_of_first(' ') {
            Some(f) => {
                assert(f <= i);
                assert(h.skip(f + 1)[j - f - 1] == h[j]);
                assert(h.skip(f + 1).contains(' '));
                assert(spec_split_header(h) == None::<(Seq<char>, Seq<char>)>);
            },
            None => {
                assert(false);
            },
        }
    } else {
        assert(spec_split_header(h) == None::<(Seq<char>, Seq<char>)>);
    }
}

/// A tree payload with no entries (its first header token is empty, as at the
/// end of the stream) decodes to an empty entry sequence, not an error.
pub proof fn lemma_empty_tree(s: Seq<u8>)
    requires
        spec_scan(s, 0).len() == 0,
    ensures
        spec_tree(s) == Ok::<Seq<TreeEntryView>, DecodeErr>(Seq::empty()),
{
}

/// A commit whose header section carries a tree, an author and at least one
/// parent, but no committer, fails with exactly `MissingField("committer")`.
pub proof fn lemma_commit_missing_committer(s: Seq<u8>)
    requires
        commit_fold(spec_lines(s)) matches Some(a) && a.parents.len() > 0 && a.tree is Some
            && a.author is Some && a.committer is None,
    ensures
        spec_commit(s) == Err::<CommitView, DecodeErr>(DecodeErr::MissingField("committer"@)),
{
}

/// The decimal digits of `n`, most significant first; empty for zero.
pub open spec fn dec_digits(n: int) -> Seq<char>
    decreases n,
{
    if n <= 0 {
        Seq::empty()
    } else {
        dec_digits(n / 10).push(hex_digit((n % 10) as u8))
    }
}

/// The decimal rendering of a size, as `parse_usize` reads it back.
pub open spec fn dec_text(n: int) -> Seq<char> {
    if n == 0 {
        seq!['0']
    } else {
        dec_digits(n)
    }
}

proof fn lemma_dec_digits(n: int)
    requires
        n >= 0,
    ensures
        is_digits(dec_digits(n)),
        spec_dec_val(dec_digits(n)) == n,
    decreases n,
{
    if n > 0 {
        lemma_dec_digits(n / 10);
        lemma_fundamental_div_mod(n, 10);
        let d = (n % 10) as u8;
        assert(48 <= hex_digit(d) as u32 <= 57);
        let s = dec_digits(n);
        assert(s.drop_last() =~= dec_digits(n / 10));
        assert(s.last() == hex_digit(d));
        assert forall|i: int| 0 <= i < s.len() implies is_digit(#[trigger] s[i]) by {
            if i < s.len() - 1 {
                assert(s[i] == dec_digits(n / 10)[i]);
            }
        }
        assert(spec_dec_val(s) == spec_dec_val(dec_digits(n / 10)) * 10 + (hex_digit(d) as u32
            - 48));
    }
}

proof fn lemma_dec_text(n: int)
    requires
        n >= 0,
    ensures
        dec_text(n).len() > 0,
        is_digits(dec_text(n)),
        spec_dec_val(dec_text(n)) == n,
{
    if n == 0 {
        assert(dec_text(0) == seq!['0']);
        assert(seq!['0'].drop_last() =~= Seq::<char>::empty());
        assert(spec_dec_val(Seq::<char>::empty()) == 0);
        assert('0' as u32 == 48);
        assert(spec_dec_val(seq!['0']) == 0);
        assert(is_digits(dec_text(0)));
    } else {
        lemma_dec_digits(n);
        assert(dec_text(n) == dec_digits(n));
        assert(dec_digits(n).len() > 0);
    }
}

/// The UTF-8 encoding of characters below 0x80 is one byte per character,
/// holding the character's own code.
proof fn lemma_ascii_bytes(s: Seq<char>)
    requires
        forall|i: int| 0 <= i < s.len() ==> (#[trigger] s[i] as u32) < 128,
    ensures
        encode_utf8(s).len() == s.len(),
        forall|i: int| 0 <= i < s.len() ==> (#[trigger] encode_utf8(s)[i] as u32) == s[i] as u32,
    decreases s.len(),
{
    if s.len() > 0 {
        let sc = s[0] as u32;
        assert(sc < 128);
        assert(has_width_1_encoding(sc));
        assert(((sc & 0x7F) as u8) as u32 == sc) by (bit_vector)
            requires
                sc < 128,
        ;
        assert(encode_scalar(sc) =~= seq![(sc & 0x7F) as u8]);
        let rest = s.drop_first();
        assert forall|i: int| 0 <= i < rest.len() implies (#[trigger] rest[i] as u32) < 128 by {
            assert(rest[i] == s[i + 1]);
            assert((s[i + 1] as u32) < 128);
        }
        lemma_ascii_bytes(rest);
        assert(encode_utf8(s) == encode_scalar(sc) + encode_utf8(rest));
        assert forall|i: int| 0 <= i < s.len() implies (#[trigger] encode_utf8(s)[i] as u32) == s[i]
            as u32 by {
            if i == 0 {
                assert(encode_utf8(s)[0] == (sc & 0x7F) as u8);
            } else {
                assert(encode_utf8(s)[i] == encode_utf8(rest)[i - 1]);
                assert((encode_utf8(rest)[i - 1] as u32) == rest[i - 1] as u32);
                assert(rest[i - 1] == s[i]);
            }
        }
    }
}

/// The object a blob decodes to.
pub open spec fn blob_object(hash: Seq<char>, size: usize, content: Seq<u8>) -> ObjectView {
    ObjectView {
        hash: hash,
        object_size: size,
        object_type: ObjectTypeView::Blob(BlobView { content: content }),
    }
}

/// Round trip for the blob kind: encoding a blob as its on-disk stream — the
/// header `blob <size>` in UTF-8, a nul, then the content verbatim — and
/// decoding it again reproduces every field, for any hash, declared size and
/// content.
pub proof fn lemma_blob_round_trip(hash: Seq<char>, size: usize, content: Seq<u8>)
    ensures
        ({
            let header = "blob "@ + dec_text(size as int);
            let payload = encode_utf8(header) + seq![0u8] + content;
            spec_decode(hash, payload) == Ok::<ObjectView, DecodeErr>(
                blob_object(hash, size, content),
            )
        }),
{
    reveal_strlit("blob ");
    reveal_strlit("blob");
    let header = "blob "@ + dec_text(size as int);
    let hb = encode_utf8(header);
    let payload = hb + seq![0u8] + content;
    lemma_dec_text(size as int);
    // every header character is printable ASCII: the fixed part by its
    // letters, the size part because digits are
    assert forall|i: int| 0 <= i < header.len() implies 32 <= (#[trigger] header[i] as u32)
        && (header[i] as u32) < 128 by {
        if i >= 5 {
            assert(is_digit(dec_text(size as int)[i - 5]));
        }
    }
    lemma_ascii_bytes(header);
    // the first nul byte of the stream is the header terminator
    payload.index_of_first_ensures(0u8);
    assert forall|j: int| 0 <= j < hb.len() implies #[trigger] payload[j] != 0 by {
        assert(payload[j] == hb[j]);
        assert((hb[j] as u32) == header[j] as u32);
        assert(32 <= (header[j] as u32) && (header[j] as u32) < 128);
    }
    assert(payload[hb.len() as int] == 0);
    match payload.index_of_first(0u8) {
        Some(i) => {
            assert(i == hb.len());
        },
        None => {
            assert(payload.contains(0u8));
        },
    }
    assert(spec_scan(payload, 0) =~= hb);
    assert(spec_scan_rest(payload, 0) =~= content);
    // the header text survives the UTF-8 round trip
    encode_utf8_valid_utf8(header);
    encode_utf8_decode_utf8(header);
    // and splits on its single space, into the type token and the size
    header.index_of_first_ensures(' ');
    assert(header[4] == ' ');
    assert forall|j: int| 0 <= j < 4 implies #[trigger] header[j] != ' ' by {
        assert(header[j] == "blob "@[j]);
    }
    assert forall|j: int| 0 <= j < header.skip(5).len() implies #[trigger] header.skip(5)[j]
        != ' ' by {
        assert(header.skip(5)[j] == dec_text(size as int)[j]);
        assert(is_digit(dec_text(size as int)[j]));
    }
    match header.index_of_first(' ') {
        Some(i) => {
            assert(i == 4);
        },
        None => {
            assert(header.contains(' '));
        },
    }
    assert(!header.skip(5).contains(' '));
    assert(spec_split_header(header) == Some((header.take(4), header.skip(5))));
    assert(header.take(4) =~= "blob"@);
    assert(header.skip(5) =~= dec_text(size as int));
    // the size token reads back as the size, and the type token selects the
    // blob payload: the remaining bytes verbatim
    assert(spec_parse_usize(dec_text(size as int)) == Some(size));
    assert(spec_decode(hash, payload) == Ok::<ObjectView, DecodeErr>(
        blob_object(hash, size, content),
    ));
}

} // verus!
