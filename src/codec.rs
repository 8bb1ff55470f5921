//! The on-disk record format.
//!
//! A record is one tag byte followed by its text fields. Each field is its
//! length in bytes, as eight little-endian bytes, then its UTF-8 bytes. A `Put`
//! record has two fields (key, value), a `Remove` record one (key). Records
//! stand back to back in a segment; each one says where it ends.
use crate::enums::{CommandView, WriteCommand};
use vstd::bytes::{
    lemma_auto_spec_u64_to_from_le_bytes, spec_u64_from_le_bytes, spec_u64_to_le_bytes,
    u64_from_le_bytes, u64_to_le_bytes,
};
use vstd::prelude::*;
use vstd::slice::{slice_subrange, slice_to_vec};
use vstd::utf8::{decode_utf8, encode_utf8, valid_utf8};

verus! {

broadcast use {
    vstd::utf8::encode_utf8_decode_utf8,
    vstd::utf8::encode_utf8_valid_utf8,
    vstd::utf8::decode_utf8_encode_utf8,
};

/// Tag byte of a `Put` record.
pub const TAG_PUT: u8 = 0x53;

/// Tag byte of a `Remove` record.
pub const TAG_REMOVE: u8 = 0x52;

/// The encoding of one text field: its byte length, then its UTF-8 bytes.
pub open spec fn encode_field(s: Seq<char>) -> Seq<u8> {
    spec_u64_to_le_bytes(encode_utf8(s).len() as u64) + encode_utf8(s)
}

/// The encoding of one record.
pub open spec fn encode(c: CommandView) -> Seq<u8> {
    match c {
        CommandView::Put(k, v) => seq![TAG_PUT] + encode_field(k) + encode_field(v),
        CommandView::Remove(k) => seq![TAG_REMOVE] + encode_field(k),
    }
}

/// Decodes one text field that starts at `pos`: the text and the offset after it.
pub open spec fn decode_field(bytes: Seq<u8>, pos: int) -> Option<(Seq<char>, int)> {
    if pos < 0 || pos + 8 > bytes.len() {
        None
    } else {
        let n = spec_u64_from_le_bytes(bytes.subrange(pos, pos + 8)) as int;
        if pos + 8 + n > bytes.len() {
            None
        } else {
            let b = bytes.subrange(pos + 8, pos + 8 + n);
            if valid_utf8(b) {
                Some((decode_utf8(b), pos + 8 + n))
            } else {
                None
            }
        }
    }
}

/// Decodes the record that starts at `pos`: the record and the offset after it.
/// `None` where the bytes there are not a whole, well-formed record.
pub open spec fn decode_at(bytes: Seq<u8>, pos: int) -> Option<(CommandView, int)> {
    if pos < 0 || pos >= bytes.len() {
        None
    } else if bytes[pos] == TAG_PUT {
        match decode_field(bytes, pos + 1) {
            Some((k, after_key)) => match decode_field(bytes, after_key) {
                Some((v, after_value)) => Some((CommandView::Put(k, v), after_value)),
                None => None,
            },
            None => None,
        }
    } else if bytes[pos] == TAG_REMOVE {
        match decode_field(bytes, pos + 1) {
            Some((k, after_key)) => Some((CommandView::Remove(k), after_key)),
            None => None,
        }
    } else {
        None
    }
}

proof fn lemma_decode_field(pre: Seq<u8>, s: Seq<char>, post: Seq<u8>)
    requires
        encode_utf8(s).len() <= u64::MAX,
    ensures
        decode_field(pre + encode_field(s) + post, pre.len() as int) == Some(
            (s, (pre.len() + encode_field(s).len()) as int),
        ),
        encode_field(s).len() == 8 + encode_utf8(s).len(),
{
    lemma_auto_spec_u64_to_from_le_bytes();
    let b = encode_utf8(s);
    let all = pre + encode_field(s) + post;
    let p = pre.len() as int;
    assert(all.subrange(p, p + 8) =~= spec_u64_to_le_bytes(b.len() as u64));
    assert(all.subrange(p + 8, p + 8 + b.len()) =~= b);
}

/// Whether each text of the record has a byte length that its length field can hold.
pub open spec fn fits(c: CommandView) -> bool {
    match c {
        CommandView::Put(k, v) => encode_utf8(k).len() <= u64::MAX && encode_utf8(v).len()
            <= u64::MAX,
        CommandView::Remove(k) => encode_utf8(k).len() <= u64::MAX,
    }
}

/// A record decodes from its own encoding, whatever stands before or after it.
pub proof fn lemma_decode_encode(pre: Seq<u8>, c: CommandView, post: Seq<u8>)
    requires
        fits(c),
    ensures
        decode_at(pre + encode(c) + post, pre.len() as int) == Some(
            (c, (pre.len() + encode(c).len()) as int),
        ),
{
    let p = pre.len() as int;
    match c {
        CommandView::Put(k, v) => {
            let all = pre + encode(c) + post;
            assert(all[p] == TAG_PUT);
            lemma_decode_field(pre + seq![TAG_PUT], k, encode_field(v) + post);
            assert(pre + seq![TAG_PUT] + encode_field(k) + (encode_field(v) + post) =~= all);
            lemma_decode_field(pre + seq![TAG_PUT] + encode_field(k), v, post);
            assert(pre + seq![TAG_PUT] + encode_field(k) + encode_field(v) + post =~= all);
        },
        CommandView::Remove(k) => {
            let all = pre + encode(c) + post;
            assert(all[p] == TAG_REMOVE);
            lemma_decode_field(pre + seq![TAG_REMOVE], k, post);
            assert(pre + seq![TAG_REMOVE] + encode_field(k) + post =~= all);
        },
    }
}

proof fn lemma_field_canonical(bytes: Seq<u8>, pos: int)
    requires
        decode_field(bytes, pos) is Some,
    ensures
        ({
            let (s, end) = decode_field(bytes, pos)->0;
            &&& pos + 8 <= end <= bytes.len()
            &&& bytes.subrange(pos, end) == encode_field(s)
            &&& encode_utf8(s).len() <= u64::MAX
        }),
{
    lemma_auto_spec_u64_to_from_le_bytes();
    let n = spec_u64_from_le_bytes(bytes.subrange(pos, pos + 8));
    let b = bytes.subrange(pos + 8, pos + 8 + n);
    assert(encode_utf8(decode_utf8(b)) == b);
    assert(spec_u64_to_le_bytes(n) == bytes.subrange(pos, pos + 8));
    assert(bytes.subrange(pos, pos + 8 + n) =~= bytes.subrange(pos, pos + 8) + b);
}

/// Whatever decodes at `pos` is the encoding of what it decodes to, and lies
/// within the bytes.
pub proof fn lemma_decode_canonical(bytes: Seq<u8>, pos: int)
    requires
        decode_at(bytes, pos) is Some,
    ensures
        ({
            let (c, end) = decode_at(bytes, pos)->0;
            &&& 0 <= pos < end <= bytes.len()
            &&& bytes.subrange(pos, end) == encode(c)
            &&& fits(c)
        }),
{
    if bytes[pos] == TAG_PUT {
        lemma_field_canonical(bytes, pos + 1);
        let (k, after_key) = decode_field(bytes, pos + 1)->0;
        lemma_field_canonical(bytes, after_key);
        let (v, after_value) = decode_field(bytes, after_key)->0;
        assert(bytes.subrange(pos, after_value) =~= seq![TAG_PUT] + bytes.subrange(pos + 1, after_key)
            + bytes.subrange(after_key, after_value));
    } else {
        lemma_field_canonical(bytes, pos + 1);
        let (k, after_key) = decode_field(bytes, pos + 1)->0;
        assert(bytes.subrange(pos, after_key) =~= seq![TAG_REMOVE] + bytes.subrange(pos + 1, after_key));
    }
}

/// A record that decodes keeps decoding the same when bytes are added after.
pub proof fn lemma_decode_extend(bytes: Seq<u8>, pos: int, more: Seq<u8>)
    requires
        decode_at(bytes, pos) is Some,
    ensures
        decode_at(bytes + more, pos) == decode_at(bytes, pos),
{
    lemma_decode_canonical(bytes, pos);
    let (c, end) = decode_at(bytes, pos)->0;
    let pre = bytes.subrange(0, pos);
    let post = bytes.subrange(end, bytes.len() as int) + more;
    assert(pre + encode(c) + post =~= bytes + more) by {
        assert(bytes =~= pre + bytes.subrange(pos, end) + bytes.subrange(end, bytes.len() as int));
    }
    lemma_decode_encode(pre, c, post);
}

/// Relies on `String::from_utf8`: it accepts exactly the well-formed UTF-8 byte
/// sequences, and the string it returns is made of those bytes.
#[verifier::external_body]
pub(crate) fn string_from_utf8(bytes: Vec<u8>) -> (r: Option<String>)
    ensures
        r is Some <==> valid_utf8(bytes@),
        r matches Some(s) ==> encode_utf8(s@) == bytes@,
{
    String::from_utf8(bytes).ok()
}

fn push_field(out: &mut Vec<u8>, s: &String)
    ensures
        final(out)@ == old(out)@ + encode_field(s@),
        encode_utf8(s@).len() <= u64::MAX,
{
    let b = s.as_str().as_bytes();
    let n = u64_to_le_bytes(b.len() as u64);
    let mut i: usize = 0;
    while i < 8
        invariant
            n@ == spec_u64_to_le_bytes(b@.len() as u64),
            n@.len() == 8,
            0 <= i <= 8,
            out@ == old(out)@ + n@.subrange(0, i as int),
        decreases 8 - i,
    {
        out.push(n[i]);
        i = i + 1;
        assert(out@ =~= old(out)@ + n@.subrange(0, i as int));
    }
    let ghost mid = out@;
    let mut j: usize = 0;
    while j < b.len()
        invariant
            0 <= j <= b@.len(),
            out@ == mid + b@.subrange(0, j as int),
        decreases b@.len() - j,
    {
        out.push(b[j]);
        j = j + 1;
        assert(out@ =~= mid + b@.subrange(0, j as int));
    }
    assert(out@ =~= old(out)@ + encode_field(s@));
}

/// The encoding of a record.
pub fn encode_command(cmd: &WriteCommand) -> (r: Vec<u8>)
    ensures
        r@ == encode(cmd@),
        fits(cmd@),
{
    let mut out: Vec<u8> = Vec::new();
    match cmd {
        WriteCommand::Put(k, v) => {
            out.push(TAG_PUT);
            push_field(&mut out, k);
            push_field(&mut out, v);
        },
        WriteCommand::Remove(k) => {
            out.push(TAG_REMOVE);
            push_field(&mut out, k);
        },
    }
    assert(out@ =~= encode(cmd@));
    out
}

fn read_field(bytes: &[u8], pos: usize) -> (r: Option<(String, usize)>)
    ensures
        match r {
            Some((s, end)) => decode_field(bytes@, pos as int) == Some((s@, end as int)),
            None => decode_field(bytes@, pos as int) is None,
        },
{
    if pos > bytes.len() || bytes.len() - pos < 8 {
        return None;
    }
    let n = u64_from_le_bytes(slice_subrange(bytes, pos, pos + 8));
    let rest = bytes.len() - pos - 8;
    if n > rest as u64 {
        return None;
    }
    let start = pos + 8;
    let end = start + n as usize;
    let field = slice_to_vec(slice_subrange(bytes, start, end));
    match string_from_utf8(field) {
        Some(s) => {
            assert(decode_utf8(encode_utf8(s@)) == s@);
            Some((s, end))
        },
        None => None,
    }
}

/// Decodes the record that starts at `pos`: the record and the offset just
/// after it, or `None` where no whole, well-formed record starts there.
pub fn decode_command(bytes: &[u8], pos: usize) -> (r: Option<(WriteCommand, usize)>)
    ensures
        match r {
            Some((c, end)) => decode_at(bytes@, pos as int) == Some((c@, end as int)),
            None => decode_at(bytes@, pos as int) is None,
        },
{
    if pos >= bytes.len() {
        return None;
    }
    let tag = bytes[pos];
    if tag == TAG_PUT {
        match read_field(bytes, pos + 1) {
            Some((k, after_key)) => match read_field(bytes, after_key) {
                Some((v, after_value)) => Some((WriteCommand::Put(k, v), after_value)),
                None => None,
            },
            None => None,
        }
    } else if tag == TAG_REMOVE {
        match read_field(bytes, pos + 1) {
            Some((k, after_key)) => Some((WriteCommand::Remove(k), after_key)),
            None => None,
        }
    } else {
        None
    }
}

/// The length of a record's encoding: the tag, then each field's eight
/// length bytes and its UTF-8 bytes.
pub proof fn lemma_encode_len(c: CommandView)
    ensures
        encode(c).len() == match c {
            CommandView::Put(k, v) => 17 + encode_utf8(k).len() + encode_utf8(v).len(),
            CommandView::Remove(k) => 9 + encode_utf8(k).len(),
        },
{
    lemma_auto_spec_u64_to_from_le_bytes();
}

} // verus!
