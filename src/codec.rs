//! Little-endian integers and fixed-width, space-padded text slots.
use vstd::bytes::*;
use vstd::prelude::*;
use vstd::string::*;
use vstd::utf8::*;

verus! {

/// The key value that marks a deleted record.
pub const TOMBSTONE: i64 = -1;

/// The ASCII space used to pad text slots.
pub const SPACE: u8 = 0x20;

/// The signed integer whose little-endian encoding is `b` (eight bytes).
pub open spec fn le_i64(b: Seq<u8>) -> i64 {
    spec_u64_from_le_bytes(b) as i64
}

/// The eight little-endian bytes of `x`.
pub open spec fn i64_le(x: i64) -> Seq<u8> {
    spec_u64_to_le_bytes(x as u64)
}

/// Casting between `i64` and `u64` loses nothing.
pub proof fn lemma_cast_round_trip(x: i64, u: u64)
    ensures
        (x as u64) as i64 == x,
        (u as i64) as u64 == u,
{
    assert((x as u64) as i64 == x) by (bit_vector);
    assert((u as i64) as u64 == u) by (bit_vector);
}

/// The key fields of a record are the bytes of the key.
pub proof fn lemma_i64_round_trip(x: i64, b: Seq<u8>)
    ensures
        le_i64(i64_le(x)) == x,
        i64_le(x).len() == 8,
        b.len() == 8 ==> i64_le(le_i64(b)) == b,
{
    lemma_auto_spec_u64_to_from_le_bytes();
    lemma_cast_round_trip(x, spec_u64_from_le_bytes(b));
}

/// `n` ASCII spaces.
pub open spec fn spaces(n: nat) -> Seq<u8> {
    Seq::new(n, |i: int| SPACE)
}

/// A slot of `n` bytes holding `s`: its UTF-8 bytes cut to `n`, then padded
/// with spaces up to `n`.
pub open spec fn text_slot(s: Seq<char>, n: nat) -> Seq<u8> {
    let b = encode_utf8(s);
    if b.len() >= n {
        b.take(n as int)
    } else {
        b + spaces((n - b.len()) as nat)
    }
}

/// `b` without its trailing spaces.
pub open spec fn trim_end_spaces(b: Seq<u8>) -> Seq<u8>
    decreases b.len(),
{
    if b.len() > 0 && b.last() == SPACE {
        trim_end_spaces(b.drop_last())
    } else {
        b
    }
}

/// What `String::from_utf8_lossy` makes of `b` when `b` is not valid UTF-8.
pub uninterp spec fn utf8_lossy(b: Seq<u8>) -> Seq<char>;

/// The text that `b` decodes to, invalid sequences replaced.
pub open spec fn lossy_text(b: Seq<u8>) -> Seq<char> {
    if valid_utf8(b) {
        decode_utf8(b)
    } else {
        utf8_lossy(b)
    }
}

/// The text that a slot holds: its bytes without trailing spaces, decoded as
/// UTF-8 with invalid sequences replaced.
pub open spec fn slot_text(slot: Seq<u8>) -> Seq<char> {
    lossy_text(trim_end_spaces(slot))
}

/// A text that a slot of `n` bytes holds exactly: its UTF-8 encoding fits and
/// does not end in a space.
pub open spec fn canonical_text(s: Seq<char>, n: nat) -> bool {
    let b = encode_utf8(s);
    b.len() <= n && (b.len() == 0 || b.last() != SPACE)
}

/// A slot whose bytes, once trailing spaces are cut, are valid UTF-8.
pub open spec fn canonical_slot(slot: Seq<u8>) -> bool {
    valid_utf8(trim_end_spaces(slot))
}

/// Cutting the trailing spaces of `b` followed by spaces gives `b`, when `b`
/// does not itself end in a space.
pub proof fn lemma_trim_padded(b: Seq<u8>, k: nat)
    requires
        b.len() == 0 || b.last() != SPACE,
    ensures
        trim_end_spaces(b + spaces(k)) == b,
    decreases k,
{
    if k == 0 {
        assert(b + spaces(0) =~= b);
    } else {
        assert((b + spaces(k)).drop_last() =~= b + spaces((k - 1) as nat));
        lemma_trim_padded(b, (k - 1) as nat);
    }
}

/// A slot is its trimmed bytes followed by the spaces that were cut.
pub proof fn lemma_trim_split(b: Seq<u8>)
    ensures
        trim_end_spaces(b).len() <= b.len(),
        b == trim_end_spaces(b) + spaces((b.len() - trim_end_spaces(b).len()) as nat),
        trim_end_spaces(b).len() == 0 || trim_end_spaces(b).last() != SPACE,
    decreases b.len(),
{
    if b.len() > 0 && b.last() == SPACE {
        lemma_trim_split(b.drop_last());
        let t = trim_end_spaces(b);
        assert(b =~= b.drop_last().push(SPACE));
        assert(t + spaces((b.len() - t.len()) as nat) =~= (t + spaces(
            (b.len() - 1 - t.len()) as nat,
        )).push(SPACE));
    } else {
        assert(b =~= b + spaces(0));
    }
}

/// Reading back the slot of a canonical text gives the text.
pub proof fn lemma_slot_round_trip(s: Seq<char>, n: nat)
    requires
        canonical_text(s, n),
    ensures
        trim_end_spaces(text_slot(s, n)) == encode_utf8(s),
        slot_text(text_slot(s, n)) == s,
        text_slot(s, n).len() == n,
{
    broadcast use encode_utf8_valid_utf8, encode_utf8_decode_utf8;

    let b = encode_utf8(s);
    if b.len() == n {
        assert(b + spaces(0) =~= b);
        assert(b.take(n as int) =~= b);
    }
    lemma_trim_padded(b, (n - b.len()) as nat);
}

/// Writing back the text of a canonical slot gives the slot.
pub proof fn lemma_text_round_trip(slot: Seq<u8>)
    requires
        canonical_slot(slot),
    ensures
        text_slot(slot_text(slot), slot.len()) == slot,
        canonical_text(slot_text(slot), slot.len()),
{
    let t = trim_end_spaces(slot);
    lemma_trim_split(slot);
    decode_utf8_encode_utf8(t);
    if t.len() == slot.len() {
        assert(t.take(slot.len() as int) =~= t);
        assert(t + spaces(0) =~= t);
    }
}

/// Reads the signed integer stored little-endian at `data[pos..pos + 8]`.
pub fn read_i64(data: &[u8], pos: usize) -> (r: i64)
    requires
        pos + 8 <= data@.len(),
    ensures
        r == le_i64(data@.subrange(pos as int, pos + 8)),
{
    let _len = data.len();
    let b = &data[pos..pos + 8];
    #[verifier::truncate]
    (u64_from_le_bytes(b) as i64)
}

/// Reads the unsigned integer stored little-endian at `data[pos..pos + 8]`.
pub fn read_u64(data: &[u8], pos: usize) -> (r: u64)
    requires
        pos + 8 <= data@.len(),
    ensures
        r == spec_u64_from_le_bytes(data@.subrange(pos as int, pos + 8)),
{
    let _len = data.len();
    let b = &data[pos..pos + 8];
    u64_from_le_bytes(b)
}

/// Reads the unsigned integer stored little-endian at `data[pos..pos + 4]`.
pub fn read_u32(data: &[u8], pos: usize) -> (r: u32)
    requires
        pos + 4 <= data@.len(),
    ensures
        r == spec_u32_from_le_bytes(data@.subrange(pos as int, pos + 4)),
{
    let _len = data.len();
    let b = &data[pos..pos + 4];
    u32_from_le_bytes(b)
}

/// Appends the little-endian bytes of `x`.
pub fn push_u64(out: &mut Vec<u8>, x: u64)
    ensures
        final(out)@ == old(out)@ + spec_u64_to_le_bytes(x),
{
    let mut b = u64_to_le_bytes(x);
    out.append(&mut b);
}

/// Appends the little-endian bytes of `x`.
pub fn push_i64(out: &mut Vec<u8>, x: i64)
    ensures
        final(out)@ == old(out)@ + i64_le(x),
{
    push_u64(out, #[verifier::truncate] (x as u64));
}

/// Appends the little-endian bytes of `x`.
pub fn push_u32(out: &mut Vec<u8>, x: u32)
    ensures
        final(out)@ == old(out)@ + spec_u32_to_le_bytes(x),
{
    let mut b = u32_to_le_bytes(x);
    out.append(&mut b);
}

/// Relies on `String::from_utf8_lossy`: valid UTF-8 comes back as the text it
/// encodes; each invalid sequence becomes U+FFFD.
#[verifier::external_body]
fn decode_lossy(b: &[u8]) -> (r: String)
    ensures
        valid_utf8(b@) ==> r@ == decode_utf8(b@),
        !valid_utf8(b@) ==> r@ == utf8_lossy(b@),
{
    String::from_utf8_lossy(b).into_owned()
}

/// Appends the slot of `n` bytes that holds `s`.
pub fn push_text_slot(out: &mut Vec<u8>, s: &String, n: usize)
    ensures
        final(out)@ == old(out)@ + text_slot(s@, n as nat),
{
    let b = s.as_str().as_bytes();
    proof {
        assert(b@ == encode_utf8(s@));
    }
    let ghost start = out@;
    let mut i: usize = 0;
    while i < n
        invariant
            i <= n,
            b@ == encode_utf8(s@),
            out@ == start + text_slot(s@, n as nat).take(i as int),
        decreases n - i,
    {
        if i < b.len() {
            out.push(b[i]);
        } else {
            out.push(SPACE);
        }
        proof {
            assert(text_slot(s@, n as nat).take(i + 1) =~= text_slot(s@, n as nat).take(
                i as int,
            ).push(out@.last()));
        }
        i = i + 1;
    }
    proof {
        assert(text_slot(s@, n as nat).take(n as int) =~= text_slot(s@, n as nat));
    }
}

/// Reads the text held by the slot `data[start..start + n]`.
pub fn read_text_slot(data: &[u8], start: usize, n: usize) -> (r: String)
    requires
        start + n <= data@.len(),
    ensures
        r@ == slot_text(data@.subrange(start as int, start + n)),
{
    let ghost slot = data@.subrange(start as int, start + n);
    let _len = data.len();
    let mut end: usize = start + n;
    while end > start && data[end - 1] == SPACE
        invariant
            start <= end <= start + n,
            start + n <= data@.len(),
            slot == data@.subrange(start as int, start + n),
            trim_end_spaces(data@.subrange(start as int, end as int)) == trim_end_spaces(slot),
        decreases end,
    {
        proof {
            assert(data@.subrange(start as int, end as int).drop_last() =~= data@.subrange(
                start as int,
                end - 1,
            ));
        }
        end = end - 1;
    }
    proof {
        assert(trim_end_spaces(data@.subrange(start as int, end as int)) == data@.subrange(
            start as int,
            end as int,
        ));
    }
    decode_lossy(&data[start..end])
}

} // verus!
