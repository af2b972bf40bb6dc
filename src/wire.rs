//! Byte-level building blocks of the wire form: LEB128 integers and
//! length-prefixed UTF-8 strings.
use vstd::prelude::*;
use vstd::slice::slice_subrange;
use vstd::utf8::{
    decode_utf8, decode_utf8_encode_utf8, encode_utf8, encode_utf8_decode_utf8, encode_utf8_valid_utf8,
    valid_utf8,
};

verus! {

/// The LEB128 form of `v`: seven bits per byte, least significant group first,
/// the high bit set on every byte but the last.
pub open spec fn varint(v: nat) -> Seq<u8>
    decreases v,
{
    if v < 128 {
        seq![v as u8]
    } else {
        seq![((v % 128) + 128) as u8] + varint(v / 128)
    }
}

/// `s` begins with `p`.
pub open spec fn starts_with(s: Seq<u8>, p: Seq<u8>) -> bool {
    p.len() <= s.len() && s.subrange(0, p.len() as int) == p
}

/// What is left of `b` from position `pos` on.
pub open spec fn rest(b: Seq<u8>, pos: int) -> Seq<u8> {
    b.subrange(pos, b.len() as int)
}

/// `s` is `w` cut short: a proper prefix of it.
pub open spec fn truncates(s: Seq<u8>, w: Seq<u8>) -> bool {
    s.len() < w.len() && w.subrange(0, s.len() as int) == s
}

/// A string on the wire: its UTF-8 byte count, then its UTF-8 bytes.
pub open spec fn str_wire(s: Seq<char>) -> Seq<u8> {
    varint(encode_utf8(s).len()) + encode_utf8(s)
}

/// If the bytes from `pos` on begin with `a + b`, they begin with `a`, and
/// the bytes from `pos + |a|` on begin with `b`.
pub proof fn lemma_split(buf: Seq<u8>, pos: int, a: Seq<u8>, b: Seq<u8>)
    requires
        0 <= pos <= buf.len(),
        starts_with(rest(buf, pos), a + b),
    ensures
        starts_with(rest(buf, pos), a),
        starts_with(rest(buf, pos + a.len()), b),
        pos + a.len() + b.len() <= buf.len(),
{
    let r = rest(buf, pos);
    assert(r.subrange(0, a.len() as int) =~= (a + b).subrange(0, a.len() as int));
    assert((a + b).subrange(0, a.len() as int) =~= a);
    let r2 = rest(buf, pos + a.len());
    assert(r2.subrange(0, b.len() as int) =~= (a + b).subrange(a.len() as int, (a + b).len() as int));
    assert((a + b).subrange(a.len() as int, (a + b).len() as int) =~= b);
}

proof fn lemma_str_parts(buf: Seq<u8>, pos: int, s: Seq<char>)
    requires
        0 <= pos <= buf.len() <= usize::MAX,
        starts_with(rest(buf, pos), str_wire(s)),
    ensures
        encode_utf8(s).len() <= usize::MAX,
        starts_with(rest(buf, pos), varint(encode_utf8(s).len())),
        starts_with(rest(buf, pos + varint(encode_utf8(s).len()).len()), encode_utf8(s)),
        pos + varint(encode_utf8(s).len()).len() + encode_utf8(s).len() <= buf.len(),
{
    lemma_split(buf, pos, varint(encode_utf8(s).len()), encode_utf8(s));
}

/// If the bytes from `pos` on are `a + b` cut short, they are `a` cut short,
/// or they begin with `a` and the bytes after it are `b` cut short.
pub proof fn lemma_trunc_split(buf: Seq<u8>, pos: int, a: Seq<u8>, b: Seq<u8>)
    requires
        0 <= pos <= buf.len(),
        truncates(rest(buf, pos), a + b),
    ensures
        truncates(rest(buf, pos), a) || (starts_with(rest(buf, pos), a) && truncates(
            rest(buf, pos + a.len()),
            b,
        )),
{
    let r = rest(buf, pos);
    if r.len() < a.len() {
        assert(a.subrange(0, r.len() as int) =~= (a + b).subrange(0, r.len() as int));
    } else {
        assert(r.subrange(0, a.len() as int) =~= (a + b).subrange(0, a.len() as int));
        assert((a + b).subrange(0, a.len() as int) =~= a);
        let r2 = rest(buf, pos + a.len());
        assert(r2 =~= r.subrange(a.len() as int, r.len() as int));
        assert(b.subrange(0, r2.len() as int) =~= (a + b).subrange(a.len() as int, r.len() as int));
        assert(r.subrange(a.len() as int, r.len() as int) =~= (a + b).subrange(a.len() as int, r.len() as int));
    }
}

/// Relies on prost::encoding::encode_varint: it appends the LEB128 form of `v`.
#[verifier::external_body]
fn put_varint(buf: &mut Vec<u8>, v: u64)
    ensures
        final(buf)@ == old(buf)@ + varint(v as nat),
{
    prost::encoding::encode_varint(v, buf)
}

/// Relies on prost::encoding::decode_varint on a byte slice: where the slice
/// begins with the LEB128 form of some `x` that fits in 64 bits, it returns `x`
/// and moves past that form; where `x` does not fit, the form runs past ten
/// bytes or its tenth byte is above one, and it fails. Where the slice is such
/// a form cut short, every byte has its high bit set and no last byte comes,
/// so it fails. A success always moves past at least one byte. The result
/// gives the number of bytes left after the integer.
#[verifier::external_body]
fn take_varint(bytes: &[u8]) -> (r: Option<(u64, usize)>)
    ensures
        forall|x: nat|
            #![trigger varint(x)]
            starts_with(bytes@, varint(x)) ==> if x <= u64::MAX {
                r == Some((x as u64, (bytes@.len() - varint(x).len()) as usize))
            } else {
                r is None
            },
        forall|x: nat| #![trigger varint(x)] truncates(bytes@, varint(x)) ==> r is None,
        r matches Some((_, left)) ==> left < bytes@.len(),
{
    let mut cursor = bytes;
    match prost::encoding::decode_varint(&mut cursor) {
        Ok(v) => Some((v, cursor.len())),
        Err(_) => None,
    }
}

/// Relies on std::str::from_utf8: it accepts exactly the well-formed UTF-8
/// byte sequences, and reads them as the characters they encode.
#[verifier::external_body]
fn utf8_str(b: &[u8]) -> (r: Option<&str>)
    ensures
        r is Some <==> valid_utf8(b@),
        r matches Some(s) ==> s@ == decode_utf8(b@),
{
    std::str::from_utf8(b).ok()
}

/// Appends the LEB128 form of `v`.
pub fn write_varint(buf: &mut Vec<u8>, v: u64)
    ensures
        final(buf)@ == old(buf)@ + varint(v as nat),
{
    put_varint(buf, v);
}

/// Whether two byte slices hold the same bytes.
pub fn same_bytes(a: &[u8], b: &[u8]) -> (r: bool)
    ensures
        r == (a@ == b@),
{
    if a.len() != b.len() {
        return false;
    }
    let mut i: usize = 0;
    while i < a.len()
        invariant
            a@.len() == b@.len(),
            i <= a@.len(),
            a@.subrange(0, i as int) == b@.subrange(0, i as int),
        decreases a@.len() - i,
    {
        if a[i] != b[i] {
            return false;
        }
        i = i + 1;
        assert(a@.subrange(0, i as int) =~= a@.subrange(0, i as int - 1).push(a@[i - 1]));
        assert(b@.subrange(0, i as int) =~= b@.subrange(0, i as int - 1).push(b@[i - 1]));
    }
    assert(a@ =~= a@.subrange(0, i as int));
    assert(b@ =~= b@.subrange(0, i as int));
    true
}

/// Reads a LEB128 integer at `pos`; on success returns it with the position
/// after it. Only the shortest form of an integer is accepted, so a success
/// means the bytes read are exactly that form.
pub fn read_varint(buf: &[u8], pos: usize) -> (r: Option<(u64, usize)>)
    requires
        pos <= buf@.len(),
    ensures
        forall|x: nat|
            #![trigger varint(x)]
            starts_with(rest(buf@, pos as int), varint(x)) ==> if x <= u64::MAX {
                r == Some((x as u64, (pos + varint(x).len()) as usize))
            } else {
                r is None
            },
        forall|x: nat|
            #![trigger varint(x)]
            truncates(rest(buf@, pos as int), varint(x)) ==> r is None,
        r matches Some((v, end)) ==> pos < end <= buf@.len() && buf@.subrange(pos as int, end as int)
            == varint(v as nat),
{
    let tail = slice_subrange(buf, pos, buf.len());
    let (v, left) = match take_varint(tail) {
        Some(x) => x,
        None => return None,
    };
    let end = buf.len() - left;
    let mut shortest: Vec<u8> = Vec::new();
    write_varint(&mut shortest, v);
    assert(shortest@ =~= varint(v as nat));
    let read = slice_subrange(buf, pos, end);
    if same_bytes(shortest.as_slice(), read) {
        Some((v, end))
    } else {
        proof {
            assert forall|x: nat|
                #![trigger varint(x)]
                starts_with(rest(buf@, pos as int), varint(x)) implies x > u64::MAX by {
                if x <= u64::MAX {
                    assert(read@ =~= varint(x));
                }
            }
        }
        None
    }
}

/// Appends `s` as a length-prefixed UTF-8 string.
pub fn write_str(buf: &mut Vec<u8>, s: &str)
    ensures
        final(buf)@ == old(buf)@ + str_wire(s@),
{
    let b = s.as_bytes();
    let ghost start = buf@;
    write_varint(buf, b.len() as u64);
    let ghost mid = buf@;
    let mut i: usize = 0;
    while i < b.len()
        invariant
            i <= b@.len(),
            b@ == encode_utf8(s@),
            mid == start + varint(b@.len() as nat),
            buf@ == mid + b@.subrange(0, i as int),
        decreases b@.len() - i,
    {
        buf.push(b[i]);
        i = i + 1;
        assert(buf@ =~= mid + b@.subrange(0, i as int));
    }
    assert(b@.subrange(0, b@.len() as int) =~= b@);
    assert(buf@ =~= start + str_wire(s@));
}

/// Reads a length-prefixed UTF-8 string at `pos`; on success returns it with
/// the position after it.
pub fn read_str(buf: &[u8], pos: usize) -> (r: Option<(String, usize)>)
    requires
        pos <= buf@.len(),
    ensures
        forall|s: Seq<char>|
            #![trigger str_wire(s)]
            starts_with(rest(buf@, pos as int), str_wire(s)) ==> (r matches Some((t, end)) && t@
                == s && end == pos + str_wire(s).len()),
        r matches Some((_, end)) ==> pos < end <= buf@.len(),
        forall|s: Seq<char>|
            #![trigger str_wire(s)]
            truncates(rest(buf@, pos as int), str_wire(s)) ==> r is None,
        r matches Some((t, end)) ==> buf@.subrange(pos as int, end as int) == str_wire(t@),
{
    let total = buf.len();
    let (n, p) = match read_varint(buf, pos) {
        Some(x) => x,
        None => {
            proof {
                assert forall|s: Seq<char>|
                    #![trigger str_wire(s)]
                    starts_with(rest(buf@, pos as int), str_wire(s)) implies false by {
                    lemma_str_parts(buf@, pos as int, s);
                }
            }
            return None;
        },
    };
    if n > (total - p) as u64 {
        proof {
            assert forall|s: Seq<char>|
                #![trigger str_wire(s)]
                starts_with(rest(buf@, pos as int), str_wire(s)) implies false by {
                lemma_str_parts(buf@, pos as int, s);
            }
        }
        return None;
    }
    let end = p + n as usize;
    let bytes = slice_subrange(buf, p, end);
    let text = match utf8_str(bytes) {
        Some(t) => t,
        None => {
            proof {
                assert forall|s: Seq<char>|
                    #![trigger str_wire(s)]
                    starts_with(rest(buf@, pos as int), str_wire(s)) implies false by {
                    lemma_str_parts(buf@, pos as int, s);
                    assert(bytes@ =~= encode_utf8(s));
                    encode_utf8_valid_utf8(s);
                }
            }
            return None;
        },
    };
    let out = text.to_owned();
    proof {
        assert forall|s: Seq<char>|
            #![trigger str_wire(s)]
            starts_with(rest(buf@, pos as int), str_wire(s)) implies (out@ == s && end == pos
                + str_wire(s).len()) by {
            lemma_str_parts(buf@, pos as int, s);
            assert(bytes@ =~= encode_utf8(s));
            encode_utf8_valid_utf8(s);
            encode_utf8_decode_utf8(s);
        }
        assert forall|s: Seq<char>|
            #![trigger str_wire(s)]
            truncates(rest(buf@, pos as int), str_wire(s)) implies false by {
            let e = encode_utf8(s);
            lemma_trunc_split(buf@, pos as int, varint(e.len()), e);
        }
        decode_utf8_encode_utf8(bytes@);
        assert(buf@.subrange(pos as int, end as int) =~= buf@.subrange(pos as int, p as int)
            + bytes@);
    }
    Some((out, end))
}

/// Appends the bytes of `b`.
pub fn write_bytes(buf: &mut Vec<u8>, b: &[u8])
    ensures
        final(buf)@ == old(buf)@ + b@,
{
    let ghost start = buf@;
    let mut i: usize = 0;
    while i < b.len()
        invariant
            i <= b@.len(),
            buf@ == start + b@.subrange(0, i as int),
        decreases b@.len() - i,
    {
        buf.push(b[i]);
        i = i + 1;
        assert(buf@ =~= start + b@.subrange(0, i as int));
    }
    assert(b@.subrange(0, b@.len() as int) =~= b@);
}

} // verus!
