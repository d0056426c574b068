//! Little-endian framing of the snapshot files.
//!
//! Every file ends in the CRC-32 of all bytes before it. Two of the three file
//! formats are a plain envelope: magic, version, log position, body length, body.

use vstd::bytes::{u32_from_le_bytes, u32_to_le_bytes, u64_from_le_bytes, u64_to_le_bytes};
use vstd::prelude::*;

use crate::bitmap;
use crate::bitmap::Bitmap;
use crate::checksum;
use crate::checksum::crc32;
use crate::error;
use crate::error::{corrupt, Error, Result};
use crate::text;
use crate::text::{join2, numeral};

verus! {

/// The least length of a snapshot file: magic, version, log position, a length
/// and the checksum.
pub const MIN_LEN: usize = 24;

/// The four bytes of an integer, least significant first.
pub open spec fn le32(x: u32) -> Seq<u8> {
    vstd::bytes::spec_u32_to_le_bytes(x)
}

/// The eight bytes of an integer, least significant first.
pub open spec fn le64(x: u64) -> Seq<u8> {
    vstd::bytes::spec_u64_to_le_bytes(x)
}

/// The integer that four bytes stand for.
pub open spec fn from_le32(s: Seq<u8>) -> u32 {
    vstd::bytes::spec_u32_from_le_bytes(s)
}

/// The integer that eight bytes stand for.
pub open spec fn from_le64(s: Seq<u8>) -> u64 {
    vstd::bytes::spec_u64_from_le_bytes(s)
}

/// An integer comes back from its bytes.
pub proof fn lemma_le32(x: u32)
    ensures
        le32(x).len() == 4,
        from_le32(le32(x)) == x,
        forall|s: Seq<u8>| s.len() == 4 && #[trigger] from_le32(s) == x ==> s == le32(x),
{
    vstd::bytes::lemma_auto_spec_u32_to_from_le_bytes();
    assert(vstd::bytes::spec_u32_to_le_bytes(x).len() == 4);
    assert forall|s: Seq<u8>| s.len() == 4 && #[trigger] from_le32(s) == x implies s == le32(x) by {
        assert(vstd::bytes::spec_u32_to_le_bytes(vstd::bytes::spec_u32_from_le_bytes(s)) == s);
    }
}

/// An integer comes back from its bytes.
pub proof fn lemma_le64(x: u64)
    ensures
        le64(x).len() == 8,
        from_le64(le64(x)) == x,
{
    vstd::bytes::lemma_auto_spec_u64_to_from_le_bytes();
}

/// Appends bytes.
pub fn put_bytes(buf: &mut Vec<u8>, bytes: &[u8])
    ensures
        final(buf)@ == old(buf)@ + bytes@,
{
    let ghost was = buf@;
    let mut i: usize = 0;
    while i < bytes.len()
        invariant
            i <= bytes@.len(),
            buf@ == was + bytes@.take(i as int),
        decreases bytes@.len() - i,
    {
        buf.push(bytes[i]);
        proof {
            assert(bytes@.take(i + 1) =~= bytes@.take(i as int).push(bytes@[i as int]));
        }
        i += 1;
    }
    proof {
        assert(bytes@.take(i as int) =~= bytes@);
    }
}

/// Appends an integer.
pub fn put_u32(buf: &mut Vec<u8>, x: u32)
    ensures
        final(buf)@ == old(buf)@ + le32(x),
{
    let b: Vec<u8> = u32_to_le_bytes(x);
    put_bytes(buf, b.as_slice());
}

/// Appends an integer.
pub fn put_u64(buf: &mut Vec<u8>, x: u64)
    ensures
        final(buf)@ == old(buf)@ + le64(x),
{
    let b: Vec<u8> = u64_to_le_bytes(x);
    put_bytes(buf, b.as_slice());
}

/// Takes exactly `n` bytes off the front.
pub fn take<'a>(cur: &mut &'a [u8], n: usize) -> (r: Result<&'a [u8]>)
    ensures
        match r {
            Ok(head) => {
                &&& n <= old(cur)@.len()
                &&& head@ == old(cur)@.take(n as int)
                &&& final(cur)@ == old(cur)@.skip(n as int)
            },
            Err(e) => {
                &&& n > old(cur)@.len()
                &&& error::is_corrupt(e, "truncated"@)
                &&& final(cur)@ == old(cur)@
            },
        },
{
    let all: &'a [u8] = *cur;
    if all.len() < n {
        return Err(corrupt("truncated"));
    }
    let (head, rest) = all.split_at(n);
    *cur = rest;
    Ok(head)
}

/// Takes an integer of four bytes off the front.
pub fn read_u32(cur: &mut &[u8]) -> (r: Result<u32>)
    ensures
        match r {
            Ok(x) => {
                &&& old(cur)@.len() >= 4
                &&& x == from_le32(old(cur)@.take(4))
                &&& final(cur)@ == old(cur)@.skip(4)
            },
            Err(e) => {
                &&& old(cur)@.len() < 4
                &&& error::is_corrupt(e, "truncated"@)
                &&& final(cur)@ == old(cur)@
            },
        },
{
    match take(cur, 4) {
        Ok(head) => Ok(u32_from_le_bytes(head)),
        Err(e) => Err(e),
    }
}

/// Takes an integer of eight bytes off the front.
pub fn read_u64(cur: &mut &[u8]) -> (r: Result<u64>)
    ensures
        match r {
            Ok(x) => {
                &&& old(cur)@.len() >= 8
                &&& x == from_le64(old(cur)@.take(8))
                &&& final(cur)@ == old(cur)@.skip(8)
            },
            Err(e) => {
                &&& old(cur)@.len() < 8
                &&& error::is_corrupt(e, "truncated"@)
                &&& final(cur)@ == old(cur)@
            },
        },
{
    match take(cur, 8) {
        Ok(head) => Ok(u64_from_le_bytes(head)),
        Err(e) => Err(e),
    }
}

/// Takes a bitmap off the front.
pub fn read_bitmap(cur: &mut &[u8]) -> (r: Result<Bitmap>)
    ensures
        match r {
            Ok(b) => {
                &&& b.wf()
                &&& bitmap::bitmap_decoding(old(cur)@) matches Ok((set, used)) && b@ == set && used
                    <= old(cur)@.len() && final(cur)@ == old(cur)@.skip(used as int)
            },
            Err(e) => {
                &&& bitmap::bitmap_decoding(old(cur)@) matches Err(why) && error::is_corrupt(
                    e,
                    "bitmap: "@ + why,
                )
                &&& final(cur)@ == old(cur)@
            },
        },
{
    let all: &[u8] = *cur;
    match Bitmap::read_from(all) {
        Ok((b, used)) => {
            let (_, rest) = all.split_at(used);
            *cur = rest;
            Ok(b)
        },
        Err(why) => Err(Error::CorruptSnapshot(join2("bitmap: ", why.as_str()))),
    }
}

/// Whether two byte slices are equal.
pub fn same_bytes(a: &[u8], b: &[u8]) -> (r: bool)
    ensures
        r == (a@ == b@),
{
    if a.len() != b.len() {
        return false;
    }
    let mut i: usize = 0;
    while i < a.len()
        invariant
            i <= a@.len(),
            a@.len() == b@.len(),
            forall|k: int| 0 <= k < i ==> #[trigger] a@[k] == b@[k],
        decreases a@.len() - i,
    {
        if a[i] != b[i] {
            return false;
        }
        i += 1;
    }
    proof {
        assert(a@ =~= b@);
    }
    true
}

/// The bytes with their checksum behind them.
pub open spec fn sealed(body: Seq<u8>) -> Seq<u8> {
    body + le32(checksum::crc32_of(body))
}

/// What is wrong with a sealed file, if anything: too short for the fixed parts,
/// or a checksum that does not match.
pub open spec fn seal_fault(bytes: Seq<u8>) -> Option<Seq<char>> {
    if bytes.len() < MIN_LEN {
        Some("truncated"@)
    } else if checksum::crc32_of(bytes.take(bytes.len() - 4)) != from_le32(
        bytes.skip(bytes.len() - 4),
    ) {
        Some("crc mismatch"@)
    } else {
        None
    }
}

/// Appends the checksum of everything so far. When one byte of the result changes,
/// the checksum included, that is noticed.
pub fn seal(buf: &mut Vec<u8>)
    ensures
        final(buf)@ == sealed(old(buf)@),
        forall|b: Seq<u8>|
            checksum::one_byte_apart(final(buf)@, b) ==> #[trigger] seal_fault(b) is Some,
{
    let crc: u32 = crc32(buf.as_slice());
    put_u32(buf, crc);
    proof {
        assert forall|b: Seq<u8>| checksum::one_byte_apart(buf@, b) implies #[trigger] seal_fault(
            b,
        ) is Some by {
            lemma_le32(crc);
            lemma_change_shows(old(buf)@, le32(crc), b);
        }
    }
}

/// A sequence that is one byte apart from two parts is so in one of them and the
/// same in the other.
pub proof fn lemma_change_shows(head: Seq<u8>, tail: Seq<u8>, b: Seq<u8>)
    requires
        checksum::one_byte_apart(head + tail, b),
    ensures
        ({
            let n = head.len() as int;
            ||| checksum::one_byte_apart(head, b.take(n)) && b.skip(n) == tail
            ||| b.take(n) == head && b.skip(n) != tail
        }),
{
    let n = head.len() as int;
    let whole = head + tail;
    let i = choose|i: int| #[trigger] checksum::apart_at(whole, b, i);
    if i < n {
        assert(checksum::apart_at(head, b.take(n), i)) by {
            assert forall|k: int| 0 <= k < head.len() && k != i implies head[k] == b.take(n)[k] by {
                assert(whole[k] == b[k]);
            }
        }
        assert forall|k: int| 0 <= k < tail.len() implies b.skip(n)[k] == tail[k] by {
            assert(whole[n + k] == b[n + k]);
        }
        assert(b.skip(n) =~= tail);
    } else {
        assert forall|k: int| 0 <= k < head.len() implies b.take(n)[k] == head[k] by {
            assert(whole[k] == b[k]);
        }
        assert(b.take(n) =~= head);
        assert(b.skip(n)[i - n] != tail[i - n]);
    }
}

/// Checks the checksum and gives the bytes before it.
pub fn unseal<'a>(bytes: &'a [u8]) -> (r: std::result::Result<&'a [u8], &'static str>)
    ensures
        match r {
            Ok(body) => {
                &&& seal_fault(bytes@) is None
                &&& body@ == bytes@.take(bytes@.len() - 4)
            },
            Err(why) => seal_fault(bytes@) == Some(why@),
        },
{
    if bytes.len() < MIN_LEN {
        return Err("truncated");
    }
    let (body, tail) = bytes.split_at(bytes.len() - 4);
    if crc32(body) != u32_from_le_bytes(tail) {
        return Err("crc mismatch");
    }
    Ok(body)
}

/// A sealed body that is long enough is found whole.
pub proof fn lemma_sealed(body: Seq<u8>)
    requires
        body.len() >= 20,
    ensures
        seal_fault(sealed(body)) is None,
        sealed(body).len() == body.len() + 4,
        sealed(body).take(sealed(body).len() - 4) == body,
{
    let crc = checksum::crc32_of(body);
    lemma_le32(crc);
    let s = sealed(body);
    assert(s.take(s.len() - 4) =~= body);
    assert(s.skip(s.len() - 4) =~= le32(crc));
}

/// The fixed fields that open every snapshot file.
pub open spec fn preamble(magic: Seq<u8>, version: u32, lsn: u64) -> Seq<u8> {
    magic + le32(version) + le64(lsn)
}

/// What is wrong with the fixed fields, if anything.
pub open spec fn preamble_fault(magic: Seq<u8>, version: u32, body: Seq<u8>) -> Option<Seq<char>> {
    if body.take(4) != magic {
        Some("bad magic"@)
    } else if from_le32(body.subrange(4, 8)) != version {
        Some("unsupported version "@ + text::decimal(from_le32(body.subrange(4, 8)) as nat))
    } else {
        None
    }
}

/// Checks magic and version, and gives the log position.
pub fn read_preamble(magic: &[u8], version: u32, body: &[u8]) -> (r: std::result::Result<
    u64,
    String,
>)
    requires
        body@.len() >= 20,
    ensures
        match r {
            Ok(lsn) => {
                &&& preamble_fault(magic@, version, body@) is None
                &&& lsn == from_le64(body@.subrange(8, 16))
            },
            Err(why) => preamble_fault(magic@, version, body@) == Some(why@),
        },
{
    if !same_bytes(vstd::slice::slice_subrange(body, 0, 4), magic) {
        proof {
            assert(body@.subrange(0, 4) =~= body@.take(4));
        }
        return Err("bad magic".to_owned());
    }
    proof {
        assert(body@.subrange(0, 4) =~= body@.take(4));
    }
    let found: u32 = u32_from_le_bytes(vstd::slice::slice_subrange(body, 4, 8));
    if found != version {
        return Err(join2("unsupported version ", numeral(found as u64).as_str()));
    }
    Ok(u64_from_le_bytes(vstd::slice::slice_subrange(body, 8, 16)))
}

/// The fixed fields are read back as they were written.
pub proof fn lemma_preamble(magic: Seq<u8>, version: u32, lsn: u64, rest: Seq<u8>)
    requires
        magic.len() == 4,
    ensures
        preamble(magic, version, lsn).len() == 16,
        preamble_fault(magic, version, preamble(magic, version, lsn) + rest) is None,
        from_le64((preamble(magic, version, lsn) + rest).subrange(8, 16)) == lsn,
{
    lemma_le32(version);
    lemma_le64(lsn);
    let s = preamble(magic, version, lsn) + rest;
    assert(s.take(4) =~= magic);
    assert(s.subrange(4, 8) =~= le32(version));
    assert(s.subrange(8, 16) =~= le64(lsn));
}

/// A plain snapshot file: fixed fields, body length, body, checksum.
pub open spec fn envelope(magic: Seq<u8>, version: u32, lsn: u64, body: Seq<u8>) -> Seq<u8> {
    sealed(preamble(magic, version, lsn) + le32(body.len() as u32) + body)
}

/// What a plain snapshot file holds: the log position and the body, or what is
/// wrong with it. The checksum is looked at before anything else.
pub open spec fn opened(magic: Seq<u8>, version: u32, bytes: Seq<u8>) -> std::result::Result<
    (u64, Seq<u8>),
    Seq<char>,
> {
    match seal_fault(bytes) {
        Some(why) => Err(why),
        None => {
            let head = bytes.take(bytes.len() - 4);
            match preamble_fault(magic, version, head) {
                Some(why) => Err(why),
                None => {
                    let len = from_le32(head.subrange(16, 20)) as int;
                    if len > head.len() - 20 {
                        Err("body length overruns file"@)
                    } else if len < head.len() - 20 {
                        Err("trailing bytes"@)
                    } else {
                        Ok((from_le64(head.subrange(8, 16)), head.skip(20)))
                    }
                },
            }
        },
    }
}

/// Writes a plain snapshot file.
pub fn write_envelope(magic: &[u8], version: u32, lsn: u64, body: &[u8]) -> (bytes: Vec<u8>)
    ensures
        bytes@ == envelope(magic@, version, lsn, body@),
        forall|b: Seq<u8>|
            checksum::one_byte_apart(bytes@, b) ==> #[trigger] opened(magic@, version, b) is Err,
{
    let mut buf: Vec<u8> = Vec::new();
    put_bytes(&mut buf, magic);
    put_u32(&mut buf, version);
    put_u64(&mut buf, lsn);
    put_u32(&mut buf, body.len() as u32);
    put_bytes(&mut buf, body);
    proof {
        assert(buf@ =~= preamble(magic@, version, lsn) + le32(body@.len() as u32) + body@);
    }
    seal(&mut buf);
    buf
}

/// Reads a plain snapshot file.
pub fn read_envelope<'a>(magic: &[u8], version: u32, bytes: &'a [u8]) -> (r: std::result::Result<
    (u64, &'a [u8]),
    String,
>)
    ensures
        match r {
            Ok((lsn, body)) => opened(magic@, version, bytes@) == Ok::<(u64, Seq<u8>), Seq<char>>(
                (lsn, body@),
            ),
            Err(why) => opened(magic@, version, bytes@) == Err::<(u64, Seq<u8>), Seq<char>>(why@),
        },
{
    let head: &'a [u8] = match unseal(bytes) {
        Ok(head) => head,
        Err(why) => {
            return Err(why.to_owned());
        },
    };
    let lsn: u64 = match read_preamble(magic, version, head) {
        Ok(lsn) => lsn,
        Err(why) => {
            return Err(why);
        },
    };
    let len: u32 = u32_from_le_bytes(vstd::slice::slice_subrange(head, 16, 20));
    let room: usize = head.len() - 20;
    if len as usize > room {
        return Err("body length overruns file".to_owned());
    }
    if room != len as usize {
        return Err("trailing bytes".to_owned());
    }
    let body: &'a [u8] = vstd::slice::slice_subrange(head, 20, head.len());
    proof {
        assert(head@.subrange(20, head@.len() as int) =~= head@.skip(20));
    }
    Ok((lsn, body))
}

/// Reading a plain snapshot file gives back the log position and the body that
/// were written.
pub proof fn law_envelope_round_trip(magic: Seq<u8>, version: u32, lsn: u64, body: Seq<u8>)
    requires
        magic.len() == 4,
        body.len() <= u32::MAX,
    ensures
        opened(magic, version, envelope(magic, version, lsn, body)) == Ok::<
            (u64, Seq<u8>),
            Seq<char>,
        >((lsn, body)),
{
    let len = body.len() as u32;
    lemma_le32(len);
    let head = preamble(magic, version, lsn) + le32(len) + body;
    lemma_preamble(magic, version, lsn, le32(len) + body);
    assert(head =~= preamble(magic, version, lsn) + (le32(len) + body));
    lemma_sealed(head);
    assert(head.subrange(16, 20) =~= le32(len));
    assert(head.skip(20) =~= body);
}

/// Where the parts of a plain snapshot file are: four bytes of magic, the version, the log
/// position at 8, the length of the body at 16, the body at 20, and the checksum of all
/// that at the end.
pub proof fn law_envelope_layout(magic: Seq<u8>, version: u32, lsn: u64, body: Seq<u8>)
    requires
        magic.len() == 4,
    ensures
        ({
            let b = envelope(magic, version, lsn, body);
            let n = b.len() as int;
            &&& n == body.len() + 24
            &&& b.take(4) == magic
            &&& b.subrange(4, 8) == le32(version)
            &&& b.subrange(8, 16) == le64(lsn)
            &&& b.subrange(16, 20) == le32(body.len() as u32)
            &&& b.subrange(20, n - 4) == body
            &&& b.subrange(n - 4, n) == le32(checksum::crc32_of(b.take(n - 4)))
        }),
{
    lemma_le32(version);
    lemma_le64(lsn);
    lemma_le32(body.len() as u32);
    let head = preamble(magic, version, lsn) + le32(body.len() as u32) + body;
    lemma_le32(checksum::crc32_of(head));
    let b = envelope(magic, version, lsn, body);
    let n = b.len() as int;
    assert(b.take(n - 4) =~= head);
    assert(b.take(4) =~= magic);
    assert(b.subrange(4, 8) =~= le32(version));
    assert(b.subrange(8, 16) =~= le64(lsn));
    assert(b.subrange(16, 20) =~= le32(body.len() as u32));
    assert(b.subrange(20, n - 4) =~= body);
    assert(b.subrange(n - 4, n) =~= le32(checksum::crc32_of(head)));
}

/// A file that is read has its magic, its version, and a checksum that is right; what it
/// gives is the log position and the body at their places.
pub proof fn law_what_is_read_is_there(magic: Seq<u8>, version: u32, bytes: Seq<u8>)
    requires
        magic.len() == 4,
    ensures
        opened(magic, version, bytes) matches Ok((lsn, body)) ==> {
            let n = bytes.len() as int;
            &&& n == body.len() + 24
            &&& bytes.take(4) == magic
            &&& from_le32(bytes.subrange(4, 8)) == version
            &&& from_le64(bytes.subrange(8, 16)) == lsn
            &&& from_le32(bytes.subrange(16, 20)) == body.len()
            &&& bytes.subrange(20, n - 4) == body
            &&& from_le32(bytes.subrange(n - 4, n)) == checksum::crc32_of(bytes.take(n - 4))
        },
{
    if opened(magic, version, bytes) is Ok {
        let n = bytes.len() as int;
        let head = bytes.take(n - 4);
        assert(head.take(4) =~= bytes.take(4));
        assert(head.subrange(4, 8) =~= bytes.subrange(4, 8));
        assert(head.subrange(8, 16) =~= bytes.subrange(8, 16));
        assert(head.subrange(16, 20) =~= bytes.subrange(16, 20));
        assert(head.skip(20) =~= bytes.subrange(20, n - 4));
        assert(bytes.skip(n - 4) =~= bytes.subrange(n - 4, n));
    }
}

/// Integers are written with the least significant byte first, and read so.
pub proof fn law_least_byte_first(a: u32, b: u64, s: Seq<u8>)
    ensures
        le32(a) == vstd::bytes::spec_u32_to_le_bytes(a),
        le64(b) == vstd::bytes::spec_u64_to_le_bytes(b),
        from_le32(s) == vstd::bytes::spec_u32_from_le_bytes(s),
        from_le64(s) == vstd::bytes::spec_u64_from_le_bytes(s),
{
}

/// Why a file is refused: it is too short for its frame, its checksum is not that of what
/// stands before it, its magic or version is another, or its length field is not the length
/// of its body; the first of these that holds.
pub proof fn law_refused_files(magic: Seq<u8>, version: u32, bytes: Seq<u8>)
    requires
        magic.len() == 4,
    ensures
        ({
            let n = bytes.len() as int;
            let short = n < 24;
            let broken = checksum::crc32_of(bytes.subrange(0, n - 4)) != from_le32(
                bytes.subrange(n - 4, n),
            );
            let strange = bytes.subrange(0, 4) != magic;
            let given = from_le32(bytes.subrange(4, 8));
            let len = from_le32(bytes.subrange(16, 20));
            &&& short ==> opened(magic, version, bytes) == Err::<(u64, Seq<u8>), Seq<char>>(
                "truncated"@,
            )
            &&& !short && broken ==> opened(magic, version, bytes) == Err::<
                (u64, Seq<u8>),
                Seq<char>,
            >("crc mismatch"@)
            &&& !short && !broken && strange ==> opened(magic, version, bytes) == Err::<
                (u64, Seq<u8>),
                Seq<char>,
            >("bad magic"@)
            &&& !short && !broken && !strange && given != version ==> opened(
                magic,
                version,
                bytes,
            ) == Err::<(u64, Seq<u8>), Seq<char>>("unsupported version "@ + text::decimal(given as nat))
            &&& !short && !broken && !strange && given == version ==> {
                &&& len > n - 24 ==> opened(magic, version, bytes) == Err::<
                    (u64, Seq<u8>),
                    Seq<char>,
                >("body length overruns file"@)
                &&& len < n - 24 ==> opened(magic, version, bytes) == Err::<
                    (u64, Seq<u8>),
                    Seq<char>,
                >("trailing bytes"@)
                &&& len == n - 24 ==> opened(magic, version, bytes) is Ok
            }
        }),
{
    let n = bytes.len() as int;
    if n >= 24 {
        let head = bytes.take(n - 4);
        assert(head =~= bytes.subrange(0, n - 4));
        assert(bytes.skip(n - 4) =~= bytes.subrange(n - 4, n));
        assert(head.take(4) =~= bytes.subrange(0, 4));
        assert(head.subrange(4, 8) =~= bytes.subrange(4, 8));
        assert(head.subrange(16, 20) =~= bytes.subrange(16, 20));
    }
}

} // verus!
