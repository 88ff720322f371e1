//! The chunk layout of a Standard MIDI File, as far as it decides whether a
//! header's timing word can be read.
//!
//! A timing word whose high byte is `0x80` asks for `-128` SMPTE frames per
//! second, which the parser cannot negate; such a file is refused before it
//! is parsed. This module walks the chunks the way the parser does (a file
//! starts with `MThd`, or is a RIFF `RMID` file whose `data` chunk holds the
//! MIDI chunks) and finds every header it would read.

use vstd::prelude::*;

verus! {

/// The four bytes at `p` are `a b c d`.
pub open spec fn id_is(s: Seq<u8>, p: int, a: u8, b: u8, c: u8, d: u8) -> bool {
    s[p] == a && s[p + 1] == b && s[p + 2] == c && s[p + 3] == d
}

/// The chunk id `MThd`.
pub open spec fn is_mthd(s: Seq<u8>, p: int) -> bool {
    id_is(s, p, 0x4d, 0x54, 0x68, 0x64)
}

/// The chunk id `MTrk`.
pub open spec fn is_mtrk(s: Seq<u8>, p: int) -> bool {
    id_is(s, p, 0x4d, 0x54, 0x72, 0x6b)
}

/// The big-endian 32-bit length at `p`.
pub open spec fn be32(s: Seq<u8>, p: int) -> int {
    s[p] * 0x100_0000 + s[p + 1] * 0x1_0000 + s[p + 2] * 0x100 + s[p + 3]
}

/// The little-endian 32-bit length at `p`.
pub open spec fn le32(s: Seq<u8>, p: int) -> int {
    s[p] + s[p + 1] * 0x100 + s[p + 2] * 0x1_0000 + s[p + 3] * 0x100_0000
}

/// Where a chunk whose data starts at `q` and declares `len` bytes ends: a
/// chunk that runs past the end of `s` takes the rest of it.
pub open spec fn chunk_end(s: Seq<u8>, q: int, len: int) -> int {
    if q + len <= s.len() {
        q + len
    } else {
        s.len() as int
    }
}

/// Walking the chunks of `raw` from `p` on, the parser reaches a header
/// chunk whose timing word has the high byte `0x80`. The walk stops at the
/// end, at a chunk it cannot read (fewer than eight bytes left), at a header
/// it rejects (shorter than six bytes, or of a format above 2), and, while
/// no header has been read yet (`first`), at a track chunk; other chunks are
/// skipped.
pub open spec fn walk_hits_bad_timing(raw: Seq<u8>, p: int, first: bool) -> bool
    decreases raw.len() - p,
{
    if p < 0 || raw.len() - p < 8 {
        false
    } else {
        let end = chunk_end(raw, p + 8, be32(raw, p + 4));
        if is_mthd(raw, p) {
            if end - (p + 8) < 6 {
                false
            } else if raw[p + 8] * 0x100 + raw[p + 9] > 2 {
                false
            } else if raw[p + 12] == 0x80 {
                true
            } else {
                walk_hits_bad_timing(raw, end, false)
            }
        } else if is_mtrk(raw, p) && first {
            false
        } else {
            walk_hits_bad_timing(raw, end, first)
        }
    }
}

/// The contents of the first `data` chunk of a RIFF body from `p` on; an
/// odd-sized chunk is followed by a pad byte.
pub open spec fn riff_find_data(s: Seq<u8>, p: int) -> Option<Seq<u8>>
    decreases s.len() - p,
{
    if p < 0 || s.len() - p < 8 {
        None
    } else {
        let len = le32(s, p + 4);
        let dend = chunk_end(s, p + 8, len);
        if id_is(s, p, 0x64, 0x61, 0x74, 0x61) {
            Some(s.subrange(p + 8, dend))
        } else if len % 2 == 1 && dend + 1 <= s.len() {
            riff_find_data(s, dend + 1)
        } else {
            riff_find_data(s, dend)
        }
    }
}

/// The MIDI chunks inside a RIFF file: the `data` chunk of its `RMID` body,
/// or `None` when there is none.
pub open spec fn riff_data(bytes: Seq<u8>) -> Option<Seq<u8>> {
    if bytes.len() < 8 {
        None
    } else {
        let body = bytes.subrange(8, chunk_end(bytes, 8, le32(bytes, 4)));
        if body.len() < 4 || !id_is(body, 0, 0x52, 0x4d, 0x49, 0x44) {
            None
        } else {
            riff_find_data(body, 4)
        }
    }
}

/// Parsing `bytes` reaches a header whose timing word has the high byte
/// `0x80`.
pub open spec fn timing_overflows(bytes: Seq<u8>) -> bool {
    if bytes.len() >= 4 && id_is(bytes, 0, 0x52, 0x49, 0x46, 0x46) {
        match riff_data(bytes) {
            Some(raw) => walk_hits_bad_timing(raw, 0, true),
            None => false,
        }
    } else if bytes.len() >= 4 && is_mthd(bytes, 0) {
        walk_hits_bad_timing(bytes, 0, true)
    } else {
        false
    }
}

fn id_at(s: &[u8], p: usize, a: u8, b: u8, c: u8, d: u8) -> (r: bool)
    requires
        p + 4 <= s@.len(),
    ensures
        r == id_is(s@, p as int, a, b, c, d),
{
    s[p] == a && s[p + 1] == b && s[p + 2] == c && s[p + 3] == d
}

fn copy_range(s: &[u8], lo: usize, hi: usize) -> (r: Vec<u8>)
    requires
        lo <= hi <= s@.len(),
    ensures
        r@ == s@.subrange(lo as int, hi as int),
{
    let mut r: Vec<u8> = Vec::new();
    let mut i = lo;
    while i < hi
        invariant
            lo <= i <= hi <= s@.len(),
            r@ == s@.subrange(lo as int, i as int),
        decreases hi - i,
    {
        assert(s@.subrange(lo as int, i + 1) =~= s@.subrange(lo as int, i as int).push(s@[i as int]));
        r.push(s[i]);
        i = i + 1;
    }
    r
}

/// Where a chunk whose data starts at `q` and declares `len` bytes ends.
fn end_of_chunk(n: usize, q: usize, len: u64) -> (e: usize)
    requires
        q <= n,
    ensures
        e as int == if q + len <= n {
            q + len
        } else {
            n as int
        },
{
    if len <= (n - q) as u64 {
        q + len as usize
    } else {
        n
    }
}

fn walk_chunks(raw: &[u8]) -> (r: bool)
    ensures
        r == walk_hits_bad_timing(raw@, 0, true),
{
    let n = raw.len();
    let mut p: usize = 0;
    let mut first = true;
    while p <= n && n - p >= 8
        invariant
            n == raw@.len(),
            p <= n,
            walk_hits_bad_timing(raw@, 0, true) == walk_hits_bad_timing(raw@, p as int, first),
        decreases n - p,
    {
        let len: u64 = (raw[p + 4] as u64) * 0x100_0000 + (raw[p + 5] as u64) * 0x1_0000 + (raw[p + 6] as u64)
            * 0x100 + (raw[p + 7] as u64);
        let end = end_of_chunk(n, p + 8, len);
        assert(end as int == chunk_end(raw@, p + 8, be32(raw@, p + 4)));
        if id_at(raw, p, 0x4d, 0x54, 0x68, 0x64) {
            if end - (p + 8) < 6 {
                return false;
            }
            if (raw[p + 8] as u64) * 0x100 + (raw[p + 9] as u64) > 2 {
                return false;
            }
            if raw[p + 12] == 0x80 {
                return true;
            }
            first = false;
        } else if id_at(raw, p, 0x4d, 0x54, 0x72, 0x6b) && first {
            return false;
        }
        p = end;
    }
    false
}

fn find_riff_data(body: &[u8]) -> (r: Option<Vec<u8>>)
    ensures
        match riff_find_data(body@, 4) {
            Some(d) => r matches Some(v) && v@ == d,
            None => r is None,
        },
{
    let m = body.len();
    let mut p: usize = 4;
    while p <= m && m - p >= 8
        invariant
            m == body@.len(),
            riff_find_data(body@, 4) == riff_find_data(body@, p as int),
        decreases m - p,
    {
        let len: u64 = (body[p + 4] as u64) + (body[p + 5] as u64) * 0x100 + (body[p + 6] as u64) * 0x1_0000
            + (body[p + 7] as u64) * 0x100_0000;
        let dend = end_of_chunk(m, p + 8, len);
        assert(dend as int == chunk_end(body@, p + 8, le32(body@, p + 4)));
        if id_at(body, p, 0x64, 0x61, 0x74, 0x61) {
            return Some(copy_range(body, p + 8, dend));
        }
        if len % 2 == 1 && dend < m {
            p = dend + 1;
        } else {
            p = dend;
        }
    }
    None
}

/// Whether parsing `bytes` would reach a header chunk whose timing word has
/// the high byte `0x80`.
pub fn header_timing_overflows(bytes: &[u8]) -> (r: bool)
    ensures
        r == timing_overflows(bytes@),
{
    let n = bytes.len();
    if n >= 4 && id_at(bytes, 0, 0x52, 0x49, 0x46, 0x46) {
        if n < 8 {
            return false;
        }
        let len: u64 = (bytes[4] as u64) + (bytes[5] as u64) * 0x100 + (bytes[6] as u64) * 0x1_0000
            + (bytes[7] as u64) * 0x100_0000;
        let bend = end_of_chunk(n, 8, len);
        let body = copy_range(bytes, 8, bend);
        if body.len() < 4 || !id_at(body.as_slice(), 0, 0x52, 0x4d, 0x49, 0x44) {
            return false;
        }
        match find_riff_data(body.as_slice()) {
            Some(raw) => walk_chunks(raw.as_slice()),
            None => false,
        }
    } else if n >= 4 && id_at(bytes, 0, 0x4d, 0x54, 0x68, 0x64) {
        walk_chunks(bytes)
    } else {
        false
    }
}

} // verus!
