//! The binary snapshot format: little-endian throughout, every sequence
//! length-prefixed with a 64-bit count.  A snapshot opens with a 4-byte
//! magic and a two-part version, then the hot slot, then the levels.

use vstd::prelude::*;

use crate::civmap::CivMap;
use crate::civset::CivSet;

verus! {

/// What can go wrong reading or writing a map snapshot.  The write side
/// only fails in the caller's sink; the kinds for it are here so that a
/// writer can pass them along.
#[derive(Debug, PartialEq, Eq, Structural)]
pub enum CivMapIoError {
    WriteHeader,
    WriteSlot,
    WriteData,
    ReadHeader,
    ReadSlot,
    ReadData,
    InvalidHeader,
    InvalidVersion(u32, u32),
    SizeMismatch(u32, u64, u64),
}

/// What can go wrong reading or writing a set snapshot.
#[derive(Debug, PartialEq, Eq, Structural)]
pub enum CivSetIoError {
    WriteHeader,
    WriteSlot,
    WriteData,
    ReadHeader,
    ReadSlot,
    ReadData,
    InvalidHeader,
    InvalidVersion(u32, u32),
    SizeMismatch(u32, u64, u64),
}

/// Little-endian bytes of a 32-bit value.
pub open spec fn u32_le(x: u32) -> Seq<u8> {
    seq![
        (x & 0xff) as u8,
        ((x >> 8) & 0xff) as u8,
        ((x >> 16) & 0xff) as u8,
        ((x >> 24) & 0xff) as u8,
    ]
}

/// Little-endian bytes of a 64-bit value.
pub open spec fn u64_le(x: u64) -> Seq<u8> {
    seq![
        (x & 0xff) as u8,
        ((x >> 8) & 0xff) as u8,
        ((x >> 16) & 0xff) as u8,
        ((x >> 24) & 0xff) as u8,
        ((x >> 32) & 0xff) as u8,
        ((x >> 40) & 0xff) as u8,
        ((x >> 48) & 0xff) as u8,
        ((x >> 56) & 0xff) as u8,
    ]
}

/// The words of a 64-bit list, one after the other.
pub open spec fn u64s_le(s: Seq<u64>) -> Seq<u8>
    decreases s.len(),
{
    if s.len() == 0 {
        Seq::empty()
    } else {
        u64s_le(s.drop_last()) + u64_le(s.last())
    }
}

/// The pairs of an entry list, key before value.
pub open spec fn pairs_le_bytes(s: Seq<(u64, u64)>) -> Seq<u8>
    decreases s.len(),
{
    if s.len() == 0 {
        Seq::empty()
    } else {
        pairs_le_bytes(s.drop_last()) + u64_le(s.last().0) + u64_le(s.last().1)
    }
}

proof fn lemma_u64s_le_len(s: Seq<u64>)
    ensures
        u64s_le(s).len() == 8 * s.len(),
    decreases s.len(),
{
    if s.len() > 0 {
        lemma_u64s_le_len(s.drop_last());
    }
}

proof fn lemma_pairs_le_bytes_len(s: Seq<(u64, u64)>)
    ensures
        pairs_le_bytes(s).len() == 16 * s.len(),
    decreases s.len(),
{
    if s.len() > 0 {
        lemma_pairs_le_bytes_len(s.drop_last());
    }
}

/// Append the little-endian bytes of `x`.
pub fn put_u32(out: &mut Vec<u8>, x: u32)
    ensures
        final(out)@ == old(out)@ + u32_le(x),
{
    out.push((x & 0xff) as u8);
    out.push(((x >> 8) & 0xff) as u8);
    out.push(((x >> 16) & 0xff) as u8);
    out.push(((x >> 24) & 0xff) as u8);
    proof {
        assert(final(out)@ =~= old(out)@ + u32_le(x));
    }
}

/// Append the little-endian bytes of `x`.
pub fn put_u64(out: &mut Vec<u8>, x: u64)
    ensures
        final(out)@ == old(out)@ + u64_le(x),
{
    out.push((x & 0xff) as u8);
    out.push(((x >> 8) & 0xff) as u8);
    out.push(((x >> 16) & 0xff) as u8);
    out.push(((x >> 24) & 0xff) as u8);
    out.push(((x >> 32) & 0xff) as u8);
    out.push(((x >> 40) & 0xff) as u8);
    out.push(((x >> 48) & 0xff) as u8);
    out.push(((x >> 56) & 0xff) as u8);
    proof {
        assert(final(out)@ =~= old(out)@ + u64_le(x));
    }
}

/// Append every word of `s`.
pub fn put_u64s(out: &mut Vec<u8>, s: &Vec<u64>)
    ensures
        final(out)@ == old(out)@ + u64s_le(s@),
{
    let n = s.len();
    let mut i: usize = 0;
    proof {
        assert(out@ =~= old(out)@ + u64s_le(s@.take(0)));
    }
    while i < n
        invariant
            n == s@.len(),
            i <= n,
            out@ == old(out)@ + u64s_le(s@.take(i as int)),
        decreases n - i,
    {
        proof {
            lemma_u64s_le_len(s@.take(i as int));
        }
        let w = s[i];
        put_u64(out, w);
        proof {
            assert(s@.take(i as int + 1).drop_last() =~= s@.take(i as int));
            assert(s@.take(i as int + 1).last() == s@[i as int]);
            assert(out@ =~= old(out)@ + u64s_le(s@.take(i as int + 1)));
        }
        i += 1;
    }
    proof {
        assert(s@.take(n as int) =~= s@);
    }
}

/// Append every entry of `s`, keys before values.
pub fn put_pairs(out: &mut Vec<u8>, s: &Vec<(u64, u64)>)
    ensures
        final(out)@ == old(out)@ + pairs_le_bytes(s@),
{
    let n = s.len();
    let mut i: usize = 0;
    proof {
        assert(out@ =~= old(out)@ + pairs_le_bytes(s@.take(0)));
    }
    while i < n
        invariant
            n == s@.len(),
            i <= n,
            out@ == old(out)@ + pairs_le_bytes(s@.take(i as int)),
        decreases n - i,
    {
        proof {
            lemma_pairs_le_bytes_len(s@.take(i as int));
        }
        let p = s[i];
        put_u64(out, p.0);
        put_u64(out, p.1);
        proof {
            assert(s@.take(i as int + 1).drop_last() =~= s@.take(i as int));
            assert(s@.take(i as int + 1).last() == s@[i as int]);
            assert(out@ =~= old(out)@ + pairs_le_bytes(s@.take(i as int + 1)));
        }
        i += 1;
    }
    proof {
        assert(s@.take(n as int) =~= s@);
    }
}

/// Read a 32-bit little-endian value at `pos`.
pub fn get_u32(b: &Vec<u8>, pos: usize) -> (r: Option<(u32, usize)>)
    requires
        pos <= b@.len(),
    ensures
        match r {
            Some(vp) => {
                &&& pos + 4 <= b@.len()
                &&& vp.1 == pos + 4
                &&& u32_le(vp.0) == b@.subrange(pos as int, pos as int + 4)
            },
            None => b@.len() < pos + 4,
        },
{
    if b.len() - pos < 4 {
        return None;
    }
    let b0 = b[pos];
    let b1 = b[pos + 1];
    let b2 = b[pos + 2];
    let b3 = b[pos + 3];
    let v = (b0 as u32) | ((b1 as u32) << 8) | ((b2 as u32) << 16) | ((b3 as u32) << 24);
    proof {
        lemma_u32_bytes(b0, b1, b2, b3);
        assert(u32_le(v) =~= b@.subrange(pos as int, pos as int + 4));
    }
    Some((v, pos + 4))
}

proof fn lemma_u32_bytes(b0: u8, b1: u8, b2: u8, b3: u8)
    by (bit_vector)
    ensures
        ({
            let v = (b0 as u32) | ((b1 as u32) << 8) | ((b2 as u32) << 16) | ((b3 as u32) << 24);
            (v & 0xff) as u8 == b0 && ((v >> 8) & 0xff) as u8 == b1 && ((v >> 16) & 0xff) as u8
                == b2 && ((v >> 24) & 0xff) as u8 == b3
        }),
{
}

/// Read a 64-bit little-endian value at `pos`.
pub fn get_u64(b: &Vec<u8>, pos: usize) -> (r: Option<(u64, usize)>)
    requires
        pos <= b@.len(),
    ensures
        match r {
            Some(vp) => {
                &&& pos + 8 <= b@.len()
                &&& vp.1 == pos + 8
                &&& u64_le(vp.0) == b@.subrange(pos as int, pos as int + 8)
            },
            None => b@.len() < pos + 8,
        },
{
    if b.len() - pos < 8 {
        return None;
    }
    let b0 = b[pos];
    let b1 = b[pos + 1];
    let b2 = b[pos + 2];
    let b3 = b[pos + 3];
    let b4 = b[pos + 4];
    let b5 = b[pos + 5];
    let b6 = b[pos + 6];
    let b7 = b[pos + 7];
    let v = (b0 as u64) | ((b1 as u64) << 8) | ((b2 as u64) << 16) | ((b3 as u64) << 24) | ((
    b4 as u64) << 32) | ((b5 as u64) << 40) | ((b6 as u64) << 48) | ((b7 as u64) << 56);
    proof {
        lemma_u64_bytes(b0, b1, b2, b3, b4, b5, b6, b7);
        assert(u64_le(v) =~= b@.subrange(pos as int, pos as int + 8));
    }
    Some((v, pos + 8))
}

proof fn lemma_u64_bytes(b0: u8, b1: u8, b2: u8, b3: u8, b4: u8, b5: u8, b6: u8, b7: u8)
    by (bit_vector)
    ensures
        ({
            let v = (b0 as u64) | ((b1 as u64) << 8) | ((b2 as u64) << 16) | ((b3 as u64) << 24) | (
            (b4 as u64) << 32) | ((b5 as u64) << 40) | ((b6 as u64) << 48) | ((b7 as u64) << 56);
            (v & 0xff) as u8 == b0 && ((v >> 8) & 0xff) as u8 == b1 && ((v >> 16) & 0xff) as u8
                == b2 && ((v >> 24) & 0xff) as u8 == b3 && ((v >> 32) & 0xff) as u8 == b4 && ((v
                >> 40) & 0xff) as u8 == b5 && ((v >> 48) & 0xff) as u8 == b6 && ((v >> 56)
                & 0xff) as u8 == b7
        }),
{
}


/// The 32-bit value whose little-endian bytes are `s[0..4]`.
pub open spec fn u32_of_le(s: Seq<u8>) -> u32 {
    ((s[0] as u32) | ((s[1] as u32) << 8) | ((s[2] as u32) << 16) | ((s[3] as u32) << 24)) as u32
}

/// The four magic bytes that open a map snapshot.
pub open spec fn magic_map() -> Seq<u8> {
    seq![0x43u8, 0x49u8, 0x56u8, 0x4Du8]
}

/// The four magic bytes that open a set snapshot.
pub open spec fn magic_set() -> Seq<u8> {
    seq![0x43u8, 0x49u8, 0x56u8, 0x53u8]
}

/// Bytes that some well-formed engine would write as its map snapshot.
pub open spec fn valid_map_snapshot(bytes: Seq<u8>) -> bool {
    exists|e: CivMap| e.wf() && #[trigger] e.spec_snapshot() == bytes
}

/// Bytes that continue, from `pos`, with one well-formed level section.
pub(crate) open spec fn valid_level_section(b: Seq<u8>, pos: int) -> bool {
    exists|lvl: crate::level::MapMultiSlot, rest: Seq<u8>|
        lvl.wf() && #[trigger] (enc_level(lvl) + rest) == b.subrange(pos, b.len() as int)
}

/// Bytes that hold, from `start` to the end, the level sections of a
/// well-formed cascade over the given hot slot.
pub(crate) open spec fn valid_levels_section(
    b: Seq<u8>,
    start: int,
    slot: &crate::hotslot::Slot,
) -> bool {
    exists|d: Seq<crate::level::MapMultiSlot>|
        {
            &&& crate::tiers::all_wf(d)
            &&& crate::tiers::caps_law(d, slot.spec_max())
            &&& crate::tiers::levels_disjoint(d)
            &&& forall|j: int|
                0 <= j < d.len() ==> slot.as_map().dom().disjoint(
                    (#[trigger] d[j]).as_map().dom(),
                )
            &&& crate::tiers::cap_sum(d, 0, d.len() as int) <= usize::MAX as int / 2
            &&& u64_le(d.len() as u64) + #[trigger] enc_levels(d) == b.subrange(
                start,
                b.len() as int,
            )
        }
}

/// Bytes of the hot slot section: capacity, key and value widths, then
/// the length-prefixed entries.
pub(crate) open spec fn enc_slot(s: &crate::hotslot::Slot) -> Seq<u8> {
    u64_le(s.spec_max() as u64) + (u64_le(8) + (u64_le(8) + (u64_le(s@.len() as u64)
        + pairs_le_bytes(s@))))
}

/// Bytes of one level: capacity, key and value widths, then the mask
/// words, the keys and the values, each length-prefixed.
pub(crate) open spec fn enc_level(l: crate::level::MapMultiSlot) -> Seq<u8> {
    u64_le(l.capacity as u64) + (u64_le(8) + (u64_le(8) + (u64_le(l.flags.words@.len() as u64)
        + (u64s_le(l.flags.words@) + (u64_le(l.keys@.len() as u64) + (u64s_le(l.keys@) + (u64_le(
        l.values@.len() as u64,
    ) + u64s_le(l.values@))))))))
}

pub(crate) open spec fn enc_levels(s: Seq<crate::level::MapMultiSlot>) -> Seq<u8>
    decreases s.len(),
{
    if s.len() == 0 {
        Seq::empty()
    } else {
        enc_levels(s.drop_last()) + enc_level(s.last())
    }
}

impl CivMap {
    /// The exact snapshot bytes of this engine.
    pub closed spec fn spec_snapshot(&self) -> Seq<u8> {
        magic_map() + (u32_le(0) + (u32_le(1) + (enc_slot(&self.slot) + (u64_le(
            self.data@.len() as u64,
        ) + enc_levels(self.data@)))))
    }

    /// Serialise the engine into its binary snapshot.
    #[verifier::rlimit(100)]
    #[verifier::spinoff_prover]
    pub fn to_bytes(&self) -> (r: Vec<u8>)
        requires
            self.wf(),
        ensures
            r@ == self.spec_snapshot(),
    {
        let mut out: Vec<u8> = Vec::new();
        out.push(0x43);
        out.push(0x49);
        out.push(0x56);
        out.push(0x4D);
        proof {
            assert(out@ =~= magic_map());
        }
        put_u32(&mut out, 0);
        put_u32(&mut out, 1);
        // hot slot section
        put_u64(&mut out, self.slot.max_size() as u64);
        put_u64(&mut out, 8);
        put_u64(&mut out, 8);
        let entries = self.slot.entries();
        put_u64(&mut out, entries.len() as u64);
        put_pairs(&mut out, entries);
        proof {
            assert(out@ =~= magic_map() + u32_le(0) + u32_le(1) + enc_slot(&self.slot));
        }
        // level sections
        let elen = self.data.len();
        put_u64(&mut out, elen as u64);
        let ghost head = out@;
        let mut i: usize = 0;
        proof {
            assert(out@ =~= head + enc_levels(self.data@.take(0)));
        }
        while i < elen
            invariant
                i <= elen,
                elen == self.data@.len(),
                out@ == head + enc_levels(self.data@.take(i as int)),
            decreases elen - i,
        {
            let ghost pre = out@;
            let lvl = &self.data[i];
            put_u64(&mut out, lvl.capacity as u64);
            put_u64(&mut out, 8);
            put_u64(&mut out, 8);
            put_u64(&mut out, lvl.flags.words.len() as u64);
            put_u64s(&mut out, &lvl.flags.words);
            put_u64(&mut out, lvl.keys.len() as u64);
            put_u64s(&mut out, &lvl.keys);
            put_u64(&mut out, lvl.values.len() as u64);
            put_u64s(&mut out, &lvl.values);
            proof {
                assert(out@ =~= pre + enc_level(self.data@[i as int]));
                assert(self.data@.take(i as int + 1).drop_last() =~= self.data@.take(i as int));
                assert(self.data@.take(i as int + 1).last() == self.data@[i as int]);
                assert(out@ =~= head + enc_levels(self.data@.take(i as int + 1)));
            }
            i += 1;
        }
        proof {
            assert(self.data@.take(elen as int) =~= self.data@);
            assert(out@ =~= self.spec_snapshot());
        }
        out
    }
}


/// Read `count` 64-bit words starting at `pos`.
pub fn get_u64s(b: &Vec<u8>, pos: usize, count: usize) -> (r: Option<(Vec<u64>, usize)>)
    requires
        pos <= b@.len(),
    ensures
        match r {
            Some(vp) => {
                &&& vp.0@.len() == count
                &&& pos + 8 * count <= b@.len()
                &&& vp.1 == pos + 8 * count
                &&& u64s_le(vp.0@) == b@.subrange(pos as int, vp.1 as int)
            },
            None => b@.len() < pos + 8 * count,
        },
{
    if (b.len() - pos) / 8 < count {
        return None;
    }
    let mut v: Vec<u64> = Vec::new();
    let mut p = pos;
    let mut i: usize = 0;
    proof {
        assert(u64s_le(v@) =~= b@.subrange(pos as int, pos as int));
    }
    while i < count
        invariant
            i <= count,
            pos + 8 * count <= b@.len(),
            p == pos + 8 * i,
            v@.len() == i,
            u64s_le(v@) == b@.subrange(pos as int, p as int),
        decreases count - i,
    {
        let got = get_u64(b, p);
        proof {
            lemma_u64s_le_len(v@);
        }
        match got {
            Some(wp) => {
                let ghost vpre = v@;
                v.push(wp.0);
                p = wp.1;
                proof {
                    assert(v@.drop_last() =~= vpre);
                    assert(u64s_le(v@) =~= b@.subrange(pos as int, p as int));
                }
            },
            None => {
                proof {
                    assert(false);
                }
            },
        }
        i += 1;
    }
    Some((v, p))
}

/// Read `count` key/value pairs starting at `pos`.
pub fn get_pairs(b: &Vec<u8>, pos: usize, count: usize) -> (r: Option<(Vec<(u64, u64)>, usize)>)
    requires
        pos <= b@.len(),
    ensures
        match r {
            Some(vp) => {
                &&& vp.0@.len() == count
                &&& pos + 16 * count <= b@.len()
                &&& vp.1 == pos + 16 * count
                &&& pairs_le_bytes(vp.0@) == b@.subrange(pos as int, vp.1 as int)
            },
            None => b@.len() < pos + 16 * count,
        },
{
    if (b.len() - pos) / 16 < count {
        return None;
    }
    let mut v: Vec<(u64, u64)> = Vec::new();
    let mut p = pos;
    let mut i: usize = 0;
    proof {
        assert(pairs_le_bytes(v@) =~= b@.subrange(pos as int, pos as int));
    }
    while i < count
        invariant
            i <= count,
            pos + 16 * count <= b@.len(),
            p == pos + 16 * i,
            v@.len() == i,
            pairs_le_bytes(v@) == b@.subrange(pos as int, p as int),
        decreases count - i,
    {
        let gk = get_u64(b, p);
        proof {
            lemma_pairs_le_bytes_len(v@);
        }
        match gk {
            Some(kp) => {
                let gv = get_u64(b, kp.1);
                match gv {
                    Some(vv) => {
                        let ghost vpre = v@;
                        v.push((kp.0, vv.0));
                        p = vv.1;
                        proof {
                            assert(v@.drop_last() =~= vpre);
                            assert(b@.subrange(pos as int, p as int) =~= b@.subrange(
                                pos as int,
                                kp.1 - 8,
                            ) + b@.subrange(kp.1 - 8, kp.1 as int) + b@.subrange(
                                kp.1 as int,
                                p as int,
                            ));
                            assert(pairs_le_bytes(v@) =~= b@.subrange(pos as int, p as int));
                        }
                    },
                    None => {
                        proof {
                            assert(false);
                        }
                    },
                }
            },
            None => {
                proof {
                    assert(false);
                }
            },
        }
        i += 1;
    }
    Some((v, p))
}

/// Parse one level section; the level comes back well formed and its
/// re-encoding is exactly the bytes consumed.  Where the bytes do start
/// with a well-formed level section, parsing cannot fail.
#[verifier::rlimit(100)]
#[verifier::spinoff_prover]
#[verifier::loop_isolation(false)]
fn parse_level(b: &Vec<u8>, pos: usize) -> (r: Result<(crate::level::MapMultiSlot, usize), CivMapIoError>)
    requires
        pos <= b@.len(),
    ensures
        match r {
            Ok(lp) => {
                &&& lp.0.wf()
                &&& pos <= lp.1 <= b@.len()
                &&& enc_level(lp.0) == b@.subrange(pos as int, lp.1 as int)
            },
            Err(e) => e is ReadData || (e matches CivMapIoError::SizeMismatch(f, ex, g) && (f == 2
                || f == 3) && ex == 8 && g != 8),
        },
        valid_level_section(b@, pos as int) ==> r is Ok,
{
    let ghost vh = valid_level_section(b@, pos as int);
    let ghost (hl, hrest): (crate::level::MapMultiSlot, Seq<u8>) = if vh {
        choose|lvl: crate::level::MapMultiSlot, rest: Seq<u8>|
            lvl.wf() && #[trigger] (enc_level(lvl) + rest) == b@.subrange(
                pos as int,
                b@.len() as int,
            )
    } else {
        (vstd::pervasive::arbitrary(), vstd::pervasive::arbitrary())
    };
    let ghost hwl = hl.flags.words@.len() as int;
    let ghost hkl = hl.keys@.len() as int;
    proof {
        if vh {
            lemma_enc_level_shape(hl, hrest, b@, pos as int);
            hl.flags.lemma_word_len();
            vstd::std_specs::vec::axiom_spec_len(&hl.flags.words);
            vstd::std_specs::vec::axiom_spec_len(&hl.keys);
        }
    }
    let c0 = match get_u64(b, pos) {
        Some(x) => x,
        None => {
            proof {
                if vh {
                    assert(false);
                }
            }
            return Err(CivMapIoError::ReadData);
        },
    };
    proof {
        if vh {
            lemma_u64_le_inj(c0.0, hl.capacity as u64);
        }
    }
    if c0.0 > (usize::MAX / 2) as u64 {
        proof {
            if vh {
                assert(false);
            }
        }
        return Err(CivMapIoError::ReadData);
    }
    let cap = c0.0 as usize;
    let ks = match get_u64(b, c0.1) {
        Some(x) => x,
        None => {
            proof {
                if vh {
                    assert(false);
                }
            }
            return Err(CivMapIoError::ReadData);
        },
    };
    if ks.0 != 8 {
        proof {
            if vh {
                lemma_u64_le_inj(ks.0, 8);
                assert(false);
            }
        }
        return Err(CivMapIoError::SizeMismatch(2, 8, ks.0));
    }
    let vs = match get_u64(b, ks.1) {
        Some(x) => x,
        None => {
            proof {
                if vh {
                    assert(false);
                }
            }
            return Err(CivMapIoError::ReadData);
        },
    };
    if vs.0 != 8 {
        proof {
            if vh {
                lemma_u64_le_inj(vs.0, 8);
                assert(false);
            }
        }
        return Err(CivMapIoError::SizeMismatch(3, 8, vs.0));
    }
    let wc = match get_u64(b, vs.1) {
        Some(x) => x,
        None => {
            proof {
                if vh {
                    assert(false);
                }
            }
            return Err(CivMapIoError::ReadData);
        },
    };
    proof {
        if vh {
            lemma_u64_le_inj(wc.0, hwl as u64);
            assert(hwl == hl.capacity as int / 64 + 1);
        }
    }
    if wc.0 != (cap / 64 + 1) as u64 {
        proof {
            if vh {
                assert(false);
            }
        }
        return Err(CivMapIoError::ReadData);
    }
    let wcount = cap / 64 + 1;
    let words = match get_u64s(b, wc.1, wcount) {
        Some(x) => x,
        None => {
            proof {
                if vh {
                    assert(false);
                }
            }
            return Err(CivMapIoError::ReadData);
        },
    };
    let kl = match get_u64(b, words.1) {
        Some(x) => x,
        None => {
            proof {
                if vh {
                    assert(false);
                }
            }
            return Err(CivMapIoError::ReadData);
        },
    };
    proof {
        if vh {
            lemma_u64_le_inj(kl.0, hkl as u64);
        }
    }
    if kl.0 > cap as u64 {
        proof {
            if vh {
                assert(false);
            }
        }
        return Err(CivMapIoError::ReadData);
    }
    let klen = kl.0 as usize;
    let keys = match get_u64s(b, kl.1, klen) {
        Some(x) => x,
        None => {
            proof {
                if vh {
                    assert(false);
                }
            }
            return Err(CivMapIoError::ReadData);
        },
    };
    let vl = match get_u64(b, keys.1) {
        Some(x) => x,
        None => {
            proof {
                if vh {
                    assert(false);
                }
            }
            return Err(CivMapIoError::ReadData);
        },
    };
    proof {
        if vh {
            vstd::std_specs::vec::axiom_spec_len(&hl.values);
            lemma_u64_le_inj(vl.0, hl.values@.len() as u64);
        }
    }
    if vl.0 != klen as u64 {
        proof {
            if vh {
                assert(false);
            }
        }
        return Err(CivMapIoError::ReadData);
    }
    let values = match get_u64s(b, vl.1, klen) {
        Some(x) => x,
        None => {
            proof {
                if vh {
                    assert(false);
                }
            }
            return Err(CivMapIoError::ReadData);
        },
    };
    let endpos = values.1;
    // the keys must ascend strictly
    let keyv = keys.0;
    proof {
        if vh {
            lemma_u64s_le_inj(keyv@, hl.keys@);
        }
    }
    let mut i: usize = 1;
    while i < klen
        invariant
            klen == keyv@.len(),
            1 <= i || klen == 0,
            i <= klen || klen == 0,
            forall|x: int, y: int| 0 <= x < y < i ==> keyv@[x] < keyv@[y],
        decreases klen - i,
    {
        if keyv[i - 1] >= keyv[i] {
            proof {
                if vh {
                    assert(hl.keys@[i - 1] < hl.keys@[i as int]);
                    assert(false);
                }
            }
            return Err(CivMapIoError::ReadData);
        }
        proof {
            assert forall|x: int, y: int| 0 <= x < y < i + 1 implies keyv@[x] < keyv@[y] by {
                if y == i {
                    if x < i - 1 {
                        assert(keyv@[x] < keyv@[i - 1]);
                    }
                }
            }
        }
        i += 1;
    }
    // no live bit may point past the keys
    proof {
        assert(64 * wcount <= cap + 64);
    }
    let flags = crate::flags::Flags::from_words(words.0);
    proof {
        if vh {
            lemma_u64s_le_inj(flags.words@, hl.flags.words@);
            flags.lemma_same_words(&hl.flags);
        }
    }
    let nbits = 64 * wcount;
    let mut j: usize = klen;
    while j < nbits
        invariant
            flags.wf(),
            flags@.len() == nbits,
            j <= nbits,
            klen <= j || klen >= nbits,
            forall|x: int| klen <= x < j ==> !flags@[x],
        decreases nbits - j,
    {
        if flags.get(j) {
            proof {
                if vh {
                    assert(hl.flags@[j as int]);
                    assert(false);
                }
            }
            return Err(CivMapIoError::ReadData);
        }
        j += 1;
    }
    let lvl = crate::level::MapMultiSlot { capacity: cap, flags, keys: keyv, values: values.0 };
    proof {
        crate::model::lemma_masked_len(lvl.pair_seq(), lvl.flags@, 0, lvl.keys@.len() as int);
        assert(lvl.wf());
        assert(enc_level(lvl) =~= b@.subrange(pos as int, endpos as int));
    }
    Ok((lvl, endpos))
}


/// Stepping through a well-formed cascade's sections: the bytes at `pos`
/// start with the section of level `i`.
proof fn lemma_levels_step(hd: Seq<crate::level::MapMultiSlot>, b: Seq<u8>, i: int, pos: int)
    requires
        0 <= i < hd.len(),
        crate::tiers::all_wf(hd),
        0 <= pos <= b.len(),
        enc_levels(hd.subrange(i, hd.len() as int)) == b.subrange(pos, b.len() as int),
    ensures
        enc_level(hd[i]) + enc_levels(hd.subrange(i + 1, hd.len() as int)) == b.subrange(
            pos,
            b.len() as int,
        ),
        valid_level_section(b, pos),
{
    lemma_enc_levels_front(hd.subrange(i, hd.len() as int));
    assert(hd.subrange(i, hd.len() as int)[0] == hd[i]);
    assert(hd.subrange(i, hd.len() as int).subrange(1, hd.len() - i) =~= hd.subrange(
        i + 1,
        hd.len() as int,
    ));
    assert(hd[i].wf());
}

/// The parsed section of level `i` matches the cascade's level exactly,
/// and the remaining bytes hold the remaining sections.
#[verifier::rlimit(100)]
#[verifier::spinoff_prover]
proof fn lemma_levels_det(
    hd: Seq<crate::level::MapMultiSlot>,
    b: Seq<u8>,
    i: int,
    pos: int,
    newpos: int,
    lvl: crate::level::MapMultiSlot,
)
    requires
        0 <= i < hd.len(),
        crate::tiers::all_wf(hd),
        0 <= pos <= newpos <= b.len(),
        enc_levels(hd.subrange(i, hd.len() as int)) == b.subrange(pos, b.len() as int),
        enc_level(lvl) == b.subrange(pos, newpos),
    ensures
        lvl.capacity == hd[i].capacity,
        lvl.flags.words@ == hd[i].flags.words@,
        lvl.keys@ == hd[i].keys@,
        lvl.values@ == hd[i].values@,
        lvl.as_map() == hd[i].as_map(),
        lvl.live_count() == hd[i].live_count(),
        enc_levels(hd.subrange(i + 1, hd.len() as int)) == b.subrange(newpos, b.len() as int),
{
    lemma_levels_step(hd, b, i, pos);
    assert(b.subrange(pos, b.len() as int) =~= b.subrange(pos, newpos) + b.subrange(
        newpos,
        b.len() as int,
    ));
    lemma_enc_level_prefix(
        lvl,
        b.subrange(newpos, b.len() as int),
        hd[i],
        enc_levels(hd.subrange(i + 1, hd.len() as int)),
    );
    lemma_fields_same_level(lvl, hd[i]);
}

/// The reserved room of the cascade's first tiers stays within the
/// engine's overall bound.
proof fn lemma_levels_capsum(hd: Seq<crate::level::MapMultiSlot>, i: int)
    requires
        crate::tiers::all_wf(hd),
        0 <= i < hd.len(),
        crate::tiers::cap_sum(hd, 0, hd.len() as int) <= usize::MAX as int / 2,
    ensures
        crate::tiers::cap_sum(hd, 0, i) + hd[i].capacity <= usize::MAX as int / 2,
        crate::tiers::cap_sum(hd, 0, i + 1) == crate::tiers::cap_sum(hd, 0, i) + hd[i].capacity,
{
    reveal_with_fuel(crate::tiers::cap_sum, 2);
    crate::tiers::lemma_cap_sum_split(hd, 0, i, i + 1);
    crate::tiers::lemma_cap_sum_split(hd, 0, i + 1, hd.len() as int);
    crate::tiers::lemma_sums_nonneg(hd, i + 1, hd.len() as int);
    crate::tiers::lemma_sums_nonneg(hd, 0, i + 1);
}

/// Parse the level-count prefix and every level section, validating the
/// doubling capacities and that no live key occurs twice anywhere.
/// Where the bytes do hold a well-formed cascade, parsing cannot fail.
#[verifier::rlimit(100)]
#[verifier::spinoff_prover]
fn parse_levels(
    bytes: &Vec<u8>,
    start: usize,
    slot: &crate::hotslot::Slot,
) -> (r: Result<(Vec<crate::level::MapMultiSlot>, usize), CivMapIoError>)
    requires
        start <= bytes@.len(),
        slot.wf(),
    ensures
        match r {
            Ok(dp) => {
                &&& start <= dp.1 <= bytes@.len()
                &&& crate::tiers::all_wf(dp.0@)
                &&& crate::tiers::caps_law(dp.0@, slot.spec_max())
                &&& crate::tiers::levels_disjoint(dp.0@)
                &&& forall|j: int|
                    0 <= j < dp.0@.len() ==> slot.as_map().dom().disjoint(
                        (#[trigger] dp.0@[j]).as_map().dom(),
                    )
                &&& crate::tiers::cap_sum(dp.0@, 0, dp.0@.len() as int) <= usize::MAX as int / 2
                &&& u64_le(dp.0@.len() as u64) + enc_levels(dp.0@) == bytes@.subrange(
                    start as int,
                    dp.1 as int,
                )
            },
            Err(e) => e is ReadData || (e matches CivMapIoError::SizeMismatch(f, ex, g) && (f
                == 2 || f == 3) && ex == 8 && g != 8),
        },
        valid_levels_section(bytes@, start as int, slot) ==> r is Ok,
{
    let ghost vh = valid_levels_section(bytes@, start as int, slot);
    let ghost hd: Seq<crate::level::MapMultiSlot> = if vh {
        choose|d: Seq<crate::level::MapMultiSlot>|
            {
                &&& crate::tiers::all_wf(d)
                &&& crate::tiers::caps_law(d, slot.spec_max())
                &&& crate::tiers::levels_disjoint(d)
                &&& forall|j: int|
                    0 <= j < d.len() ==> slot.as_map().dom().disjoint(
                        (#[trigger] d[j]).as_map().dom(),
                    )
                &&& crate::tiers::cap_sum(d, 0, d.len() as int) <= usize::MAX as int / 2
                &&& u64_le(d.len() as u64) + #[trigger] enc_levels(d) == bytes@.subrange(
                    start as int,
                    bytes@.len() as int,
                )
            }
    } else {
        vstd::pervasive::arbitrary()
    };
    let ghost sz = slot.spec_max();
    proof {
        if vh {
            lemma_peel_shape(bytes@, start as int, u64_le(hd.len() as u64), enc_levels(hd));
            crate::tiers::lemma_cap_sum_lower(hd, sz, 0, hd.len() as int);
        }
    }
    let slot_size = slot.max_size();
    let lc = match get_u64(bytes, start) {
        Some(x) => x,
        None => {
            proof {
                if vh {
                    assert(false);
                }
            }
            return Err(CivMapIoError::ReadData);
        },
    };
    proof {
        if vh {
            lemma_u64_le_inj(lc.0, hd.len() as u64);
        }
    }
    if lc.0 > usize::MAX as u64 {
        proof {
            if vh {
                assert(false);
            }
        }
        return Err(CivMapIoError::ReadData);
    }
    let lcount = lc.0 as usize;
    let ghost levstart = lc.1 as int;
    let mut data: Vec<crate::level::MapMultiSlot> = Vec::new();
    let mut pos = lc.1;
    let mut expect = slot_size;
    let mut capsum: usize = 0;
    let mut i: usize = 0;
    proof {
        assert(enc_levels(data@) =~= bytes@.subrange(levstart, pos as int));
        vstd::arithmetic::power2::lemma2_to64();
        if vh {
            assert(hd.subrange(0, hd.len() as int) =~= hd);
        }
    }
    while i < lcount
        invariant
            i <= lcount,
            data@.len() == i,
            0 <= levstart <= pos as int,
            pos <= bytes@.len(),
            crate::tiers::all_wf(data@),
            crate::tiers::caps_law(data@, sz),
            crate::tiers::levels_disjoint(data@),
            forall|j: int|
                0 <= j < i ==> slot.as_map().dom().disjoint((#[trigger] data@[j]).as_map().dom()),
            i == lcount || expect as int == sz * vstd::arithmetic::power2::pow2(i as nat),
            capsum == crate::tiers::cap_sum(data@, 0, i as int),
            capsum <= usize::MAX / 2,
            enc_levels(data@) == bytes@.subrange(levstart, pos as int),
            slot.wf(),
            sz == slot.spec_max(),
            vh == valid_levels_section(bytes@, start as int, slot),
            vh ==> i <= hd.len() && lcount == hd.len(),
            vh ==> crate::tiers::all_wf(hd) && crate::tiers::caps_law(hd, sz)
                && crate::tiers::levels_disjoint(hd) && crate::tiers::cap_sum(
                hd,
                0,
                hd.len() as int,
            ) <= usize::MAX as int / 2,
            vh ==> forall|j: int|
                0 <= j < hd.len() ==> slot.as_map().dom().disjoint(
                    (#[trigger] hd[j]).as_map().dom(),
                ),
            vh ==> enc_levels(hd.subrange(i as int, hd.len() as int)) == bytes@.subrange(
                pos as int,
                bytes@.len() as int,
            ),
            vh ==> forall|m: int|
                0 <= m < i ==> (#[trigger] data@[m]).capacity == hd[m].capacity
                    && data@[m].flags.words@ == hd[m].flags.words@ && data@[m].keys@ == hd[m].keys@
                    && data@[m].values@ == hd[m].values@,
        decreases lcount - i,
    {
        proof {
            if vh {
                lemma_levels_step(hd, bytes@, i as int, pos as int);
            }
        }
        let parsed = match parse_level(bytes, pos) {
            Ok(x) => x,
            Err(e) => {
                proof {
                    if vh {
                        assert(false);
                    }
                }
                return Err(e);
            },
        };
        let lvl = parsed.0;
        proof {
            if vh {
                lemma_levels_det(hd, bytes@, i as int, pos as int, parsed.1 as int, lvl);
            }
        }
        if lvl.capacity != expect {
            proof {
                if vh {
                    assert(false);
                }
            }
            return Err(CivMapIoError::ReadData);
        }
        proof {
            if vh {
                crate::tiers::lemma_cap_sum_equal(data@, hd, 0, i as int);
                lemma_levels_capsum(hd, i as int);
            }
        }
        let newsum = match capsum.checked_add(lvl.capacity) {
            Some(x) => x,
            None => {
                proof {
                    if vh {
                        assert(false);
                    }
                }
                return Err(CivMapIoError::ReadData);
            },
        };
        if newsum > usize::MAX / 2 {
            proof {
                if vh {
                    assert(false);
                }
            }
            return Err(CivMapIoError::ReadData);
        }
        // every live key must be new to the engine
        let nk = lvl.keys.len();
        let mut idx: usize = 0;
        while idx < nk
            invariant
                lvl.wf(),
                nk == lvl.keys@.len(),
                idx <= nk,
                data@.len() == i,
                crate::tiers::all_wf(data@),
                slot.wf(),
                forall|x: int|
                    0 <= x < idx && lvl.flags@[x] ==> !slot.as_map().contains_key(
                        #[trigger] lvl.keys@[x],
                    ),
                forall|x: int, j: int|
                    0 <= x < idx && lvl.flags@[x] && 0 <= j < i ==> !(
                    #[trigger] data@[j]).as_map().contains_key(#[trigger] lvl.keys@[x]),
                vh == valid_levels_section(bytes@, start as int, slot),
                vh ==> i < hd.len() && lvl.as_map() == hd[i as int].as_map()
                    && crate::tiers::levels_disjoint(hd),
                vh ==> forall|j: int|
                    0 <= j < hd.len() ==> slot.as_map().dom().disjoint(
                        (#[trigger] hd[j]).as_map().dom(),
                    ),
                vh ==> forall|m: int|
                    0 <= m < i ==> (#[trigger] data@[m]).capacity == hd[m].capacity
                        && data@[m].flags.words@ == hd[m].flags.words@ && data@[m].keys@
                        == hd[m].keys@ && data@[m].values@ == hd[m].values@,
            decreases nk - idx,
        {
            proof {
                assert(64 * (lvl.capacity as int / 64 + 1) > lvl.capacity as int);
                assert(idx < lvl.flags@.len());
            }
            if lvl.flags.get(idx) {
                let key = lvl.keys[idx];
                if slot.contains(&key).is_some() {
                    proof {
                        if vh {
                            crate::model::lemma_seq_to_map_contains(slot@, key);
                            lvl.lemma_lookup(key);
                            assert(hd[i as int].as_map().contains_key(key));
                            assert(slot.as_map().dom().disjoint(hd[i as int].as_map().dom()));
                            assert(false);
                        }
                    }
                    return Err(CivMapIoError::ReadData);
                }
                proof {
                    crate::model::lemma_seq_to_map_contains(slot@, key);
                    if vh {
                        lvl.lemma_lookup(key);
                    }
                }
                let mut j: usize = 0;
                while j < i
                    invariant
                        j <= i,
                        data@.len() == i,
                        crate::tiers::all_wf(data@),
                        idx < nk,
                        nk == lvl.keys@.len(),
                        key == lvl.keys@[idx as int],
                        forall|x: int|
                            0 <= x < j ==> !(#[trigger] data@[x]).as_map().contains_key(key),
                        vh == valid_levels_section(bytes@, start as int, slot),
                        vh ==> i < hd.len() && hd[i as int].as_map().contains_key(key)
                            && crate::tiers::levels_disjoint(hd),
                        vh ==> forall|m: int|
                            0 <= m < i ==> (#[trigger] data@[m]).capacity == hd[m].capacity
                                && data@[m].flags.words@ == hd[m].flags.words@ && data@[m].keys@
                                == hd[m].keys@ && data@[m].values@ == hd[m].values@,
                    decreases i - j,
                {
                    proof {
                        assert(data@[j as int].wf());
                    }
                    if data[j].contains(&key).is_some() {
                        proof {
                            if vh {
                                lemma_fields_same_level(data@[j as int], hd[j as int]);
                                assert(hd[j as int].as_map().contains_key(key));
                                assert(hd[j as int].as_map().dom().disjoint(
                                    hd[i as int].as_map().dom(),
                                ));
                                assert(false);
                            }
                        }
                        return Err(CivMapIoError::ReadData);
                    }
                    j += 1;
                }
            }
            idx += 1;
        }
        proof {
            // the checked live cells give key-disjoint maps
            lvl.lemma_live_sorted();
            assert forall|k2: u64| lvl.as_map().contains_key(k2) implies !slot.as_map()
                .contains_key(k2) by {
                lvl.lemma_lookup(k2);
                let x = choose|x: int|
                    0 <= x < lvl.keys@.len() && lvl.keys@[x] == k2 && lvl.flags@[x];
                assert(!slot.as_map().contains_key(lvl.keys@[x]));
            }
            assert forall|k2: u64, j: int|
                #[trigger] lvl.as_map().contains_key(k2) && 0 <= j < i implies !(
            #[trigger] data@[j]).as_map().contains_key(k2) by {
                lvl.lemma_lookup(k2);
                let x = choose|x: int|
                    0 <= x < lvl.keys@.len() && lvl.keys@[x] == k2 && lvl.flags@[x];
                assert(!data@[j].as_map().contains_key(lvl.keys@[x]));
            }
        }
        let ghost dpre = data@;
        let ghost pos0 = pos as int;
        data.push(lvl);
        pos = parsed.1;
        capsum = newsum;
        proof {
            assert(data@.drop_last() =~= dpre);
            assert(0 <= levstart <= pos0);
            assert(pos0 <= pos as int);
            assert(pos as int <= bytes@.len());
            assert(bytes@.subrange(levstart, pos as int) =~= bytes@.subrange(levstart, pos0)
                + bytes@.subrange(pos0, pos as int));
            assert(enc_levels(data@) =~= bytes@.subrange(levstart, pos as int));
            reveal_with_fuel(crate::tiers::cap_sum, 2);
            crate::tiers::lemma_cap_sum_split(data@, 0, i as int, i as int + 1);
            crate::tiers::lemma_cap_sum_equal(data@, dpre, 0, i as int);
            assert(crate::tiers::caps_law(data@, sz)) by {
                assert(forall|j: int| 0 <= j < i ==> (#[trigger] data@[j]) == dpre[j]);
            }
            assert(crate::tiers::levels_disjoint(data@)) by {
                assert forall|x: int, y: int|
                    0 <= x < y < data@.len() implies (#[trigger] data@[x]).as_map().dom().disjoint(
                    (#[trigger] data@[y]).as_map().dom(),
                ) by {
                    if y == i as int {
                        assert(data@[x] == dpre[x]);
                        assert forall|k2: u64|
                            data@[x].as_map().dom().contains(k2) implies !data@[y].as_map().dom()
                            .contains(k2) by {
                            if data@[y].as_map().contains_key(k2) {
                                assert(!data@[x].as_map().contains_key(k2));
                            }
                        }
                    } else {
                        assert(data@[x] == dpre[x] && data@[y] == dpre[y]);
                    }
                }
            }
            assert forall|j: int| 0 <= j < i + 1 implies slot.as_map().dom().disjoint(
                (#[trigger] data@[j]).as_map().dom(),
            ) by {
                if j == i as int {
                    assert forall|k2: u64|
                        slot.as_map().dom().contains(k2) implies !data@[j].as_map().dom().contains(
                    k2) by {
                        if data@[j].as_map().contains_key(k2) {
                            assert(!slot.as_map().contains_key(k2));
                        }
                    }
                } else {
                    assert(data@[j] == dpre[j]);
                }
            }
        }
        if i + 1 < lcount {
            expect = match expect.checked_mul(2) {
                Some(x) => x,
                None => {
                    proof {
                        if vh {
                            vstd::arithmetic::power2::lemma_pow2_unfold((i + 1) as nat);
                            assert(hd[i as int + 1].capacity == sz
                                * vstd::arithmetic::power2::pow2((i + 1) as nat));
                            assert(sz * (2 * vstd::arithmetic::power2::pow2(i as nat)) == 2 * (sz
                                * vstd::arithmetic::power2::pow2(i as nat))) by (nonlinear_arith);
                            assert(false);
                        }
                    }
                    return Err(CivMapIoError::ReadData);
                },
            };
            proof {
                vstd::arithmetic::power2::lemma_pow2_unfold((i + 1) as nat);
                assert(sz * (2 * vstd::arithmetic::power2::pow2(i as nat)) == 2 * (sz
                    * vstd::arithmetic::power2::pow2(i as nat))) by (nonlinear_arith);
            }
        }
        i += 1;
    }
    proof {
        assert(u64_le(lc.0) + enc_levels(data@) =~= bytes@.subrange(start as int, pos as int));
    }
    Ok((data, pos))
}

proof fn lemma_u32_roundtrip(v: u32)
    ensures
        u32_of_le(u32_le(v)) == v,
{
    let s = u32_le(v);
    assert(s[0] == (v & 0xff) as u8 && s[1] == ((v >> 8) & 0xff) as u8 && s[2] == ((v >> 16)
        & 0xff) as u8 && s[3] == ((v >> 24) & 0xff) as u8);
    assert(((((v & 0xff) as u8) as u32) | ((((v >> 8) & 0xff) as u8) as u32) << 8 | ((((v >> 16)
        & 0xff) as u8) as u32) << 16 | ((((v >> 24) & 0xff) as u8) as u32) << 24) as u32 == v)
        by (bit_vector);
}

/// What the level parser read out of a well-formed snapshot's tail is
/// that snapshot's cascade, to the last byte.
#[verifier::rlimit(100)]
#[verifier::spinoff_prover]
proof fn lemma_levels_match(
    he: &CivMap,
    d: Seq<crate::level::MapMultiSlot>,
    b: Seq<u8>,
    start: int,
    pos: int,
)
    requires
        0 <= start <= pos <= b.len(),
        u64_le(he.data@.len() as u64) + enc_levels(he.data@) == b.subrange(start, b.len() as int),
        u64_le(d.len() as u64) + enc_levels(d) == b.subrange(start, pos),
        d.len() <= usize::MAX,
    ensures
        pos == b.len(),
        d.len() == he.data@.len(),
        forall|i: int|
            0 <= i < d.len() ==> (#[trigger] d[i]).capacity == he.data@[i].capacity
                && d[i].live_count() == he.data@[i].live_count() && d[i].dead_count()
                == he.data@[i].dead_count(),
{
    let tail = b.subrange(pos, b.len() as int);
    assert(b.subrange(start, b.len() as int) =~= b.subrange(start, pos) + tail);
    lemma_assoc(u64_le(d.len() as u64), enc_levels(d), tail);
    lemma_concat_parts(
        u64_le(d.len() as u64),
        enc_levels(d) + tail,
        u64_le(he.data@.len() as u64),
        enc_levels(he.data@),
    );
    lemma_u64_le_inj(d.len() as u64, he.data@.len() as u64);
    vstd::std_specs::vec::axiom_spec_len(&he.data);
    assert(d.len() == he.data@.len());
    assert(enc_levels(he.data@) + Seq::<u8>::empty() =~= enc_levels(he.data@));
    lemma_enc_levels_prefix(d, tail, he.data@, Seq::<u8>::empty());
    assert(tail =~= Seq::<u8>::empty());
    assert forall|i: int|
        0 <= i < d.len() implies (#[trigger] d[i]).capacity == he.data@[i].capacity
        && d[i].live_count() == he.data@[i].live_count() && d[i].dead_count()
        == he.data@[i].dead_count() by {
        lemma_fields_same_level(d[i], he.data@[i]);
    }
}

/// Parse a map snapshot's header and hot-slot section.  Where the bytes
/// are a well-formed snapshot, this cannot fail, and what it reads is
/// that snapshot's hot slot.
#[verifier::rlimit(100)]
#[verifier::spinoff_prover]
#[verifier::loop_isolation(false)]
fn parse_map_slot(bytes: &Vec<u8>) -> (r: Result<(crate::hotslot::Slot, usize), CivMapIoError>)
    ensures
        match r {
            Ok(sp) => {
                &&& sp.0.wf()
                &&& sp.0@.len() < sp.0.spec_max()
                &&& 12 <= sp.1 <= bytes@.len()
                &&& enc_slot(&sp.0) == bytes@.subrange(12, sp.1 as int)
                &&& sp.1 == 44 + 16 * sp.0@.len()
                &&& bytes@.len() >= 12
                &&& bytes@.subrange(0, 4) == magic_map()
                &&& bytes@.subrange(4, 8) == u32_le(0)
                &&& bytes@.subrange(8, 12) == u32_le(1)
            },
            Err(_) => true,
        },
        bytes@.len() < 4 ==> r == Err::<(crate::hotslot::Slot, usize), CivMapIoError>(
            CivMapIoError::ReadHeader,
        ),
        bytes@.len() >= 4 && bytes@.subrange(0, 4) != magic_map() ==> r == Err::<
            (crate::hotslot::Slot, usize),
            CivMapIoError,
        >(CivMapIoError::InvalidHeader),
        bytes@.len() >= 4 && bytes@.subrange(0, 4) == magic_map() && bytes@.len() < 12 ==> r
            == Err::<(crate::hotslot::Slot, usize), CivMapIoError>(CivMapIoError::ReadHeader),
        bytes@.len() >= 12 && bytes@.subrange(0, 4) == magic_map() && !(u32_of_le(
            bytes@.subrange(4, 8),
        ) == 0 && u32_of_le(bytes@.subrange(8, 12)) == 1) ==> r == Err::<
            (crate::hotslot::Slot, usize),
            CivMapIoError,
        >(
            CivMapIoError::InvalidVersion(
                u32_of_le(bytes@.subrange(4, 8)),
                u32_of_le(bytes@.subrange(8, 12)),
            ),
        ),
        bytes@.len() >= 4 && bytes@.subrange(0, 4) == magic_map() ==> (match r {
            Err(e) => !(e is InvalidHeader),
            Ok(_) => true,
        }),
        bytes@.len() >= 12 && bytes@.subrange(0, 4) == magic_map() && u32_of_le(
            bytes@.subrange(4, 8),
        ) == 0 && u32_of_le(bytes@.subrange(8, 12)) == 1 ==> (match r {
            Err(e) => !(e is InvalidVersion) && !(e is ReadHeader),
            Ok(_) => true,
        }),
        (match r {
            Err(e) => (e matches CivMapIoError::SizeMismatch(f, ex, g) ==> {
                &&& ex == 8
                &&& g != 8
                &&& f <= 1
                &&& (f == 0 ==> bytes@.len() >= 28 && u64_le(g) == bytes@.subrange(20, 28))
                &&& (f == 1 ==> bytes@.len() >= 36 && u64_le(g) == bytes@.subrange(28, 36))
            }),
            Ok(_) => true,
        }),
        valid_map_snapshot(bytes@) ==> r is Ok,
        valid_map_snapshot(bytes@) ==> (forall|e: CivMap|
            e.wf() && #[trigger] e.spec_snapshot() == bytes@ && r is Ok ==> r->Ok_0.0@ == e.slot@
                && r->Ok_0.0.spec_max() == e.slot.spec_max()),
{
    let ghost vh = valid_map_snapshot(bytes@);
    let ghost he: CivMap = if vh {
        choose|e: CivMap| e.wf() && #[trigger] e.spec_snapshot() == bytes@
    } else {
        vstd::pervasive::arbitrary()
    };
    proof {
        if vh {
            he.lemma_specs();
            lemma_snapshot_shape(&he, bytes@);
        }
    }
    if bytes.len() < 4 {
        proof {
            if vh {
                assert(false);
            }
        }
        return Err(CivMapIoError::ReadHeader);
    }
    if bytes[0] != 0x43 || bytes[1] != 0x49 || bytes[2] != 0x56 || bytes[3] != 0x4D {
        proof {
            assert(bytes@.subrange(0, 4) != magic_map()) by {
                if bytes@.subrange(0, 4) == magic_map() {
                    assert(bytes@.subrange(0, 4)[0] == 0x43u8);
                    assert(bytes@.subrange(0, 4)[1] == 0x49u8);
                    assert(bytes@.subrange(0, 4)[2] == 0x56u8);
                    assert(bytes@.subrange(0, 4)[3] == 0x4Du8);
                }
            }
            if vh {
                assert(bytes@[0] == magic_map()[0] && bytes@[1] == magic_map()[1] && bytes@[2]
                    == magic_map()[2] && bytes@[3] == magic_map()[3]);
                assert(false);
            }
        }
        return Err(CivMapIoError::InvalidHeader);
    }
    proof {
        assert(bytes@.subrange(0, 4) =~= magic_map());
    }
    let maj = match get_u32(bytes, 4) {
        Some(x) => x,
        None => {
            proof {
                if vh {
                    assert(false);
                }
            }
            return Err(CivMapIoError::ReadHeader);
        },
    };
    let min = match get_u32(bytes, maj.1) {
        Some(x) => x,
        None => {
            proof {
                if vh {
                    assert(false);
                }
            }
            return Err(CivMapIoError::ReadHeader);
        },
    };
    proof {
        lemma_u32_roundtrip(maj.0);
        lemma_u32_roundtrip(min.0);
        assert(u32_of_le(bytes@.subrange(4, 8)) == maj.0);
        assert(u32_of_le(bytes@.subrange(8, 12)) == min.0);
    }
    if maj.0 != 0 || min.0 != 1 {
        proof {
            if vh {
                lemma_u32_roundtrip(0);
                lemma_u32_roundtrip(1);
                assert(false);
            }
        }
        return Err(CivMapIoError::InvalidVersion(maj.0, min.0));
    }
    proof {
        assert(bytes@.subrange(4, 8) =~= u32_le(0)) by {
            lemma_u32_roundtrip(0);
            assert(u32_le(maj.0) == bytes@.subrange(4, 8));
        }
        assert(bytes@.subrange(8, 12) =~= u32_le(1)) by {
            assert(u32_le(min.0) == bytes@.subrange(8, 12));
        }
    }
    // hot slot section
    let s64 = match get_u64(bytes, 12) {
        Some(x) => x,
        None => {
            proof {
                if vh {
                    assert(false);
                }
            }
            return Err(CivMapIoError::ReadSlot);
        },
    };
    proof {
        if vh {
            lemma_u64_le_inj(s64.0, he.slot.spec_max() as u64);
        }
    }
    if s64.0 < 1 || s64.0 > (usize::MAX / 4) as u64 {
        proof {
            if vh {
                assert(false);
            }
        }
        return Err(CivMapIoError::ReadSlot);
    }
    let slot_size = s64.0 as usize;
    let ks = match get_u64(bytes, s64.1) {
        Some(x) => x,
        None => {
            proof {
                if vh {
                    assert(false);
                }
            }
            return Err(CivMapIoError::ReadSlot);
        },
    };
    if ks.0 != 8 {
        proof {
            if vh {
                lemma_u64_le_inj(ks.0, 8);
                assert(false);
            }
        }
        return Err(CivMapIoError::SizeMismatch(0, 8, ks.0));
    }
    let vs = match get_u64(bytes, ks.1) {
        Some(x) => x,
        None => {
            proof {
                if vh {
                    assert(false);
                }
            }
            return Err(CivMapIoError::ReadSlot);
        },
    };
    if vs.0 != 8 {
        proof {
            if vh {
                lemma_u64_le_inj(vs.0, 8);
                assert(false);
            }
        }
        return Err(CivMapIoError::SizeMismatch(1, 8, vs.0));
    }
    let dl = match get_u64(bytes, vs.1) {
        Some(x) => x,
        None => {
            proof {
                if vh {
                    assert(false);
                }
            }
            return Err(CivMapIoError::ReadSlot);
        },
    };
    proof {
        if vh {
            lemma_u64_le_inj(dl.0, he.slot@.len() as u64);
        }
    }
    if dl.0 >= s64.0 {
        proof {
            if vh {
                assert(false);
            }
        }
        return Err(CivMapIoError::ReadSlot);
    }
    let dlen = dl.0 as usize;
    let pairs = match get_pairs(bytes, dl.1, dlen) {
        Some(x) => x,
        None => {
            proof {
                if vh {
                    assert(false);
                }
            }
            return Err(CivMapIoError::ReadSlot);
        },
    };
    let pvec = pairs.0;
    proof {
        if vh {
            lemma_pairs_le_inj(pvec@, he.slot@);
        }
    }
    // hot slot keys must be distinct
    let mut a: usize = 0;
    while a < dlen
        invariant
            dlen == pvec@.len(),
            a <= dlen,
            forall|x: int, y: int|
                0 <= x < y < pvec@.len() && x < a ==> (#[trigger] pvec@[x]).0 != (
                #[trigger] pvec@[y]).0,
        decreases dlen - a,
    {
        let mut bq: usize = a + 1;
        while bq < dlen
            invariant
                dlen == pvec@.len(),
                a < dlen,
                a + 1 <= bq <= dlen,
                forall|y: int| a < y < bq ==> (#[trigger] pvec@[y]).0 != pvec@[a as int].0,
            decreases dlen - bq,
        {
            if pvec[a].0 == pvec[bq].0 {
                proof {
                    if vh {
                        assert(he.slot@[a as int].0 != he.slot@[bq as int].0);
                        assert(false);
                    }
                }
                return Err(CivMapIoError::ReadSlot);
            }
            bq += 1;
        }
        a += 1;
    }
    proof {
        assert(crate::model::keys_distinct(pvec@));
    }
    let slot = crate::hotslot::Slot::from_parts(slot_size, pvec);
    let slot_end = pairs.1;
    proof {
        assert(enc_slot(&slot) =~= bytes@.subrange(12, slot_end as int));
        if vh {
            assert forall|e: CivMap|
                e.wf() && #[trigger] e.spec_snapshot() == bytes@ implies slot@ == e.slot@
                && slot.spec_max() == e.slot.spec_max() by {
                e.lemma_specs();
                lemma_snapshot_shape(&e, bytes@);
                lemma_u64_le_inj(s64.0, e.slot.spec_max() as u64);
                lemma_u64_le_inj(dl.0, e.slot@.len() as u64);
                lemma_pairs_le_inj(pvec@, e.slot@);
            }
        }
    }
    Ok((slot, slot_end))
}

/// Walk the parsed levels and recount live entries and dead cells; the
/// walk fails only if a count cannot be represented.
fn recount(slot: &crate::hotslot::Slot, data: &Vec<crate::level::MapMultiSlot>) -> (r: Result<
    (usize, usize),
    (),
>)
    requires
        slot.wf(),
        crate::tiers::all_wf(data@),
    ensures
        match r {
            Ok(tt) => tt.0 == slot@.len() + crate::tiers::live_sum(data@, 0, data@.len() as int)
                && tt.1 == crate::tiers::dead_sum(data@, 0, data@.len() as int),
            Err(_) => true,
        },
        (slot@.len() + crate::tiers::live_sum(data@, 0, data@.len() as int) <= usize::MAX as int
            && crate::tiers::dead_sum(data@, 0, data@.len() as int) <= usize::MAX as int) ==> r
            is Ok,
{
    let mut total: usize = slot.len();
    let mut tombs: usize = 0;
    let elen = data.len();
    let mut m: usize = 0;
    while m < elen
        invariant
            m <= elen,
            elen == data@.len(),
            crate::tiers::all_wf(data@),
            slot.wf(),
            total == slot@.len() + crate::tiers::live_sum(data@, 0, m as int),
            tombs == crate::tiers::dead_sum(data@, 0, m as int),
        decreases elen - m,
    {
        proof {
            reveal_with_fuel(crate::tiers::live_sum, 2);
            reveal_with_fuel(crate::tiers::dead_sum, 2);
            crate::tiers::lemma_live_sum_split(data@, 0, m as int, m as int + 1);
            crate::tiers::lemma_dead_sum_split(data@, 0, m as int, m as int + 1);
            crate::tiers::lemma_live_sum_split(data@, 0, m as int + 1, elen as int);
            crate::tiers::lemma_dead_sum_split(data@, 0, m as int + 1, elen as int);
            crate::tiers::lemma_sums_nonneg(data@, m as int + 1, elen as int);
            crate::tiers::lemma_sums_nonneg(data@, 0, m as int + 1);
            assert(data@[m as int].wf());
        }
        let c = data[m].check_len();
        total = match total.checked_add(c) {
            Some(x) => x,
            None => {
                return Err(());
            },
        };
        if !data[m].empty() {
            let dcap = data[m].capacity;
            tombs = match tombs.checked_add(dcap - c) {
                Some(x) => x,
                None => {
                    return Err(());
                },
            };
        }
        m += 1;
    }
    Ok((total, tombs))
}

/// Reassemble the snapshot from its sections.
#[verifier::rlimit(100)]
#[verifier::spinoff_prover]
proof fn lemma_assemble_map(
    slotv: &crate::hotslot::Slot,
    d: Seq<crate::level::MapMultiSlot>,
    b: Seq<u8>,
    send: int,
)
    requires
        12 <= send <= b.len(),
        b.subrange(0, 4) == magic_map(),
        b.subrange(4, 8) == u32_le(0),
        b.subrange(8, 12) == u32_le(1),
        enc_slot(slotv) == b.subrange(12, send),
        u64_le(d.len() as u64) + enc_levels(d) == b.subrange(send, b.len() as int),
    ensures
        magic_map() + (u32_le(0) + (u32_le(1) + (enc_slot(slotv) + (u64_le(d.len() as u64)
            + enc_levels(d))))) == b,
{
    assert(magic_map() + (u32_le(0) + (u32_le(1) + (enc_slot(slotv) + (u64_le(d.len() as u64)
        + enc_levels(d))))) =~= b);
}

/// A well-formed snapshot's tail is a well-formed cascade section over
/// the hot slot that was read from it.
#[verifier::rlimit(100)]
#[verifier::spinoff_prover]
proof fn lemma_levels_hypothesis(
    he: &CivMap,
    slotv: &crate::hotslot::Slot,
    b: Seq<u8>,
    send: int,
)
    requires
        he.wf(),
        he.spec_snapshot() == b,
        slotv@ == he.slot@,
        slotv.spec_max() == he.slot.spec_max(),
        send == 44 + 16 * he.slot@.len(),
    ensures
        valid_levels_section(b, send, slotv),
        slotv.as_map() == he.slot.as_map(),
{
    he.lemma_specs();
    lemma_snapshot_shape(he, b);
    assert(slotv.as_map() =~= he.slot.as_map());
    assert forall|j: int|
        0 <= j < he.data@.len() implies slotv.as_map().dom().disjoint(
        (#[trigger] he.data@[j]).as_map().dom(),
    ) by {
        assert(he.slot.as_map().dom().disjoint(he.data@[j].as_map().dom()));
    }
    assert(u64_le(he.data@.len() as u64) + enc_levels(he.data@) == b.subrange(send, b.len() as int));
}

impl CivMap {
    /// Rebuild an engine from snapshot bytes, validating the header, the
    /// shape of every section and every structural invariant.  A rebuilt
    /// engine re-encodes to exactly the given bytes, and rebuilding from
    /// any well-formed engine's snapshot cannot fail.
    #[verifier::rlimit(100)]
    #[verifier::spinoff_prover]
    pub fn from_bytes(bytes: &Vec<u8>) -> (r: Result<CivMap, CivMapIoError>)
        ensures
            match r {
                Ok(e) => e.wf() && e.spec_snapshot() == bytes@ && e.slot_capacity()
                    <= usize::MAX as int / 4,
                Err(_) => true,
            },
            bytes@.len() < 4 ==> r == Err::<CivMap, CivMapIoError>(CivMapIoError::ReadHeader),
            bytes@.len() >= 4 && bytes@.subrange(0, 4) != magic_map() ==> r == Err::<
                CivMap,
                CivMapIoError,
            >(CivMapIoError::InvalidHeader),
            bytes@.len() >= 4 && bytes@.subrange(0, 4) == magic_map() && bytes@.len() < 12 ==> r
                == Err::<CivMap, CivMapIoError>(CivMapIoError::ReadHeader),
            bytes@.len() >= 12 && bytes@.subrange(0, 4) == magic_map() && !(u32_of_le(
                bytes@.subrange(4, 8),
            ) == 0 && u32_of_le(bytes@.subrange(8, 12)) == 1) ==> r == Err::<
                CivMap,
                CivMapIoError,
            >(
                CivMapIoError::InvalidVersion(
                    u32_of_le(bytes@.subrange(4, 8)),
                    u32_of_le(bytes@.subrange(8, 12)),
                ),
            ),
            bytes@.len() >= 4 && bytes@.subrange(0, 4) == magic_map() ==> (match r {
                Err(e) => !(e is InvalidHeader),
                Ok(_) => true,
            }),
            bytes@.len() >= 12 && bytes@.subrange(0, 4) == magic_map() && u32_of_le(
                bytes@.subrange(4, 8),
            ) == 0 && u32_of_le(bytes@.subrange(8, 12)) == 1 ==> (match r {
                Err(e) => !(e is InvalidVersion) && !(e is ReadHeader),
                Ok(_) => true,
            }),
            (match r {
                Err(e) => (e matches CivMapIoError::SizeMismatch(f, ex, g) ==> {
                    &&& ex == 8
                    &&& g != 8
                    &&& f <= 3
                    &&& (f == 0 ==> bytes@.len() >= 28 && u64_le(g) == bytes@.subrange(20, 28))
                    &&& (f == 1 ==> bytes@.len() >= 36 && u64_le(g) == bytes@.subrange(28, 36))
                }),
                Ok(_) => true,
            }),
            valid_map_snapshot(bytes@) ==> r is Ok,
    {
        let ghost vh = valid_map_snapshot(bytes@);
        let ghost he: CivMap = if vh {
            choose|e: CivMap| e.wf() && #[trigger] e.spec_snapshot() == bytes@
        } else {
            vstd::pervasive::arbitrary()
        };
        proof {
            if vh {
                he.lemma_specs();
                lemma_snapshot_shape(&he, bytes@);
                vstd::std_specs::vec::axiom_spec_len(&he.data);
            }
        }
        let parsed_slot = match parse_map_slot(bytes) {
            Ok(x) => x,
            Err(e) => {
                proof {
                    if vh {
                        assert(false);
                    }
                }
                return Err(e);
            },
        };
        let slot = parsed_slot.0;
        let slot_end = parsed_slot.1;
        proof {
            if vh {
                assert(slot@ == he.slot@ && slot.spec_max() == he.slot.spec_max());
            }
        }
        // level sections
        proof {
            if vh {
                lemma_levels_hypothesis(&he, &slot, bytes@, slot_end as int);
            }
        }
        let parsed_levels = match parse_levels(bytes, slot_end, &slot) {
            Ok(x) => x,
            Err(e) => {
                proof {
                    if vh {
                        assert(false);
                    }
                }
                return Err(e);
            },
        };
        let data = parsed_levels.0;
        let pos = parsed_levels.1;
        proof {
            if vh {
                vstd::std_specs::vec::axiom_spec_len(&data);
                lemma_snapshot_shape(&he, bytes@);
                lemma_levels_match(&he, data@, bytes@, slot_end as int, pos as int);
            }
        }
        if pos != bytes.len() {
            proof {
                if vh {
                    assert(false);
                }
            }
            return Err(CivMapIoError::ReadData);
        }
        proof {
            if vh {
                crate::tiers::lemma_sums_equal(data@, he.data@, 0, data@.len() as int);
            }
        }
        // reconstruct the counters by walking what was read
        let counted = match recount(&slot, &data) {
            Ok(x) => x,
            Err(_) => {
                proof {
                    if vh {
                        assert(false);
                    }
                }
                return Err(CivMapIoError::ReadData);
            },
        };
        let total = counted.0;
        let tombs = counted.1;
        let e = CivMap {
            len: total,
            tombs,
            slot,
            data,
            tombs_num: crate::civmap::TOMBS_LIMIT_NUM,
            tombs_den: crate::civmap::TOMBS_LIMIT_DEN,
        };
        proof {
            lemma_assemble_map(&e.slot, e.data@, bytes@, slot_end as int);
            assert(e.spec_snapshot() == bytes@);
            e.lemma_specs();
        }
        Ok(e)
    }
}

/// Bytes of the set hot-slot section: capacity, key width, the zero
/// width of the unit payload, then the length-prefixed keys.
pub(crate) open spec fn enc_slot_set(s: &crate::hotslot::Slot) -> Seq<u8> {
    u64_le(s.spec_max() as u64) + (u64_le(8) + (u64_le(0) + (u64_le(s@.len() as u64) + u64s_le(
        crate::model::keys_of(s@),
    ))))
}

/// Bytes of one set level: capacity and key width, then the mask words
/// and the keys, each length-prefixed.
pub(crate) open spec fn enc_level_set(l: crate::level::MapMultiSlot) -> Seq<u8> {
    u64_le(l.capacity as u64) + (u64_le(8) + (u64_le(l.flags.words@.len() as u64) + (u64s_le(
        l.flags.words@,
    ) + (u64_le(l.keys@.len() as u64) + u64s_le(l.keys@)))))
}

pub(crate) open spec fn enc_levels_set(s: Seq<crate::level::MapMultiSlot>) -> Seq<u8>
    decreases s.len(),
{
    if s.len() == 0 {
        Seq::empty()
    } else {
        enc_levels_set(s.drop_last()) + enc_level_set(s.last())
    }
}

/// Copy the keys out of a pair list.
fn keys_only(s: &Vec<(u64, u64)>) -> (r: Vec<u64>)
    ensures
        r@ == crate::model::keys_of(s@),
{
    let n = s.len();
    let mut r: Vec<u64> = Vec::new();
    let mut i: usize = 0;
    while i < n
        invariant
            n == s@.len(),
            i <= n,
            r@.len() == i,
            forall|m: int| 0 <= m < i ==> (#[trigger] r@[m]) == s@[m].0,
        decreases n - i,
    {
        let k = s[i].0;
        r.push(k);
        i += 1;
    }
    proof {
        assert(r@ =~= crate::model::keys_of(s@));
    }
    r
}

/// Pair each key with the unit payload, stored as zero.
fn with_zero_values(s: &Vec<u64>) -> (r: Vec<(u64, u64)>)
    ensures
        r@.len() == s@.len(),
        forall|m: int| 0 <= m < r@.len() ==> (#[trigger] r@[m]) == (s@[m], 0u64),
        crate::model::keys_of(r@) == s@,
{
    let n = s.len();
    let mut r: Vec<(u64, u64)> = Vec::new();
    let mut i: usize = 0;
    while i < n
        invariant
            n == s@.len(),
            i <= n,
            r@.len() == i,
            forall|m: int| 0 <= m < i ==> (#[trigger] r@[m]) == (s@[m], 0u64),
        decreases n - i,
    {
        let k = s[i];
        r.push((k, 0));
        i += 1;
    }
    proof {
        assert(crate::model::keys_of(r@) =~= s@);
    }
    r
}

impl CivSet {
    /// The exact snapshot bytes of this set.
    pub closed spec fn spec_snapshot(&self) -> Seq<u8> {
        magic_set() + (u32_le(0) + (u32_le(1) + (enc_slot_set(&self.map.slot) + (u64_le(
            self.map.data@.len() as u64,
        ) + enc_levels_set(self.map.data@)))))
    }

    /// Serialise the set into its binary snapshot.
    #[verifier::rlimit(100)]
    #[verifier::spinoff_prover]
    pub fn to_bytes(&self) -> (r: Vec<u8>)
        requires
            self.wf(),
        ensures
            r@ == self.spec_snapshot(),
    {
        proof {
            self.lemma_specs_set();
        }
        let mut out: Vec<u8> = Vec::new();
        out.push(0x43);
        out.push(0x49);
        out.push(0x56);
        out.push(0x53);
        proof {
            assert(out@ =~= magic_set());
        }
        put_u32(&mut out, 0);
        put_u32(&mut out, 1);
        put_u64(&mut out, self.map.slot.max_size() as u64);
        put_u64(&mut out, 8);
        put_u64(&mut out, 0);
        let entries = self.map.slot.entries();
        put_u64(&mut out, entries.len() as u64);
        let slot_keys = keys_only(entries);
        put_u64s(&mut out, &slot_keys);
        proof {
            assert(out@ =~= magic_set() + u32_le(0) + u32_le(1) + enc_slot_set(&self.map.slot));
        }
        let elen = self.map.data.len();
        put_u64(&mut out, elen as u64);
        let ghost head = out@;
        let mut i: usize = 0;
        proof {
            assert(out@ =~= head + enc_levels_set(self.map.data@.take(0)));
        }
        while i < elen
            invariant
                i <= elen,
                elen == self.map.data@.len(),
                out@ == head + enc_levels_set(self.map.data@.take(i as int)),
            decreases elen - i,
        {
            let ghost pre = out@;
            let lvl = &self.map.data[i];
            put_u64(&mut out, lvl.capacity as u64);
            put_u64(&mut out, 8);
            put_u64(&mut out, lvl.flags.words.len() as u64);
            put_u64s(&mut out, &lvl.flags.words);
            put_u64(&mut out, lvl.keys.len() as u64);
            put_u64s(&mut out, &lvl.keys);
            proof {
                assert(out@ =~= pre + enc_level_set(self.map.data@[i as int]));
                assert(self.map.data@.take(i as int + 1).drop_last() =~= self.map.data@.take(
                    i as int,
                ));
                assert(self.map.data@.take(i as int + 1).last() == self.map.data@[i as int]);
                assert(out@ =~= head + enc_levels_set(self.map.data@.take(i as int + 1)));
            }
            i += 1;
        }
        proof {
            assert(self.map.data@.take(elen as int) =~= self.map.data@);
            assert(out@ =~= self.spec_snapshot());
        }
        out
    }
}

/// Parse one set level section; where the bytes do start with a
/// well-formed level section, parsing cannot fail.
#[verifier::rlimit(100)]
#[verifier::spinoff_prover]
#[verifier::loop_isolation(false)]
fn parse_level_set(b: &Vec<u8>, pos: usize) -> (r: Result<
    (crate::level::MapMultiSlot, usize),
    CivSetIoError,
>)
    requires
        pos <= b@.len(),
    ensures
        match r {
            Ok(lp) => {
                &&& lp.0.wf()
                &&& pos <= lp.1 <= b@.len()
                &&& enc_level_set(lp.0) == b@.subrange(pos as int, lp.1 as int)
            },
            Err(e) => e is ReadData || (e matches CivSetIoError::SizeMismatch(f, ex, g) && f == 2
                && ex == 8 && g != 8),
        },
        valid_level_section_set(b@, pos as int) ==> r is Ok,
{
    let ghost vh = valid_level_section_set(b@, pos as int);
    let ghost (hl, hrest): (crate::level::MapMultiSlot, Seq<u8>) = if vh {
        choose|lvl: crate::level::MapMultiSlot, rest: Seq<u8>|
            lvl.wf() && #[trigger] (enc_level_set(lvl) + rest) == b@.subrange(
                pos as int,
                b@.len() as int,
            )
    } else {
        (vstd::pervasive::arbitrary(), vstd::pervasive::arbitrary())
    };
    let ghost hwl = hl.flags.words@.len() as int;
    let ghost hkl = hl.keys@.len() as int;
    proof {
        if vh {
            lemma_enc_level_set_shape(hl, hrest, b@, pos as int);
            hl.flags.lemma_word_len();
            vstd::std_specs::vec::axiom_spec_len(&hl.flags.words);
            vstd::std_specs::vec::axiom_spec_len(&hl.keys);
        }
    }
    let c0 = match get_u64(b, pos) {
        Some(x) => x,
        None => {
            proof {
                if vh {
                    assert(false);
                }
            }
            return Err(CivSetIoError::ReadData);
        },
    };
    proof {
        if vh {
            lemma_u64_le_inj(c0.0, hl.capacity as u64);
        }
    }
    if c0.0 > (usize::MAX / 2) as u64 {
        proof {
            if vh {
                assert(false);
            }
        }
        return Err(CivSetIoError::ReadData);
    }
    let cap = c0.0 as usize;
    let ks = match get_u64(b, c0.1) {
        Some(x) => x,
        None => {
            proof {
                if vh {
                    assert(false);
                }
            }
            return Err(CivSetIoError::ReadData);
        },
    };
    if ks.0 != 8 {
        proof {
            if vh {
                lemma_u64_le_inj(ks.0, 8);
                assert(false);
            }
        }
        return Err(CivSetIoError::SizeMismatch(2, 8, ks.0));
    }
    let wc = match get_u64(b, ks.1) {
        Some(x) => x,
        None => {
            proof {
                if vh {
                    assert(false);
                }
            }
            return Err(CivSetIoError::ReadData);
        },
    };
    proof {
        if vh {
            lemma_u64_le_inj(wc.0, hwl as u64);
            assert(hwl == hl.capacity as int / 64 + 1);
        }
    }
    if wc.0 != (cap / 64 + 1) as u64 {
        proof {
            if vh {
                assert(false);
            }
        }
        return Err(CivSetIoError::ReadData);
    }
    let wcount = cap / 64 + 1;
    let words = match get_u64s(b, wc.1, wcount) {
        Some(x) => x,
        None => {
            proof {
                if vh {
                    assert(false);
                }
            }
            return Err(CivSetIoError::ReadData);
        },
    };
    let kl = match get_u64(b, words.1) {
        Some(x) => x,
        None => {
            proof {
                if vh {
                    assert(false);
                }
            }
            return Err(CivSetIoError::ReadData);
        },
    };
    proof {
        if vh {
            lemma_u64_le_inj(kl.0, hkl as u64);
        }
    }
    if kl.0 > cap as u64 {
        proof {
            if vh {
                assert(false);
            }
        }
        return Err(CivSetIoError::ReadData);
    }
    let klen = kl.0 as usize;
    let keys = match get_u64s(b, kl.1, klen) {
        Some(x) => x,
        None => {
            proof {
                if vh {
                    assert(false);
                }
            }
            return Err(CivSetIoError::ReadData);
        },
    };
    let endpos = keys.1;
    let keyv = keys.0;
    proof {
        if vh {
            lemma_u64s_le_inj(keyv@, hl.keys@);
        }
    }
    let mut i: usize = 1;
    while i < klen
        invariant
            klen == keyv@.len(),
            1 <= i || klen == 0,
            i <= klen || klen == 0,
            forall|x: int, y: int| 0 <= x < y < i ==> keyv@[x] < keyv@[y],
        decreases klen - i,
    {
        if keyv[i - 1] >= keyv[i] {
            proof {
                if vh {
                    assert(hl.keys@[i - 1] < hl.keys@[i as int]);
                    assert(false);
                }
            }
            return Err(CivSetIoError::ReadData);
        }
        proof {
            assert forall|x: int, y: int| 0 <= x < y < i + 1 implies keyv@[x] < keyv@[y] by {
                if y == i {
                    if x < i - 1 {
                        assert(keyv@[x] < keyv@[i - 1]);
                    }
                }
            }
        }
        i += 1;
    }
    proof {
        assert(64 * wcount <= cap + 64);
    }
    let flags = crate::flags::Flags::from_words(words.0);
    proof {
        if vh {
            lemma_u64s_le_inj(flags.words@, hl.flags.words@);
            flags.lemma_same_words(&hl.flags);
        }
    }
    let nbits = 64 * wcount;
    let mut j: usize = klen;
    while j < nbits
        invariant
            flags.wf(),
            flags@.len() == nbits,
            j <= nbits,
            klen <= j || klen >= nbits,
            forall|x: int| klen <= x < j ==> !flags@[x],
        decreases nbits - j,
    {
        if flags.get(j) {
            proof {
                if vh {
                    assert(hl.flags@[j as int]);
                    assert(false);
                }
            }
            return Err(CivSetIoError::ReadData);
        }
        j += 1;
    }
    let mut zeros: Vec<u64> = Vec::new();
    let mut z: usize = 0;
    while z < klen
        invariant
            z <= klen,
            zeros@.len() == z,
        decreases klen - z,
    {
        zeros.push(0);
        z += 1;
    }
    let lvl = crate::level::MapMultiSlot { capacity: cap, flags, keys: keyv, values: zeros };
    proof {
        crate::model::lemma_masked_len(lvl.pair_seq(), lvl.flags@, 0, lvl.keys@.len() as int);
        assert(lvl.wf());
        assert(enc_level_set(lvl) =~= b@.subrange(pos as int, endpos as int));
    }
    Ok((lvl, endpos))
}

/// Parse the set level sections, with the same validation as the map's.
/// Where the bytes do hold a well-formed cascade, parsing cannot fail.
#[verifier::rlimit(100)]
#[verifier::spinoff_prover]
fn parse_levels_set(
    bytes: &Vec<u8>,
    start: usize,
    slot: &crate::hotslot::Slot,
) -> (r: Result<(Vec<crate::level::MapMultiSlot>, usize), CivSetIoError>)
    requires
        start <= bytes@.len(),
        slot.wf(),
    ensures
        match r {
            Ok(dp) => {
                &&& start <= dp.1 <= bytes@.len()
                &&& crate::tiers::all_wf(dp.0@)
                &&& crate::tiers::caps_law(dp.0@, slot.spec_max())
                &&& crate::tiers::levels_disjoint(dp.0@)
                &&& forall|j: int|
                    0 <= j < dp.0@.len() ==> slot.as_map().dom().disjoint(
                        (#[trigger] dp.0@[j]).as_map().dom(),
                    )
                &&& crate::tiers::cap_sum(dp.0@, 0, dp.0@.len() as int) <= usize::MAX as int / 2
                &&& u64_le(dp.0@.len() as u64) + enc_levels_set(dp.0@) == bytes@.subrange(
                    start as int,
                    dp.1 as int,
                )
            },
            Err(e) => e is ReadData || (e matches CivSetIoError::SizeMismatch(f, ex, g) && f == 2
                && ex == 8 && g != 8),
        },
        valid_levels_section_set(bytes@, start as int, slot) ==> r is Ok,
{
    let ghost vh = valid_levels_section_set(bytes@, start as int, slot);
    let ghost hd: Seq<crate::level::MapMultiSlot> = if vh {
        choose|d: Seq<crate::level::MapMultiSlot>|
            {
                &&& crate::tiers::all_wf(d)
                &&& crate::tiers::caps_law(d, slot.spec_max())
                &&& crate::tiers::levels_disjoint(d)
                &&& forall|j: int|
                    0 <= j < d.len() ==> slot.as_map().dom().disjoint(
                        (#[trigger] d[j]).as_map().dom(),
                    )
                &&& crate::tiers::cap_sum(d, 0, d.len() as int) <= usize::MAX as int / 2
                &&& u64_le(d.len() as u64) + #[trigger] enc_levels_set(d) == bytes@.subrange(
                    start as int,
                    bytes@.len() as int,
                )
            }
    } else {
        vstd::pervasive::arbitrary()
    };
    let ghost sz = slot.spec_max();
    proof {
        if vh {
            lemma_peel_shape(bytes@, start as int, u64_le(hd.len() as u64), enc_levels_set(hd));
            crate::tiers::lemma_cap_sum_lower(hd, sz, 0, hd.len() as int);
        }
    }
    let slot_size = slot.max_size();
    let lc = match get_u64(bytes, start) {
        Some(x) => x,
        None => {
            proof {
                if vh {
                    assert(false);
                }
            }
            return Err(CivSetIoError::ReadData);
        },
    };
    proof {
        if vh {
            lemma_u64_le_inj(lc.0, hd.len() as u64);
        }
    }
    if lc.0 > usize::MAX as u64 {
        proof {
            if vh {
                assert(false);
            }
        }
        return Err(CivSetIoError::ReadData);
    }
    let lcount = lc.0 as usize;
    let ghost levstart = lc.1 as int;
    let mut data: Vec<crate::level::MapMultiSlot> = Vec::new();
    let mut pos = lc.1;
    let mut expect = slot_size;
    let mut capsum: usize = 0;
    let mut i: usize = 0;
    proof {
        assert(enc_levels_set(data@) =~= bytes@.subrange(levstart, pos as int));
        vstd::arithmetic::power2::lemma2_to64();
        if vh {
            assert(hd.subrange(0, hd.len() as int) =~= hd);
        }
    }
    while i < lcount
        invariant
            i <= lcount,
            data@.len() == i,
            0 <= levstart <= pos as int,
            pos <= bytes@.len(),
            crate::tiers::all_wf(data@),
            crate::tiers::caps_law(data@, sz),
            crate::tiers::levels_disjoint(data@),
            forall|j: int|
                0 <= j < i ==> slot.as_map().dom().disjoint((#[trigger] data@[j]).as_map().dom()),
            i == lcount || expect as int == sz * vstd::arithmetic::power2::pow2(i as nat),
            capsum == crate::tiers::cap_sum(data@, 0, i as int),
            capsum <= usize::MAX / 2,
            enc_levels_set(data@) == bytes@.subrange(levstart, pos as int),
            slot.wf(),
            sz == slot.spec_max(),
            vh == valid_levels_section_set(bytes@, start as int, slot),
            vh ==> i <= hd.len() && lcount == hd.len(),
            vh ==> crate::tiers::all_wf(hd) && crate::tiers::caps_law(hd, sz)
                && crate::tiers::levels_disjoint(hd) && crate::tiers::cap_sum(
                hd,
                0,
                hd.len() as int,
            ) <= usize::MAX as int / 2,
            vh ==> forall|j: int|
                0 <= j < hd.len() ==> slot.as_map().dom().disjoint(
                    (#[trigger] hd[j]).as_map().dom(),
                ),
            vh ==> enc_levels_set(hd.subrange(i as int, hd.len() as int)) == bytes@.subrange(
                pos as int,
                bytes@.len() as int,
            ),
            vh ==> forall|m: int|
                0 <= m < i ==> (#[trigger] data@[m]).capacity == hd[m].capacity
                    && data@[m].flags.words@ == hd[m].flags.words@ && data@[m].keys@ == hd[m].keys@,
        decreases lcount - i,
    {
        proof {
            if vh {
                lemma_levels_step_set(hd, bytes@, i as int, pos as int);
            }
        }
        let parsed = match parse_level_set(bytes, pos) {
            Ok(x) => x,
            Err(e) => {
                proof {
                    if vh {
                        assert(false);
                    }
                }
                return Err(e);
            },
        };
        let lvl = parsed.0;
        proof {
            if vh {
                lemma_levels_det_set(hd, bytes@, i as int, pos as int, parsed.1 as int, lvl);
            }
        }
        if lvl.capacity != expect {
            proof {
                if vh {
                    assert(false);
                }
            }
            return Err(CivSetIoError::ReadData);
        }
        proof {
            if vh {
                crate::tiers::lemma_cap_sum_equal(data@, hd, 0, i as int);
                lemma_levels_capsum(hd, i as int);
            }
        }
        let newsum = match capsum.checked_add(lvl.capacity) {
            Some(x) => x,
            None => {
                proof {
                    if vh {
                        assert(false);
                    }
                }
                return Err(CivSetIoError::ReadData);
            },
        };
        if newsum > usize::MAX / 2 {
            proof {
                if vh {
                    assert(false);
                }
            }
            return Err(CivSetIoError::ReadData);
        }
        // every live key must be new to the engine
        let nk = lvl.keys.len();
        let mut idx: usize = 0;
        while idx < nk
            invariant
                lvl.wf(),
                nk == lvl.keys@.len(),
                idx <= nk,
                data@.len() == i,
                crate::tiers::all_wf(data@),
                slot.wf(),
                forall|x: int|
                    0 <= x < idx && lvl.flags@[x] ==> !slot.as_map().contains_key(
                        #[trigger] lvl.keys@[x],
                    ),
                forall|x: int, j: int|
                    0 <= x < idx && lvl.flags@[x] && 0 <= j < i ==> !(
                    #[trigger] data@[j]).as_map().contains_key(#[trigger] lvl.keys@[x]),
                vh == valid_levels_section_set(bytes@, start as int, slot),
                vh ==> i < hd.len() && lvl.as_map().dom() == hd[i as int].as_map().dom()
                    && crate::tiers::levels_disjoint(hd) && crate::tiers::all_wf(hd),
                vh ==> forall|j: int|
                    0 <= j < hd.len() ==> slot.as_map().dom().disjoint(
                        (#[trigger] hd[j]).as_map().dom(),
                    ),
                vh ==> forall|m: int|
                    0 <= m < i ==> (#[trigger] data@[m]).capacity == hd[m].capacity
                        && data@[m].flags.words@ == hd[m].flags.words@ && data@[m].keys@
                        == hd[m].keys@,
            decreases nk - idx,
        {
            proof {
                assert(64 * (lvl.capacity as int / 64 + 1) > lvl.capacity as int);
                assert(idx < lvl.flags@.len());
            }
            if lvl.flags.get(idx) {
                let key = lvl.keys[idx];
                if slot.contains(&key).is_some() {
                    proof {
                        if vh {
                            crate::model::lemma_seq_to_map_contains(slot@, key);
                            lvl.lemma_lookup(key);
                            assert(hd[i as int].as_map().dom().contains(key));
                            assert(slot.as_map().dom().disjoint(hd[i as int].as_map().dom()));
                            assert(false);
                        }
                    }
                    return Err(CivSetIoError::ReadData);
                }
                proof {
                    crate::model::lemma_seq_to_map_contains(slot@, key);
                    if vh {
                        lvl.lemma_lookup(key);
                    }
                }
                let mut j: usize = 0;
                while j < i
                    invariant
                        j <= i,
                        data@.len() == i,
                        crate::tiers::all_wf(data@),
                        idx < nk,
                        nk == lvl.keys@.len(),
                        key == lvl.keys@[idx as int],
                        forall|x: int|
                            0 <= x < j ==> !(#[trigger] data@[x]).as_map().contains_key(key),
                        vh == valid_levels_section_set(bytes@, start as int, slot),
                        vh ==> i < hd.len() && hd[i as int].as_map().dom().contains(key)
                            && crate::tiers::levels_disjoint(hd) && crate::tiers::all_wf(hd),
                        vh ==> forall|m: int|
                            0 <= m < i ==> (#[trigger] data@[m]).capacity == hd[m].capacity
                                && data@[m].flags.words@ == hd[m].flags.words@ && data@[m].keys@
                                == hd[m].keys@,
                    decreases i - j,
                {
                    proof {
                        assert(data@[j as int].wf());
                    }
                    if data[j].contains(&key).is_some() {
                        proof {
                            if vh {
                                lemma_fields_same_level_set(data@[j as int], hd[j as int]);
                                assert(hd[j as int].as_map().dom().contains(key));
                                assert(hd[j as int].as_map().dom().disjoint(
                                    hd[i as int].as_map().dom(),
                                ));
                                assert(false);
                            }
                        }
                        return Err(CivSetIoError::ReadData);
                    }
                    j += 1;
                }
            }
            idx += 1;
        }
        proof {
            // the checked live cells give key-disjoint maps
            lvl.lemma_live_sorted();
            assert forall|k2: u64| lvl.as_map().contains_key(k2) implies !slot.as_map()
                .contains_key(k2) by {
                lvl.lemma_lookup(k2);
                let x = choose|x: int|
                    0 <= x < lvl.keys@.len() && lvl.keys@[x] == k2 && lvl.flags@[x];
                assert(!slot.as_map().contains_key(lvl.keys@[x]));
            }
            assert forall|k2: u64, j: int|
                #[trigger] lvl.as_map().contains_key(k2) && 0 <= j < i implies !(
            #[trigger] data@[j]).as_map().contains_key(k2) by {
                lvl.lemma_lookup(k2);
                let x = choose|x: int|
                    0 <= x < lvl.keys@.len() && lvl.keys@[x] == k2 && lvl.flags@[x];
                assert(!data@[j].as_map().contains_key(lvl.keys@[x]));
            }
        }
        let ghost dpre = data@;
        let ghost pos0 = pos as int;
        data.push(lvl);
        pos = parsed.1;
        capsum = newsum;
        proof {
            assert(data@.drop_last() =~= dpre);
            assert(0 <= levstart <= pos0);
            assert(pos0 <= pos as int);
            assert(pos as int <= bytes@.len());
            assert(bytes@.subrange(levstart, pos as int) =~= bytes@.subrange(levstart, pos0)
                + bytes@.subrange(pos0, pos as int));
            assert(enc_levels_set(data@) =~= bytes@.subrange(levstart, pos as int));
            reveal_with_fuel(crate::tiers::cap_sum, 2);
            crate::tiers::lemma_cap_sum_split(data@, 0, i as int, i as int + 1);
            crate::tiers::lemma_cap_sum_equal(data@, dpre, 0, i as int);
            assert(crate::tiers::caps_law(data@, sz)) by {
                assert(forall|j: int| 0 <= j < i ==> (#[trigger] data@[j]) == dpre[j]);
            }
            assert(crate::tiers::levels_disjoint(data@)) by {
                assert forall|x: int, y: int|
                    0 <= x < y < data@.len() implies (#[trigger] data@[x]).as_map().dom().disjoint(
                    (#[trigger] data@[y]).as_map().dom(),
                ) by {
                    if y == i as int {
                        assert(data@[x] == dpre[x]);
                        assert forall|k2: u64|
                            data@[x].as_map().dom().contains(k2) implies !data@[y].as_map().dom()
                            .contains(k2) by {
                            if data@[y].as_map().contains_key(k2) {
                                assert(!data@[x].as_map().contains_key(k2));
                            }
                        }
                    } else {
                        assert(data@[x] == dpre[x] && data@[y] == dpre[y]);
                    }
                }
            }
            assert forall|j: int| 0 <= j < i + 1 implies slot.as_map().dom().disjoint(
                (#[trigger] data@[j]).as_map().dom(),
            ) by {
                if j == i as int {
                    assert forall|k2: u64|
                        slot.as_map().dom().contains(k2) implies !data@[j].as_map().dom().contains(
                    k2) by {
                        if data@[j].as_map().contains_key(k2) {
                            assert(!slot.as_map().contains_key(k2));
                        }
                    }
                } else {
                    assert(data@[j] == dpre[j]);
                }
            }
        }
        if i + 1 < lcount {
            expect = match expect.checked_mul(2) {
                Some(x) => x,
                None => {
                    proof {
                        if vh {
                            vstd::arithmetic::power2::lemma_pow2_unfold((i + 1) as nat);
                            assert(hd[i as int + 1].capacity == sz
                                * vstd::arithmetic::power2::pow2((i + 1) as nat));
                            assert(sz * (2 * vstd::arithmetic::power2::pow2(i as nat)) == 2 * (sz
                                * vstd::arithmetic::power2::pow2(i as nat))) by (nonlinear_arith);
                            assert(false);
                        }
                    }
                    return Err(CivSetIoError::ReadData);
                },
            };
            proof {
                vstd::arithmetic::power2::lemma_pow2_unfold((i + 1) as nat);
                assert(sz * (2 * vstd::arithmetic::power2::pow2(i as nat)) == 2 * (sz
                    * vstd::arithmetic::power2::pow2(i as nat))) by (nonlinear_arith);
            }
        }
        i += 1;
    }
    proof {
        assert(u64_le(lc.0) + enc_levels_set(data@) =~= bytes@.subrange(start as int, pos as int));
    }
    Ok((data, pos))
}

/// What the set level parser read out of a well-formed set snapshot's
/// tail is that snapshot's cascade, to the last byte.
#[verifier::rlimit(100)]
#[verifier::spinoff_prover]
proof fn lemma_levels_match_set(
    hs: &CivSet,
    d: Seq<crate::level::MapMultiSlot>,
    b: Seq<u8>,
    start: int,
    pos: int,
)
    requires
        0 <= start <= pos <= b.len(),
        crate::tiers::all_wf(hs.map.data@),
        crate::tiers::all_wf(d),
        u64_le(hs.map.data@.len() as u64) + enc_levels_set(hs.map.data@) == b.subrange(
            start,
            b.len() as int,
        ),
        u64_le(d.len() as u64) + enc_levels_set(d) == b.subrange(start, pos),
        d.len() <= usize::MAX,
    ensures
        pos == b.len(),
        d.len() == hs.map.data@.len(),
        forall|i: int|
            0 <= i < d.len() ==> (#[trigger] d[i]).capacity == hs.map.data@[i].capacity
                && d[i].live_count() == hs.map.data@[i].live_count() && d[i].dead_count()
                == hs.map.data@[i].dead_count() && d[i].as_map().dom()
                == hs.map.data@[i].as_map().dom(),
{
    let tail = b.subrange(pos, b.len() as int);
    assert(b.subrange(start, b.len() as int) =~= b.subrange(start, pos) + tail);
    lemma_assoc(u64_le(d.len() as u64), enc_levels_set(d), tail);
    lemma_concat_parts(
        u64_le(d.len() as u64),
        enc_levels_set(d) + tail,
        u64_le(hs.map.data@.len() as u64),
        enc_levels_set(hs.map.data@),
    );
    lemma_u64_le_inj(d.len() as u64, hs.map.data@.len() as u64);
    vstd::std_specs::vec::axiom_spec_len(&hs.map.data);
    assert(d.len() == hs.map.data@.len());
    assert(enc_levels_set(hs.map.data@) + Seq::<u8>::empty() =~= enc_levels_set(hs.map.data@));
    lemma_enc_levels_set_prefix(d, tail, hs.map.data@, Seq::<u8>::empty());
    assert(tail =~= Seq::<u8>::empty());
    assert forall|i: int|
        0 <= i < d.len() implies (#[trigger] d[i]).capacity == hs.map.data@[i].capacity
        && d[i].live_count() == hs.map.data@[i].live_count() && d[i].dead_count()
        == hs.map.data@[i].dead_count() && d[i].as_map().dom()
        == hs.map.data@[i].as_map().dom() by {
        lemma_fields_same_level_set(d[i], hs.map.data@[i]);
    }
}

/// A well-formed set snapshot's tail is a well-formed cascade section
/// over the hot slot that was read from it.
#[verifier::rlimit(100)]
#[verifier::spinoff_prover]
proof fn lemma_levels_hypothesis_set(
    hs: &CivSet,
    slotv: &crate::hotslot::Slot,
    b: Seq<u8>,
    send: int,
)
    requires
        hs.wf(),
        hs.spec_snapshot() == b,
        crate::model::keys_of(slotv@) == crate::model::keys_of(hs.map.slot@),
        slotv.spec_max() == hs.map.slot.spec_max(),
        send == 44 + 8 * hs.map.slot@.len(),
    ensures
        valid_levels_section_set(b, send, slotv),
        slotv.as_map().dom() == hs.map.slot.as_map().dom(),
{
    hs.lemma_specs_set();
    hs.map.lemma_specs();
    lemma_snapshot_shape_set(hs, b);
    crate::model::lemma_seq_to_map_dom_keys(slotv@, hs.map.slot@);
    assert forall|j: int|
        0 <= j < hs.map.data@.len() implies slotv.as_map().dom().disjoint(
        (#[trigger] hs.map.data@[j]).as_map().dom(),
    ) by {
        assert(hs.map.slot.as_map().dom().disjoint(hs.map.data@[j].as_map().dom()));
    }
    assert(u64_le(hs.map.data@.len() as u64) + enc_levels_set(hs.map.data@) == b.subrange(
        send,
        b.len() as int,
    ));
}

/// Reassemble the set snapshot from its sections.
#[verifier::rlimit(100)]
#[verifier::spinoff_prover]
proof fn lemma_assemble_set(
    slotv: &crate::hotslot::Slot,
    d: Seq<crate::level::MapMultiSlot>,
    b: Seq<u8>,
    send: int,
)
    requires
        12 <= send <= b.len(),
        b.subrange(0, 4) == magic_set(),
        b.subrange(4, 8) == u32_le(0),
        b.subrange(8, 12) == u32_le(1),
        enc_slot_set(slotv) == b.subrange(12, send),
        u64_le(d.len() as u64) + enc_levels_set(d) == b.subrange(send, b.len() as int),
    ensures
        magic_set() + (u32_le(0) + (u32_le(1) + (enc_slot_set(slotv) + (u64_le(d.len() as u64)
            + enc_levels_set(d))))) == b,
{
    assert(magic_set() + (u32_le(0) + (u32_le(1) + (enc_slot_set(slotv) + (u64_le(d.len() as u64)
        + enc_levels_set(d))))) =~= b);
}

/// Parse a set snapshot's header and hot-slot section.  Where the bytes
/// are a well-formed set snapshot, this cannot fail, and what it reads
/// is that snapshot's hot slot, keys and capacity.
#[verifier::rlimit(100)]
#[verifier::spinoff_prover]
#[verifier::loop_isolation(false)]
fn parse_set_slot(bytes: &Vec<u8>) -> (r: Result<(crate::hotslot::Slot, usize), CivSetIoError>)
    ensures
        match r {
            Ok(sp) => {
                &&& sp.0.wf()
                &&& sp.0@.len() < sp.0.spec_max()
                &&& 12 <= sp.1 <= bytes@.len()
                &&& enc_slot_set(&sp.0) == bytes@.subrange(12, sp.1 as int)
                &&& sp.1 == 44 + 8 * sp.0@.len()
                &&& bytes@.len() >= 12
                &&& bytes@.subrange(0, 4) == magic_set()
                &&& bytes@.subrange(4, 8) == u32_le(0)
                &&& bytes@.subrange(8, 12) == u32_le(1)
            },
            Err(_) => true,
        },
        bytes@.len() < 4 ==> r == Err::<(crate::hotslot::Slot, usize), CivSetIoError>(
            CivSetIoError::ReadHeader,
        ),
        bytes@.len() >= 4 && bytes@.subrange(0, 4) != magic_set() ==> r == Err::<
            (crate::hotslot::Slot, usize),
            CivSetIoError,
        >(CivSetIoError::InvalidHeader),
        bytes@.len() >= 4 && bytes@.subrange(0, 4) == magic_set() && bytes@.len() < 12 ==> r
            == Err::<(crate::hotslot::Slot, usize), CivSetIoError>(CivSetIoError::ReadHeader),
        bytes@.len() >= 12 && bytes@.subrange(0, 4) == magic_set() && !(u32_of_le(
            bytes@.subrange(4, 8),
        ) == 0 && u32_of_le(bytes@.subrange(8, 12)) == 1) ==> r == Err::<
            (crate::hotslot::Slot, usize),
            CivSetIoError,
        >(
            CivSetIoError::InvalidVersion(
                u32_of_le(bytes@.subrange(4, 8)),
                u32_of_le(bytes@.subrange(8, 12)),
            ),
        ),
        bytes@.len() >= 4 && bytes@.subrange(0, 4) == magic_set() ==> (match r {
            Err(e) => !(e is InvalidHeader),
            Ok(_) => true,
        }),
        bytes@.len() >= 12 && bytes@.subrange(0, 4) == magic_set() && u32_of_le(
            bytes@.subrange(4, 8),
        ) == 0 && u32_of_le(bytes@.subrange(8, 12)) == 1 ==> (match r {
            Err(e) => !(e is InvalidVersion) && !(e is ReadHeader),
            Ok(_) => true,
        }),
        (match r {
            Err(e) => (e matches CivSetIoError::SizeMismatch(f, ex, g) ==> {
                &&& f <= 1
                &&& (f == 0 ==> ex == 8 && g != 8 && bytes@.len() >= 28 && u64_le(g)
                    == bytes@.subrange(20, 28))
                &&& (f == 1 ==> ex == 0 && g != 0 && bytes@.len() >= 36 && u64_le(g)
                    == bytes@.subrange(28, 36))
            }),
            Ok(_) => true,
        }),
        valid_set_snapshot(bytes@) ==> r is Ok,
        valid_set_snapshot(bytes@) ==> (forall|s: CivSet|
            s.wf() && #[trigger] s.spec_snapshot() == bytes@ && r is Ok
                ==> crate::model::keys_of(r->Ok_0.0@) == crate::model::keys_of(s.map.slot@)
                && r->Ok_0.0.spec_max() == s.map.slot.spec_max()),
{
    let ghost vh = valid_set_snapshot(bytes@);
    let ghost hs: CivSet = if vh {
        choose|s: CivSet| s.wf() && #[trigger] s.spec_snapshot() == bytes@
    } else {
        vstd::pervasive::arbitrary()
    };
    proof {
        if vh {
            hs.lemma_specs_set();
            hs.map.lemma_specs();
            lemma_snapshot_shape_set(&hs, bytes@);
        }
    }
    if bytes.len() < 4 {
        proof {
            if vh {
                assert(false);
            }
        }
        return Err(CivSetIoError::ReadHeader);
    }
    if bytes[0] != 0x43 || bytes[1] != 0x49 || bytes[2] != 0x56 || bytes[3] != 0x53 {
        proof {
            assert(bytes@.subrange(0, 4) != magic_set()) by {
                if bytes@.subrange(0, 4) == magic_set() {
                    assert(bytes@.subrange(0, 4)[0] == 0x43u8);
                    assert(bytes@.subrange(0, 4)[1] == 0x49u8);
                    assert(bytes@.subrange(0, 4)[2] == 0x56u8);
                    assert(bytes@.subrange(0, 4)[3] == 0x53u8);
                }
            }
            if vh {
                assert(bytes@[0] == magic_set()[0] && bytes@[1] == magic_set()[1] && bytes@[2]
                    == magic_set()[2] && bytes@[3] == magic_set()[3]);
                assert(false);
            }
        }
        return Err(CivSetIoError::InvalidHeader);
    }
    proof {
        assert(bytes@.subrange(0, 4) =~= magic_set());
    }
    let maj = match get_u32(bytes, 4) {
        Some(x) => x,
        None => {
            proof {
                if vh {
                    assert(false);
                }
            }
            return Err(CivSetIoError::ReadHeader);
        },
    };
    let min = match get_u32(bytes, maj.1) {
        Some(x) => x,
        None => {
            proof {
                if vh {
                    assert(false);
                }
            }
            return Err(CivSetIoError::ReadHeader);
        },
    };
    proof {
        lemma_u32_roundtrip(maj.0);
        lemma_u32_roundtrip(min.0);
        assert(u32_of_le(bytes@.subrange(4, 8)) == maj.0);
        assert(u32_of_le(bytes@.subrange(8, 12)) == min.0);
    }
    if maj.0 != 0 || min.0 != 1 {
        proof {
            if vh {
                lemma_u32_roundtrip(0);
                lemma_u32_roundtrip(1);
                assert(false);
            }
        }
        return Err(CivSetIoError::InvalidVersion(maj.0, min.0));
    }
    proof {
        assert(bytes@.subrange(4, 8) =~= u32_le(0)) by {
            lemma_u32_roundtrip(0);
            assert(u32_le(maj.0) == bytes@.subrange(4, 8));
        }
        assert(bytes@.subrange(8, 12) =~= u32_le(1)) by {
            assert(u32_le(min.0) == bytes@.subrange(8, 12));
        }
    }
    // hot slot section
    let s64 = match get_u64(bytes, 12) {
        Some(x) => x,
        None => {
            proof {
                if vh {
                    assert(false);
                }
            }
            return Err(CivSetIoError::ReadSlot);
        },
    };
    proof {
        if vh {
            lemma_u64_le_inj(s64.0, hs.map.slot.spec_max() as u64);
        }
    }
    if s64.0 < 1 || s64.0 > (usize::MAX / 4) as u64 {
        proof {
            if vh {
                assert(false);
            }
        }
        return Err(CivSetIoError::ReadSlot);
    }
    let slot_size = s64.0 as usize;
    let ks = match get_u64(bytes, s64.1) {
        Some(x) => x,
        None => {
            proof {
                if vh {
                    assert(false);
                }
            }
            return Err(CivSetIoError::ReadSlot);
        },
    };
    if ks.0 != 8 {
        proof {
            if vh {
                lemma_u64_le_inj(ks.0, 8);
                assert(false);
            }
        }
        return Err(CivSetIoError::SizeMismatch(0, 8, ks.0));
    }
    let vs = match get_u64(bytes, ks.1) {
        Some(x) => x,
        None => {
            proof {
                if vh {
                    assert(false);
                }
            }
            return Err(CivSetIoError::ReadSlot);
        },
    };
    if vs.0 != 0 {
        proof {
            if vh {
                lemma_u64_le_inj(vs.0, 0);
                assert(false);
            }
        }
        return Err(CivSetIoError::SizeMismatch(1, 0, vs.0));
    }
    let dl = match get_u64(bytes, vs.1) {
        Some(x) => x,
        None => {
            proof {
                if vh {
                    assert(false);
                }
            }
            return Err(CivSetIoError::ReadSlot);
        },
    };
    proof {
        if vh {
            lemma_u64_le_inj(dl.0, hs.map.slot@.len() as u64);
        }
    }
    if dl.0 >= s64.0 {
        proof {
            if vh {
                assert(false);
            }
        }
        return Err(CivSetIoError::ReadSlot);
    }
    let dlen = dl.0 as usize;
    let skeys = match get_u64s(bytes, dl.1, dlen) {
        Some(x) => x,
        None => {
            proof {
                if vh {
                    assert(false);
                }
            }
            return Err(CivSetIoError::ReadSlot);
        },
    };
    let kvec = skeys.0;
    proof {
        if vh {
            lemma_u64s_le_len(crate::model::keys_of(hs.map.slot@));
            lemma_u64s_le_inj(kvec@, crate::model::keys_of(hs.map.slot@));
        }
    }
    // hot slot keys must be distinct
    let mut a: usize = 0;
    while a < dlen
        invariant
            dlen == kvec@.len(),
            a <= dlen,
            forall|x: int, y: int| 0 <= x < y < kvec@.len() && x < a ==> kvec@[x] != kvec@[y],
        decreases dlen - a,
    {
        let mut bq: usize = a + 1;
        while bq < dlen
            invariant
                dlen == kvec@.len(),
                a < dlen,
                a + 1 <= bq <= dlen,
                forall|y: int| a < y < bq ==> kvec@[y] != kvec@[a as int],
            decreases dlen - bq,
        {
            if kvec[a] == kvec[bq] {
                proof {
                    if vh {
                        assert(hs.map.slot@[a as int].0 != hs.map.slot@[bq as int].0);
                        assert(crate::model::keys_of(hs.map.slot@)[a as int] != crate::model::keys_of(
                            hs.map.slot@,
                        )[bq as int]);
                        assert(false);
                    }
                }
                return Err(CivSetIoError::ReadSlot);
            }
            bq += 1;
        }
        a += 1;
    }
    let pvec = with_zero_values(&kvec);
    proof {
        assert forall|x: int, y: int|
            0 <= x < y < pvec@.len() implies (#[trigger] pvec@[x]).0 != (#[trigger] pvec@[y]).0 by {
            assert(kvec@[x] != kvec@[y]);
        }
    }
    let slot = crate::hotslot::Slot::from_parts(slot_size, pvec);
    let slot_end = skeys.1;
    proof {
        assert(crate::model::keys_of(slot@) =~= kvec@);
        assert(enc_slot_set(&slot) =~= bytes@.subrange(12, slot_end as int));
        if vh {
            assert forall|s: CivSet|
                s.wf() && #[trigger] s.spec_snapshot() == bytes@ implies crate::model::keys_of(
                slot@,
            ) == crate::model::keys_of(s.map.slot@) && slot.spec_max()
                == s.map.slot.spec_max() by {
                s.lemma_specs_set();
                s.map.lemma_specs();
                lemma_snapshot_shape_set(&s, bytes@);
                lemma_u64_le_inj(s64.0, s.map.slot.spec_max() as u64);
                lemma_u64_le_inj(dl.0, s.map.slot@.len() as u64);
                lemma_u64s_le_len(crate::model::keys_of(s.map.slot@));
                lemma_u64s_le_inj(kvec@, crate::model::keys_of(s.map.slot@));
            }
        }
    }
    Ok((slot, slot_end))
}

impl CivSet {
    /// Rebuild a set from snapshot bytes with the same validation as the
    /// map's loader.  A rebuilt set re-encodes to exactly the given
    /// bytes, and rebuilding from any well-formed set's snapshot cannot
    /// fail.
    #[verifier::rlimit(100)]
    #[verifier::spinoff_prover]
    pub fn from_bytes(bytes: &Vec<u8>) -> (r: Result<CivSet, CivSetIoError>)
        ensures
            match r {
                Ok(e) => e.wf() && e.spec_snapshot() == bytes@,
                Err(_) => true,
            },
            bytes@.len() < 4 ==> r == Err::<CivSet, CivSetIoError>(CivSetIoError::ReadHeader),
            bytes@.len() >= 4 && bytes@.subrange(0, 4) != magic_set() ==> r == Err::<
                CivSet,
                CivSetIoError,
            >(CivSetIoError::InvalidHeader),
            bytes@.len() >= 4 && bytes@.subrange(0, 4) == magic_set() && bytes@.len() < 12 ==> r
                == Err::<CivSet, CivSetIoError>(CivSetIoError::ReadHeader),
            bytes@.len() >= 12 && bytes@.subrange(0, 4) == magic_set() && !(u32_of_le(
                bytes@.subrange(4, 8),
            ) == 0 && u32_of_le(bytes@.subrange(8, 12)) == 1) ==> r == Err::<
                CivSet,
                CivSetIoError,
            >(
                CivSetIoError::InvalidVersion(
                    u32_of_le(bytes@.subrange(4, 8)),
                    u32_of_le(bytes@.subrange(8, 12)),
                ),
            ),
            bytes@.len() >= 4 && bytes@.subrange(0, 4) == magic_set() ==> (match r {
                Err(e) => !(e is InvalidHeader),
                Ok(_) => true,
            }),
            bytes@.len() >= 12 && bytes@.subrange(0, 4) == magic_set() && u32_of_le(
                bytes@.subrange(4, 8),
            ) == 0 && u32_of_le(bytes@.subrange(8, 12)) == 1 ==> (match r {
                Err(e) => !(e is InvalidVersion) && !(e is ReadHeader),
                Ok(_) => true,
            }),
            (match r {
                Err(e) => (e matches CivSetIoError::SizeMismatch(f, ex, g) ==> {
                    &&& f <= 2
                    &&& (f == 0 ==> ex == 8 && g != 8 && bytes@.len() >= 28 && u64_le(g)
                        == bytes@.subrange(20, 28))
                    &&& (f == 1 ==> ex == 0 && g != 0 && bytes@.len() >= 36 && u64_le(g)
                        == bytes@.subrange(28, 36))
                    &&& (f == 2 ==> ex == 8 && g != 8)
                }),
                Ok(_) => true,
            }),
            valid_set_snapshot(bytes@) ==> r is Ok,
    {
        let ghost vh = valid_set_snapshot(bytes@);
        let ghost hs: CivSet = if vh {
            choose|s: CivSet| s.wf() && #[trigger] s.spec_snapshot() == bytes@
        } else {
            vstd::pervasive::arbitrary()
        };
        proof {
            if vh {
                hs.lemma_specs_set();
                hs.map.lemma_specs();
                lemma_snapshot_shape_set(&hs, bytes@);
                vstd::std_specs::vec::axiom_spec_len(&hs.map.data);
            }
        }
        let parsed_slot = match parse_set_slot(bytes) {
            Ok(x) => x,
            Err(e) => {
                proof {
                    if vh {
                        assert(false);
                    }
                }
                return Err(e);
            },
        };
        let slot = parsed_slot.0;
        let slot_end = parsed_slot.1;
        proof {
            if vh {
                assert(crate::model::keys_of(slot@) == crate::model::keys_of(hs.map.slot@)
                    && slot.spec_max() == hs.map.slot.spec_max());
                assert(slot@.len() == hs.map.slot@.len()) by {
                    assert(crate::model::keys_of(slot@).len() == slot@.len());
                    assert(crate::model::keys_of(hs.map.slot@).len() == hs.map.slot@.len());
                }
                lemma_levels_hypothesis_set(&hs, &slot, bytes@, slot_end as int);
            }
        }
        let parsed_levels = match parse_levels_set(bytes, slot_end, &slot) {
            Ok(x) => x,
            Err(e) => {
                proof {
                    if vh {
                        assert(false);
                    }
                }
                return Err(e);
            },
        };
        let data = parsed_levels.0;
        let pos = parsed_levels.1;
        proof {
            if vh {
                vstd::std_specs::vec::axiom_spec_len(&data);
                lemma_snapshot_shape_set(&hs, bytes@);
                lemma_levels_match_set(&hs, data@, bytes@, slot_end as int, pos as int);
            }
        }
        if pos != bytes.len() {
            proof {
                if vh {
                    assert(false);
                }
            }
            return Err(CivSetIoError::ReadData);
        }
        proof {
            if vh {
                crate::tiers::lemma_sums_equal(data@, hs.map.data@, 0, data@.len() as int);
            }
        }
        // reconstruct the counters by walking what was read
        let counted = match recount(&slot, &data) {
            Ok(x) => x,
            Err(_) => {
                proof {
                    if vh {
                        assert(false);
                    }
                }
                return Err(CivSetIoError::ReadData);
            },
        };
        let total = counted.0;
        let tombs = counted.1;
        let inner = CivMap {
            len: total,
            tombs,
            slot,
            data,
            tombs_num: crate::civmap::TOMBS_LIMIT_NUM,
            tombs_den: crate::civmap::TOMBS_LIMIT_DEN,
        };
        let e = CivSet { map: inner };
        proof {
            lemma_assemble_set(&e.map.slot, e.map.data@, bytes@, slot_end as int);
            assert(e.spec_snapshot() == bytes@);
            e.map.lemma_specs();
            e.lemma_specs_set();
        }
        Ok(e)
    }

    /// Snapshot round trip, uniqueness direction for the set: two
    /// well-formed sets with the same snapshot hold the same keys, the
    /// same tombstone count and the same configuration.
    #[verifier::rlimit(100)]
    #[verifier::spinoff_prover]
    pub proof fn lemma_snapshot_determines_set(a: &CivSet, b: &CivSet)
        requires
            a.wf(),
            b.wf(),
            a.spec_snapshot() == b.spec_snapshot(),
        ensures
            a@ == b@,
            a.spec_tombs() == b.spec_tombs(),
            a.slot_capacity() == b.slot_capacity(),
    {
        let bb = a.spec_snapshot();
        a.lemma_specs_set();
        b.lemma_specs_set();
        a.map.lemma_specs();
        b.map.lemma_specs();
        lemma_snapshot_shape_set(a, bb);
        lemma_snapshot_shape_set(b, bb);
        lemma_u64_le_inj(a.map.slot.spec_max() as u64, b.map.slot.spec_max() as u64);
        lemma_u64_le_inj(a.map.slot@.len() as u64, b.map.slot@.len() as u64);
        assert(a.map.slot@.len() == b.map.slot@.len());
        lemma_u64s_le_len(crate::model::keys_of(a.map.slot@));
        lemma_u64s_le_len(crate::model::keys_of(b.map.slot@));
        lemma_u64s_le_inj(
            crate::model::keys_of(a.map.slot@),
            crate::model::keys_of(b.map.slot@),
        );
        crate::model::lemma_seq_to_map_dom_keys(a.map.slot@, b.map.slot@);
        // the level sections coincide
        let spos = 44 + 8 * a.map.slot@.len() as int;
        lemma_concat_parts(
            u64_le(a.map.data@.len() as u64),
            enc_levels_set(a.map.data@),
            u64_le(b.map.data@.len() as u64),
            enc_levels_set(b.map.data@),
        );
        lemma_u64_le_inj(a.map.data@.len() as u64, b.map.data@.len() as u64);
        vstd::std_specs::vec::axiom_spec_len(&a.map.data);
        vstd::std_specs::vec::axiom_spec_len(&b.map.data);
        assert(a.map.data@.len() == b.map.data@.len());
        assert(enc_levels_set(a.map.data@) + Seq::<u8>::empty() =~= enc_levels_set(a.map.data@));
        assert(enc_levels_set(b.map.data@) + Seq::<u8>::empty() =~= enc_levels_set(b.map.data@));
        lemma_enc_levels_set_prefix(
            a.map.data@,
            Seq::<u8>::empty(),
            b.map.data@,
            Seq::<u8>::empty(),
        );
        assert forall|i: int|
            0 <= i < a.map.data@.len() implies (#[trigger] a.map.data@[i]).as_map().dom()
            == b.map.data@[i].as_map().dom() && a.map.data@[i].live_count()
            == b.map.data@[i].live_count() && a.map.data@[i].dead_count()
            == b.map.data@[i].dead_count() && a.map.data@[i].capacity
            == b.map.data@[i].capacity by {
            lemma_fields_same_level_set(a.map.data@[i], b.map.data@[i]);
        }
        crate::tiers::lemma_lmap_dom_equal(a.map.data@, b.map.data@, 0, a.map.data@.len() as int);
        crate::tiers::lemma_sums_equal(a.map.data@, b.map.data@, 0, a.map.data@.len() as int);
        assert(a.map@.dom() =~= b.map@.dom());
    }
}


/// Splitting equal concatenations at the same offset gives equal parts.
proof fn lemma_concat_parts(x1: Seq<u8>, y1: Seq<u8>, x2: Seq<u8>, y2: Seq<u8>)
    requires
        x1 + y1 == x2 + y2,
        x1.len() == x2.len(),
    ensures
        x1 == x2,
        y1 == y2,
{
    assert forall|i: int| 0 <= i < x1.len() implies x1[i] == x2[i] by {
        assert((x1 + y1)[i] == x1[i] && (x2 + y2)[i] == x2[i]);
    }
    assert(x1 =~= x2);
    assert(y1.len() == y2.len()) by {
        assert((x1 + y1).len() == x1.len() + y1.len());
        assert((x2 + y2).len() == x2.len() + y2.len());
        assert((x1 + y1).len() == (x2 + y2).len());
    }
    assert forall|i: int| 0 <= i < y1.len() implies y1[i] == y2[i] by {
        assert((x1 + y1)[x1.len() + i] == y1[i] && (x2 + y2)[x2.len() + i] == y2[i]);
    }
    assert(y1 =~= y2);
}

proof fn lemma_u64_le_inj(a: u64, b: u64)
    requires
        u64_le(a) == u64_le(b),
    ensures
        a == b,
{
    assert((a & 0xff) as u8 == (b & 0xff) as u8 && ((a >> 8) & 0xff) as u8 == ((b >> 8)
        & 0xff) as u8 && ((a >> 16) & 0xff) as u8 == ((b >> 16) & 0xff) as u8 && ((a >> 24)
        & 0xff) as u8 == ((b >> 24) & 0xff) as u8 && ((a >> 32) & 0xff) as u8 == ((b >> 32)
        & 0xff) as u8 && ((a >> 40) & 0xff) as u8 == ((b >> 40) & 0xff) as u8 && ((a >> 48)
        & 0xff) as u8 == ((b >> 48) & 0xff) as u8 && ((a >> 56) & 0xff) as u8 == ((b >> 56)
        & 0xff) as u8) by {
        assert(u64_le(a)[0] == u64_le(b)[0] && u64_le(a)[1] == u64_le(b)[1] && u64_le(a)[2]
            == u64_le(b)[2] && u64_le(a)[3] == u64_le(b)[3] && u64_le(a)[4] == u64_le(b)[4]
            && u64_le(a)[5] == u64_le(b)[5] && u64_le(a)[6] == u64_le(b)[6] && u64_le(a)[7]
            == u64_le(b)[7]);
    }
    assert(((a & 0xff) as u8 == (b & 0xff) as u8 && ((a >> 8) & 0xff) as u8 == ((b >> 8)
        & 0xff) as u8 && ((a >> 16) & 0xff) as u8 == ((b >> 16) & 0xff) as u8 && ((a >> 24)
        & 0xff) as u8 == ((b >> 24) & 0xff) as u8 && ((a >> 32) & 0xff) as u8 == ((b >> 32)
        & 0xff) as u8 && ((a >> 40) & 0xff) as u8 == ((b >> 40) & 0xff) as u8 && ((a >> 48)
        & 0xff) as u8 == ((b >> 48) & 0xff) as u8 && ((a >> 56) & 0xff) as u8 == ((b >> 56)
        & 0xff) as u8) ==> a == b) by (bit_vector);
}

proof fn lemma_u64s_le_inj(s1: Seq<u64>, s2: Seq<u64>)
    requires
        s1.len() == s2.len(),
        u64s_le(s1) == u64s_le(s2),
    ensures
        s1 == s2,
    decreases s1.len(),
{
    if s1.len() > 0 {
        lemma_u64s_le_len(s1.drop_last());
        lemma_u64s_le_len(s2.drop_last());
        lemma_concat_parts(
            u64s_le(s1.drop_last()),
            u64_le(s1.last()),
            u64s_le(s2.drop_last()),
            u64_le(s2.last()),
        );
        lemma_u64s_le_inj(s1.drop_last(), s2.drop_last());
        lemma_u64_le_inj(s1.last(), s2.last());
        assert forall|i: int| 0 <= i < s1.len() implies s1[i] == s2[i] by {
            if i < s1.len() - 1 {
                assert(s1.drop_last()[i] == s2.drop_last()[i]);
            }
        }
        assert(s1 =~= s2);
    } else {
        assert(s1 =~= s2);
    }
}

proof fn lemma_pairs_le_inj(s1: Seq<(u64, u64)>, s2: Seq<(u64, u64)>)
    requires
        s1.len() == s2.len(),
        pairs_le_bytes(s1) == pairs_le_bytes(s2),
    ensures
        s1 == s2,
    decreases s1.len(),
{
    if s1.len() > 0 {
        lemma_pairs_le_bytes_len(s1.drop_last());
        lemma_pairs_le_bytes_len(s2.drop_last());
        assert(pairs_le_bytes(s1) =~= (pairs_le_bytes(s1.drop_last()) + u64_le(s1.last().0))
            + u64_le(s1.last().1));
        assert(pairs_le_bytes(s2) =~= (pairs_le_bytes(s2.drop_last()) + u64_le(s2.last().0))
            + u64_le(s2.last().1));
        lemma_concat_parts(
            pairs_le_bytes(s1.drop_last()) + u64_le(s1.last().0),
            u64_le(s1.last().1),
            pairs_le_bytes(s2.drop_last()) + u64_le(s2.last().0),
            u64_le(s2.last().1),
        );
        lemma_concat_parts(
            pairs_le_bytes(s1.drop_last()),
            u64_le(s1.last().0),
            pairs_le_bytes(s2.drop_last()),
            u64_le(s2.last().0),
        );
        lemma_pairs_le_inj(s1.drop_last(), s2.drop_last());
        lemma_u64_le_inj(s1.last().0, s2.last().0);
        lemma_u64_le_inj(s1.last().1, s2.last().1);
        assert forall|i: int| 0 <= i < s1.len() implies s1[i] == s2[i] by {
            if i < s1.len() - 1 {
                assert(s1.drop_last()[i] == s2.drop_last()[i]);
            }
        }
        assert(s1 =~= s2);
    } else {
        assert(s1 =~= s2);
    }
}

/// Concatenation of byte strings associates.
proof fn lemma_assoc(x: Seq<u8>, y: Seq<u8>, z: Seq<u8>)
    ensures
        (x + y) + z == x + (y + z),
{
    assert((x + y) + z =~= x + (y + z));
}

/// A level section determines the level's contents, whatever follows it.
#[verifier::rlimit(100)]
proof fn lemma_enc_level_prefix(
    l1: crate::level::MapMultiSlot,
    r1: Seq<u8>,
    l2: crate::level::MapMultiSlot,
    r2: Seq<u8>,
)
    requires
        enc_level(l1) + r1 == enc_level(l2) + r2,
    ensures
        l1.capacity == l2.capacity,
        l1.flags.words@ == l2.flags.words@,
        l1.keys@ == l2.keys@,
        l1.values@ == l2.values@,
        r1 == r2,
{
    let w1 = l1.flags.words@;
    let w2 = l2.flags.words@;
    let k1 = l1.keys@;
    let k2 = l2.keys@;
    let v1 = l1.values@;
    let v2 = l2.values@;
    // peel the capacity
    let t1a = u64_le(8) + (u64_le(8) + (u64_le(w1.len() as u64) + (u64s_le(w1) + (u64_le(
        k1.len() as u64,
    ) + (u64s_le(k1) + (u64_le(v1.len() as u64) + u64s_le(v1)))))));
    let t2a = u64_le(8) + (u64_le(8) + (u64_le(w2.len() as u64) + (u64s_le(w2) + (u64_le(
        k2.len() as u64,
    ) + (u64s_le(k2) + (u64_le(v2.len() as u64) + u64s_le(v2)))))));
    lemma_assoc(u64_le(l1.capacity as u64), t1a, r1);
    lemma_assoc(u64_le(l2.capacity as u64), t2a, r2);
    lemma_concat_parts(
        u64_le(l1.capacity as u64),
        t1a + r1,
        u64_le(l2.capacity as u64),
        t2a + r2,
    );
    lemma_u64_le_inj(l1.capacity as u64, l2.capacity as u64);
    // peel the two width fields
    let t1b = u64_le(w1.len() as u64) + (u64s_le(w1) + (u64_le(k1.len() as u64) + (u64s_le(k1) + (
    u64_le(v1.len() as u64) + u64s_le(v1)))));
    let t2b = u64_le(w2.len() as u64) + (u64s_le(w2) + (u64_le(k2.len() as u64) + (u64s_le(k2) + (
    u64_le(v2.len() as u64) + u64s_le(v2)))));
    lemma_assoc(u64_le(8), u64_le(8) + t1b, r1);
    lemma_assoc(u64_le(8), u64_le(8) + t2b, r2);
    lemma_assoc(u64_le(8), t1b, r1);
    lemma_assoc(u64_le(8), t2b, r2);
    lemma_concat_parts(u64_le(8), (u64_le(8) + t1b) + r1, u64_le(8), (u64_le(8) + t2b) + r2);
    lemma_concat_parts(u64_le(8), t1b + r1, u64_le(8), t2b + r2);
    // peel the word count, then the words
    let t1c = u64s_le(w1) + (u64_le(k1.len() as u64) + (u64s_le(k1) + (u64_le(v1.len() as u64)
        + u64s_le(v1))));
    let t2c = u64s_le(w2) + (u64_le(k2.len() as u64) + (u64s_le(k2) + (u64_le(v2.len() as u64)
        + u64s_le(v2))));
    lemma_assoc(u64_le(w1.len() as u64), t1c, r1);
    lemma_assoc(u64_le(w2.len() as u64), t2c, r2);
    lemma_concat_parts(u64_le(w1.len() as u64), t1c + r1, u64_le(w2.len() as u64), t2c + r2);
    lemma_u64_le_inj(w1.len() as u64, w2.len() as u64);
    vstd::std_specs::vec::axiom_spec_len(&l1.flags.words);
    vstd::std_specs::vec::axiom_spec_len(&l2.flags.words);
    assert(w1.len() == w2.len());
    lemma_u64s_le_len(w1);
    lemma_u64s_le_len(w2);
    let t1d = u64_le(k1.len() as u64) + (u64s_le(k1) + (u64_le(v1.len() as u64) + u64s_le(v1)));
    let t2d = u64_le(k2.len() as u64) + (u64s_le(k2) + (u64_le(v2.len() as u64) + u64s_le(v2)));
    lemma_assoc(u64s_le(w1), t1d, r1);
    lemma_assoc(u64s_le(w2), t2d, r2);
    lemma_concat_parts(u64s_le(w1), t1d + r1, u64s_le(w2), t2d + r2);
    lemma_u64s_le_inj(w1, w2);
    // peel the key count, then the keys
    let t1e = u64s_le(k1) + (u64_le(v1.len() as u64) + u64s_le(v1));
    let t2e = u64s_le(k2) + (u64_le(v2.len() as u64) + u64s_le(v2));
    lemma_assoc(u64_le(k1.len() as u64), t1e, r1);
    lemma_assoc(u64_le(k2.len() as u64), t2e, r2);
    lemma_concat_parts(u64_le(k1.len() as u64), t1e + r1, u64_le(k2.len() as u64), t2e + r2);
    lemma_u64_le_inj(k1.len() as u64, k2.len() as u64);
    vstd::std_specs::vec::axiom_spec_len(&l1.keys);
    vstd::std_specs::vec::axiom_spec_len(&l2.keys);
    assert(k1.len() == k2.len());
    lemma_u64s_le_len(k1);
    lemma_u64s_le_len(k2);
    let t1f = u64_le(v1.len() as u64) + u64s_le(v1);
    let t2f = u64_le(v2.len() as u64) + u64s_le(v2);
    lemma_assoc(u64s_le(k1), t1f, r1);
    lemma_assoc(u64s_le(k2), t2f, r2);
    lemma_concat_parts(u64s_le(k1), t1f + r1, u64s_le(k2), t2f + r2);
    lemma_u64s_le_inj(k1, k2);
    // peel the value count, then the values
    lemma_assoc(u64_le(v1.len() as u64), u64s_le(v1), r1);
    lemma_assoc(u64_le(v2.len() as u64), u64s_le(v2), r2);
    lemma_concat_parts(
        u64_le(v1.len() as u64),
        u64s_le(v1) + r1,
        u64_le(v2.len() as u64),
        u64s_le(v2) + r2,
    );
    lemma_u64_le_inj(v1.len() as u64, v2.len() as u64);
    vstd::std_specs::vec::axiom_spec_len(&l1.values);
    vstd::std_specs::vec::axiom_spec_len(&l2.values);
    assert(v1.len() == v2.len());
    lemma_u64s_le_len(v1);
    lemma_u64s_le_len(v2);
    lemma_concat_parts(u64s_le(v1), r1, u64s_le(v2), r2);
    lemma_u64s_le_inj(v1, v2);
}

/// The level list may also be peeled from the front.
#[verifier::rlimit(100)]
proof fn lemma_enc_levels_front(s: Seq<crate::level::MapMultiSlot>)
    requires
        s.len() > 0,
    ensures
        enc_levels(s) == enc_level(s[0]) + enc_levels(s.subrange(1, s.len() as int)),
    decreases s.len(),
{
    if s.len() == 1 {
        reveal_with_fuel(enc_levels, 2);
        assert(s.drop_last().len() == 0);
        assert(s.subrange(1, 1) =~= Seq::<crate::level::MapMultiSlot>::empty());
        assert(enc_levels(s.drop_last()) == Seq::<u8>::empty());
        assert(enc_levels(s.subrange(1, 1)) == Seq::<u8>::empty());
        assert(enc_levels(s) =~= enc_level(s[0]) + enc_levels(s.subrange(1, 1)));
    } else {
        lemma_enc_levels_front(s.drop_last());
        assert(s.drop_last()[0] == s[0]);
        assert(s.drop_last().subrange(1, s.len() - 1) =~= s.subrange(1, s.len() as int).drop_last());
        assert(s.subrange(1, s.len() as int).last() == s.last());
        assert(enc_levels(s) =~= enc_level(s[0]) + enc_levels(s.subrange(1, s.len() as int)));
    }
}

/// Equal level lists of equal length have pairwise equal contents.
proof fn lemma_enc_levels_inj(s1: Seq<crate::level::MapMultiSlot>, s2: Seq<crate::level::MapMultiSlot>)
    requires
        s1.len() == s2.len(),
        enc_levels(s1) == enc_levels(s2),
    ensures
        forall|i: int|
            0 <= i < s1.len() ==> (#[trigger] s1[i]).capacity == s2[i].capacity
                && s1[i].flags.words@ == s2[i].flags.words@ && s1[i].keys@ == s2[i].keys@
                && s1[i].values@ == s2[i].values@,
    decreases s1.len(),
{
    if s1.len() > 0 {
        lemma_enc_levels_front(s1);
        lemma_enc_levels_front(s2);
        lemma_enc_level_prefix(
            s1[0],
            enc_levels(s1.subrange(1, s1.len() as int)),
            s2[0],
            enc_levels(s2.subrange(1, s2.len() as int)),
        );
        lemma_enc_levels_inj(s1.subrange(1, s1.len() as int), s2.subrange(1, s2.len() as int));
        assert forall|i: int|
            0 <= i < s1.len() implies (#[trigger] s1[i]).capacity == s2[i].capacity
            && s1[i].flags.words@ == s2[i].flags.words@ && s1[i].keys@ == s2[i].keys@
            && s1[i].values@ == s2[i].values@ by {
            if i > 0 {
                assert(s1.subrange(1, s1.len() as int)[i - 1] == s1[i]);
                assert(s2.subrange(1, s2.len() as int)[i - 1] == s2[i]);
            }
        }
    }
}

/// The snapshot bytes determine the hot slot and the level bytes.
#[verifier::rlimit(100)]
proof fn lemma_snapshot_sections(a: &CivMap, b: &CivMap)
    requires
        a.spec_snapshot() == b.spec_snapshot(),
        a.slot.wf(),
        b.slot.wf(),
    ensures
        a.slot.spec_max() == b.slot.spec_max(),
        a.slot@ == b.slot@,
        a.data@.len() == b.data@.len(),
        enc_levels(a.data@) == enc_levels(b.data@),
{
    let sa = a.slot@;
    let sb = b.slot@;
    let la = enc_levels(a.data@);
    let lb = enc_levels(b.data@);
    // the fixed header
    let t1a = u32_le(0) + (u32_le(1) + (enc_slot(&a.slot) + (u64_le(a.data@.len() as u64) + la)));
    let t2a = u32_le(0) + (u32_le(1) + (enc_slot(&b.slot) + (u64_le(b.data@.len() as u64) + lb)));
    lemma_concat_parts(magic_map(), t1a, magic_map(), t2a);
    let t1b = u32_le(1) + (enc_slot(&a.slot) + (u64_le(a.data@.len() as u64) + la));
    let t2b = u32_le(1) + (enc_slot(&b.slot) + (u64_le(b.data@.len() as u64) + lb));
    lemma_concat_parts(u32_le(0), t1b, u32_le(0), t2b);
    let t1c = enc_slot(&a.slot) + (u64_le(a.data@.len() as u64) + la);
    let t2c = enc_slot(&b.slot) + (u64_le(b.data@.len() as u64) + lb);
    lemma_concat_parts(u32_le(1), t1c, u32_le(1), t2c);
    // the hot slot section, field by field
    let r1 = u64_le(a.data@.len() as u64) + la;
    let r2 = u64_le(b.data@.len() as u64) + lb;
    let s1a = u64_le(8) + (u64_le(8) + (u64_le(sa.len() as u64) + pairs_le_bytes(sa)));
    let s2a = u64_le(8) + (u64_le(8) + (u64_le(sb.len() as u64) + pairs_le_bytes(sb)));
    lemma_assoc(u64_le(a.slot.spec_max() as u64), s1a, r1);
    lemma_assoc(u64_le(b.slot.spec_max() as u64), s2a, r2);
    lemma_concat_parts(
        u64_le(a.slot.spec_max() as u64),
        s1a + r1,
        u64_le(b.slot.spec_max() as u64),
        s2a + r2,
    );
    lemma_u64_le_inj(a.slot.spec_max() as u64, b.slot.spec_max() as u64);
    let s1b = u64_le(8) + (u64_le(sa.len() as u64) + pairs_le_bytes(sa));
    let s2b = u64_le(8) + (u64_le(sb.len() as u64) + pairs_le_bytes(sb));
    lemma_assoc(u64_le(8), s1b, r1);
    lemma_assoc(u64_le(8), s2b, r2);
    lemma_concat_parts(u64_le(8), s1b + r1, u64_le(8), s2b + r2);
    let s1c = u64_le(sa.len() as u64) + pairs_le_bytes(sa);
    let s2c = u64_le(sb.len() as u64) + pairs_le_bytes(sb);
    lemma_assoc(u64_le(8), s1c, r1);
    lemma_assoc(u64_le(8), s2c, r2);
    lemma_concat_parts(u64_le(8), s1c + r1, u64_le(8), s2c + r2);
    lemma_assoc(u64_le(sa.len() as u64), pairs_le_bytes(sa), r1);
    lemma_assoc(u64_le(sb.len() as u64), pairs_le_bytes(sb), r2);
    lemma_concat_parts(
        u64_le(sa.len() as u64),
        pairs_le_bytes(sa) + r1,
        u64_le(sb.len() as u64),
        pairs_le_bytes(sb) + r2,
    );
    lemma_u64_le_inj(sa.len() as u64, sb.len() as u64);
    assert(sa.len() == sb.len());
    lemma_pairs_le_bytes_len(sa);
    lemma_pairs_le_bytes_len(sb);
    lemma_concat_parts(pairs_le_bytes(sa), r1, pairs_le_bytes(sb), r2);
    lemma_pairs_le_inj(sa, sb);
    // the level count
    lemma_concat_parts(u64_le(a.data@.len() as u64), la, u64_le(b.data@.len() as u64), lb);
    lemma_u64_le_inj(a.data@.len() as u64, b.data@.len() as u64);
    vstd::std_specs::vec::axiom_spec_len(&a.data);
    vstd::std_specs::vec::axiom_spec_len(&b.data);
    assert(a.data@.len() == b.data@.len());
}

impl CivMap {
    /// Snapshot round trip, uniqueness direction: two well-formed
    /// engines with the same snapshot hold the same map, the same key
    /// count and the same tombstone count.  Together with the loader's
    /// re-encoding guarantee: an engine loaded from a dump behaves as
    /// the dumped one.
    #[verifier::rlimit(100)]
    pub proof fn lemma_snapshot_determines_engine(a: &CivMap, b: &CivMap)
        requires
            a.wf(),
            b.wf(),
            a.spec_snapshot() == b.spec_snapshot(),
        ensures
            a@ == b@,
            a.spec_tombs() == b.spec_tombs(),
            a.slot_capacity() == b.slot_capacity(),
    {
        a.lemma_specs();
        b.lemma_specs();
        lemma_snapshot_sections(a, b);
        lemma_enc_levels_inj(a.data@, b.data@);
        // equal fields give equal level maps and equal counts
        assert forall|i: int|
            0 <= i < a.data@.len() implies (#[trigger] a.data@[i]).as_map() == b.data@[i].as_map()
            && a.data@[i].live_count() == b.data@[i].live_count() && a.data@[i].dead_count()
            == b.data@[i].dead_count() by {
            a.data@[i].flags.lemma_same_words(&b.data@[i].flags);
            assert(a.data@[i].pair_seq() =~= b.data@[i].pair_seq());
            crate::model::lemma_masked_equal(
                a.data@[i].pair_seq(),
                a.data@[i].flags@,
                b.data@[i].pair_seq(),
                b.data@[i].flags@,
                0,
                a.data@[i].keys@.len() as int,
            );
        }
        crate::tiers::lemma_lmap_equal(a.data@, b.data@, 0, a.data@.len() as int);
        crate::tiers::lemma_sums_equal(a.data@, b.data@, 0, a.data@.len() as int);
        assert(a.full_map() == b.full_map());
        a.lemma_specs();
        b.lemma_specs();
    }
}


/// The two halves of a concatenation are its two subranges.
proof fn lemma_concat_subrange(x: Seq<u8>, y: Seq<u8>)
    ensures
        (x + y).subrange(0, x.len() as int) == x,
        (x + y).subrange(x.len() as int, (x + y).len() as int) == y,
{
    assert((x + y).subrange(0, x.len() as int) =~= x);
    assert((x + y).subrange(x.len() as int, (x + y).len() as int) =~= y);
}

/// One peel step: a known prefix of the bytes from `off` onward is a
/// subrange there, and the rest continues after it.
proof fn lemma_peel_shape(b: Seq<u8>, off: int, p: Seq<u8>, t: Seq<u8>)
    requires
        0 <= off <= b.len(),
        p + t == b.subrange(off, b.len() as int),
    ensures
        off + p.len() <= b.len(),
        b.subrange(off, off + p.len() as int) == p,
        t == b.subrange(off + p.len() as int, b.len() as int),
{
    lemma_concat_subrange(p, t);
    assert(b.subrange(off, off + p.len() as int) =~= (p + t).subrange(0, p.len() as int));
    assert(t =~= b.subrange(off + p.len() as int, b.len() as int));
}

/// Levels with equal reserved capacity, mask words, keys and values are
/// the same level in every respect the contracts speak of.
proof fn lemma_fields_same_level(l1: crate::level::MapMultiSlot, l2: crate::level::MapMultiSlot)
    requires
        l1.capacity == l2.capacity,
        l1.flags.words@ == l2.flags.words@,
        l1.keys@ == l2.keys@,
        l1.values@ == l2.values@,
    ensures
        l1.as_map() == l2.as_map(),
        l1.live_seq() == l2.live_seq(),
        l1.live_count() == l2.live_count(),
        l1.dead_count() == l2.dead_count(),
        l1.is_empty() == l2.is_empty(),
        l1.wf() == l2.wf(),
{
    l1.flags.lemma_same_words(&l2.flags);
    assert(l1.pair_seq() =~= l2.pair_seq());
    crate::model::lemma_masked_equal(
        l1.pair_seq(),
        l1.flags@,
        l2.pair_seq(),
        l2.flags@,
        0,
        l1.keys@.len() as int,
    );
}

/// A list of level sections of a known count determines every level and
/// whatever bytes follow.
proof fn lemma_enc_levels_prefix(
    s1: Seq<crate::level::MapMultiSlot>,
    r1: Seq<u8>,
    s2: Seq<crate::level::MapMultiSlot>,
    r2: Seq<u8>,
)
    requires
        s1.len() == s2.len(),
        enc_levels(s1) + r1 == enc_levels(s2) + r2,
    ensures
        forall|i: int|
            0 <= i < s1.len() ==> (#[trigger] s1[i]).capacity == s2[i].capacity
                && s1[i].flags.words@ == s2[i].flags.words@ && s1[i].keys@ == s2[i].keys@
                && s1[i].values@ == s2[i].values@,
        r1 == r2,
    decreases s1.len(),
{
    if s1.len() == 0 {
        assert(enc_levels(s1) =~= Seq::<u8>::empty());
        assert(enc_levels(s2) =~= Seq::<u8>::empty());
        assert(r1 =~= enc_levels(s1) + r1);
        assert(r2 =~= enc_levels(s2) + r2);
    } else {
        lemma_enc_levels_front(s1);
        lemma_enc_levels_front(s2);
        let t1 = s1.subrange(1, s1.len() as int);
        let t2 = s2.subrange(1, s2.len() as int);
        lemma_assoc(enc_level(s1[0]), enc_levels(t1), r1);
        lemma_assoc(enc_level(s2[0]), enc_levels(t2), r2);
        lemma_enc_level_prefix(s1[0], enc_levels(t1) + r1, s2[0], enc_levels(t2) + r2);
        lemma_enc_levels_prefix(t1, r1, t2, r2);
        assert forall|i: int|
            0 <= i < s1.len() implies (#[trigger] s1[i]).capacity == s2[i].capacity
            && s1[i].flags.words@ == s2[i].flags.words@ && s1[i].keys@ == s2[i].keys@
            && s1[i].values@ == s2[i].values@ by {
            if i > 0 {
                assert(t1[i - 1] == s1[i] && t2[i - 1] == s2[i]);
            }
        }
    }
}


/// The byte ranges of one level section at offset `off`, field by field.
#[verifier::rlimit(100)]
#[verifier::spinoff_prover]
proof fn lemma_enc_level_shape(l: crate::level::MapMultiSlot, rest: Seq<u8>, b: Seq<u8>, off: int)
    requires
        0 <= off <= b.len(),
        enc_level(l) + rest == b.subrange(off, b.len() as int),
    ensures
        ({
            let wl = l.flags.words@.len() as int;
            let kl = l.keys@.len() as int;
            let vl = l.values@.len() as int;
            let end = off + 48 + 8 * wl + 8 * kl + 8 * vl;
            &&& end <= b.len()
            &&& b.subrange(off, off + 8) == u64_le(l.capacity as u64)
            &&& b.subrange(off + 8, off + 16) == u64_le(8)
            &&& b.subrange(off + 16, off + 24) == u64_le(8)
            &&& b.subrange(off + 24, off + 32) == u64_le(wl as u64)
            &&& b.subrange(off + 32, off + 32 + 8 * wl) == u64s_le(l.flags.words@)
            &&& b.subrange(off + 32 + 8 * wl, off + 40 + 8 * wl) == u64_le(kl as u64)
            &&& b.subrange(off + 40 + 8 * wl, off + 40 + 8 * wl + 8 * kl) == u64s_le(l.keys@)
            &&& b.subrange(off + 40 + 8 * wl + 8 * kl, off + 48 + 8 * wl + 8 * kl) == u64_le(
                vl as u64,
            )
            &&& b.subrange(off + 48 + 8 * wl + 8 * kl, end) == u64s_le(l.values@)
            &&& rest == b.subrange(end, b.len() as int)
        }),
{
    let wl = l.flags.words@.len() as int;
    let kl = l.keys@.len() as int;
    let vl = l.values@.len() as int;
    lemma_u64s_le_len(l.flags.words@);
    lemma_u64s_le_len(l.keys@);
    lemma_u64s_le_len(l.values@);
    let p1 = u64_le(l.capacity as u64);
    let p2 = u64_le(8);
    let p3 = u64_le(8);
    let p4 = u64_le(wl as u64);
    let p5 = u64s_le(l.flags.words@);
    let p6 = u64_le(kl as u64);
    let p7 = u64s_le(l.keys@);
    let p8 = u64_le(vl as u64);
    let p9 = u64s_le(l.values@);
    let t2 = p2 + (p3 + (p4 + (p5 + (p6 + (p7 + (p8 + p9))))));
    let t3 = p3 + (p4 + (p5 + (p6 + (p7 + (p8 + p9)))));
    let t4 = p4 + (p5 + (p6 + (p7 + (p8 + p9))));
    let t5 = p5 + (p6 + (p7 + (p8 + p9)));
    let t6 = p6 + (p7 + (p8 + p9));
    let t7 = p7 + (p8 + p9);
    let t8 = p8 + p9;
    lemma_assoc(p1, t2, rest);
    lemma_peel_shape(b, off, p1, t2 + rest);
    lemma_assoc(p2, t3, rest);
    lemma_peel_shape(b, off + 8, p2, t3 + rest);
    lemma_assoc(p3, t4, rest);
    lemma_peel_shape(b, off + 16, p3, t4 + rest);
    lemma_assoc(p4, t5, rest);
    lemma_peel_shape(b, off + 24, p4, t5 + rest);
    lemma_assoc(p5, t6, rest);
    lemma_peel_shape(b, off + 32, p5, t6 + rest);
    lemma_assoc(p6, t7, rest);
    lemma_peel_shape(b, off + 32 + 8 * wl, p6, t7 + rest);
    lemma_assoc(p7, t8, rest);
    lemma_peel_shape(b, off + 40 + 8 * wl, p7, t8 + rest);
    lemma_assoc(p8, p9, rest);
    lemma_peel_shape(b, off + 40 + 8 * wl + 8 * kl, p8, p9 + rest);
    lemma_peel_shape(b, off + 48 + 8 * wl + 8 * kl, p9, rest);
}

/// The byte ranges of a whole map snapshot: header and hot slot at their
/// fixed offsets, the level sections as the tail.
#[verifier::rlimit(100)]
#[verifier::spinoff_prover]
proof fn lemma_snapshot_shape(e: &CivMap, b: Seq<u8>)
    requires
        e.spec_snapshot() == b,
    ensures
        ({
            let spos = 44 + 16 * e.slot@.len() as int;
            &&& spos + 8 <= b.len()
            &&& b.subrange(0, 4) == magic_map()
            &&& b.subrange(4, 8) == u32_le(0)
            &&& b.subrange(8, 12) == u32_le(1)
            &&& b.subrange(12, 20) == u64_le(e.slot.spec_max() as u64)
            &&& b.subrange(20, 28) == u64_le(8)
            &&& b.subrange(28, 36) == u64_le(8)
            &&& b.subrange(36, 44) == u64_le(e.slot@.len() as u64)
            &&& b.subrange(44, spos) == pairs_le_bytes(e.slot@)
            &&& u64_le(e.data@.len() as u64) + enc_levels(e.data@) == b.subrange(
                spos,
                b.len() as int,
            )
        }),
{
    let spos = 44 + 16 * e.slot@.len() as int;
    lemma_pairs_le_bytes_len(e.slot@);
    let p1 = magic_map();
    let p2 = u32_le(0);
    let p3 = u32_le(1);
    let p4 = u64_le(e.slot.spec_max() as u64);
    let p5 = u64_le(8);
    let p6 = u64_le(8);
    let p7 = u64_le(e.slot@.len() as u64);
    let p8 = pairs_le_bytes(e.slot@);
    let p9 = u64_le(e.data@.len() as u64) + enc_levels(e.data@);
    let t2 = p2 + (p3 + (p4 + (p5 + (p6 + (p7 + (p8 + p9))))));
    let t3 = p3 + (p4 + (p5 + (p6 + (p7 + (p8 + p9)))));
    let t4 = p4 + (p5 + (p6 + (p7 + (p8 + p9))));
    let t5 = p5 + (p6 + (p7 + (p8 + p9)));
    let t6 = p6 + (p7 + (p8 + p9));
    let t7 = p7 + (p8 + p9);
    let t8 = p8 + p9;
    assert(b == p1 + t2) by {
        assert(p4 + (p5 + (p6 + (p7 + (p8 + p9)))) =~= enc_slot(&e.slot) + p9);
        assert(b =~= p1 + t2);
    }
    assert(b.subrange(0, b.len() as int) =~= b);
    lemma_peel_shape(b, 0, p1, t2);
    lemma_peel_shape(b, 4, p2, t3);
    lemma_peel_shape(b, 8, p3, t4);
    lemma_peel_shape(b, 12, p4, t5);
    lemma_peel_shape(b, 20, p5, t6);
    lemma_peel_shape(b, 28, p6, t7);
    lemma_peel_shape(b, 36, p7, t8);
    lemma_peel_shape(b, 44, p8, p9);
}


/// Bytes that some well-formed set would write as its snapshot.
pub open spec fn valid_set_snapshot(bytes: Seq<u8>) -> bool {
    exists|s: CivSet| s.wf() && #[trigger] s.spec_snapshot() == bytes
}

/// Bytes that continue, from `pos`, with one well-formed set level section.
pub(crate) open spec fn valid_level_section_set(b: Seq<u8>, pos: int) -> bool {
    exists|lvl: crate::level::MapMultiSlot, rest: Seq<u8>|
        lvl.wf() && #[trigger] (enc_level_set(lvl) + rest) == b.subrange(pos, b.len() as int)
}

/// Bytes that hold, from `start` to the end, the set level sections of a
/// well-formed cascade over the given hot slot.
pub(crate) open spec fn valid_levels_section_set(
    b: Seq<u8>,
    start: int,
    slot: &crate::hotslot::Slot,
) -> bool {
    exists|d: Seq<crate::level::MapMultiSlot>|
        {
            &&& crate::tiers::all_wf(d)
            &&& crate::tiers::caps_law(d, slot.spec_max())
            &&& crate::tiers::levels_disjoint(d)
            &&& forall|j: int|
                0 <= j < d.len() ==> slot.as_map().dom().disjoint(
                    (#[trigger] d[j]).as_map().dom(),
                )
            &&& crate::tiers::cap_sum(d, 0, d.len() as int) <= usize::MAX as int / 2
            &&& u64_le(d.len() as u64) + #[trigger] enc_levels_set(d) == b.subrange(
                start,
                b.len() as int,
            )
        }
}

/// Set levels with equal reserved capacity, mask words and keys agree in
/// everything the set's contracts speak of; their values may differ.
proof fn lemma_fields_same_level_set(l1: crate::level::MapMultiSlot, l2: crate::level::MapMultiSlot)
    requires
        l1.wf(),
        l2.wf(),
        l1.capacity == l2.capacity,
        l1.flags.words@ == l2.flags.words@,
        l1.keys@ == l2.keys@,
    ensures
        l1.as_map().dom() == l2.as_map().dom(),
        l1.live_count() == l2.live_count(),
        l1.dead_count() == l2.dead_count(),
        l1.is_empty() == l2.is_empty(),
{
    l1.flags.lemma_same_words(&l2.flags);
    crate::model::lemma_masked_len(l1.pair_seq(), l1.flags@, 0, l1.keys@.len() as int);
    crate::model::lemma_masked_len(l2.pair_seq(), l2.flags@, 0, l2.keys@.len() as int);
    assert forall|k: u64| #[trigger] l1.as_map().dom().contains(k) == l2.as_map().dom().contains(
        k,
    ) by {
        l1.lemma_lookup(k);
        l2.lemma_lookup(k);
    }
    assert(l1.as_map().dom() =~= l2.as_map().dom());
}

/// The byte ranges of one set level section at offset `off`.
#[verifier::rlimit(100)]
#[verifier::spinoff_prover]
proof fn lemma_enc_level_set_shape(
    l: crate::level::MapMultiSlot,
    rest: Seq<u8>,
    b: Seq<u8>,
    off: int,
)
    requires
        0 <= off <= b.len(),
        enc_level_set(l) + rest == b.subrange(off, b.len() as int),
    ensures
        ({
            let wl = l.flags.words@.len() as int;
            let kl = l.keys@.len() as int;
            let end = off + 32 + 8 * wl + 8 * kl;
            &&& end <= b.len()
            &&& b.subrange(off, off + 8) == u64_le(l.capacity as u64)
            &&& b.subrange(off + 8, off + 16) == u64_le(8)
            &&& b.subrange(off + 16, off + 24) == u64_le(wl as u64)
            &&& b.subrange(off + 24, off + 24 + 8 * wl) == u64s_le(l.flags.words@)
            &&& b.subrange(off + 24 + 8 * wl, off + 32 + 8 * wl) == u64_le(kl as u64)
            &&& b.subrange(off + 32 + 8 * wl, end) == u64s_le(l.keys@)
            &&& rest == b.subrange(end, b.len() as int)
        }),
{
    let wl = l.flags.words@.len() as int;
    let kl = l.keys@.len() as int;
    lemma_u64s_le_len(l.flags.words@);
    lemma_u64s_le_len(l.keys@);
    let p1 = u64_le(l.capacity as u64);
    let p2 = u64_le(8);
    let p3 = u64_le(wl as u64);
    let p4 = u64s_le(l.flags.words@);
    let p5 = u64_le(kl as u64);
    let p6 = u64s_le(l.keys@);
    let t2 = p2 + (p3 + (p4 + (p5 + p6)));
    let t3 = p3 + (p4 + (p5 + p6));
    let t4 = p4 + (p5 + p6);
    let t5 = p5 + p6;
    lemma_assoc(p1, t2, rest);
    lemma_peel_shape(b, off, p1, t2 + rest);
    lemma_assoc(p2, t3, rest);
    lemma_peel_shape(b, off + 8, p2, t3 + rest);
    lemma_assoc(p3, t4, rest);
    lemma_peel_shape(b, off + 16, p3, t4 + rest);
    lemma_assoc(p4, t5, rest);
    lemma_peel_shape(b, off + 24, p4, t5 + rest);
    lemma_assoc(p5, p6, rest);
    lemma_peel_shape(b, off + 24 + 8 * wl, p5, p6 + rest);
    lemma_peel_shape(b, off + 32 + 8 * wl, p6, rest);
}

/// The byte ranges of a whole set snapshot.
#[verifier::rlimit(100)]
#[verifier::spinoff_prover]
proof fn lemma_snapshot_shape_set(s: &CivSet, b: Seq<u8>)
    requires
        s.spec_snapshot() == b,
    ensures
        ({
            let spos = 44 + 8 * s.map.slot@.len() as int;
            &&& spos + 8 <= b.len()
            &&& b.subrange(0, 4) == magic_set()
            &&& b.subrange(4, 8) == u32_le(0)
            &&& b.subrange(8, 12) == u32_le(1)
            &&& b.subrange(12, 20) == u64_le(s.map.slot.spec_max() as u64)
            &&& b.subrange(20, 28) == u64_le(8)
            &&& b.subrange(28, 36) == u64_le(0)
            &&& b.subrange(36, 44) == u64_le(s.map.slot@.len() as u64)
            &&& b.subrange(44, spos) == u64s_le(crate::model::keys_of(s.map.slot@))
            &&& u64_le(s.map.data@.len() as u64) + enc_levels_set(s.map.data@) == b.subrange(
                spos,
                b.len() as int,
            )
        }),
{
    let spos = 44 + 8 * s.map.slot@.len() as int;
    lemma_u64s_le_len(crate::model::keys_of(s.map.slot@));
    assert(crate::model::keys_of(s.map.slot@).len() == s.map.slot@.len());
    let p1 = magic_set();
    let p2 = u32_le(0);
    let p3 = u32_le(1);
    let p4 = u64_le(s.map.slot.spec_max() as u64);
    let p5 = u64_le(8);
    let p6 = u64_le(0);
    let p7 = u64_le(s.map.slot@.len() as u64);
    let p8 = u64s_le(crate::model::keys_of(s.map.slot@));
    let p9 = u64_le(s.map.data@.len() as u64) + enc_levels_set(s.map.data@);
    let t2 = p2 + (p3 + (p4 + (p5 + (p6 + (p7 + (p8 + p9))))));
    let t3 = p3 + (p4 + (p5 + (p6 + (p7 + (p8 + p9)))));
    let t4 = p4 + (p5 + (p6 + (p7 + (p8 + p9))));
    let t5 = p5 + (p6 + (p7 + (p8 + p9)));
    let t6 = p6 + (p7 + (p8 + p9));
    let t7 = p7 + (p8 + p9);
    let t8 = p8 + p9;
    assert(b == p1 + t2) by {
        assert(p4 + (p5 + (p6 + (p7 + (p8 + p9)))) =~= enc_slot_set(&s.map.slot) + p9);
        assert(b =~= p1 + t2);
    }
    assert(b.subrange(0, b.len() as int) =~= b);
    lemma_peel_shape(b, 0, p1, t2);
    lemma_peel_shape(b, 4, p2, t3);
    lemma_peel_shape(b, 8, p3, t4);
    lemma_peel_shape(b, 12, p4, t5);
    lemma_peel_shape(b, 20, p5, t6);
    lemma_peel_shape(b, 28, p6, t7);
    lemma_peel_shape(b, 36, p7, t8);
    lemma_peel_shape(b, 44, p8, p9);
}

/// The set level list may also be peeled from the front.
#[verifier::rlimit(100)]
proof fn lemma_enc_levels_set_front(s: Seq<crate::level::MapMultiSlot>)
    requires
        s.len() > 0,
    ensures
        enc_levels_set(s) == enc_level_set(s[0]) + enc_levels_set(s.subrange(1, s.len() as int)),
    decreases s.len(),
{
    if s.len() == 1 {
        reveal_with_fuel(enc_levels_set, 2);
        assert(s.drop_last().len() == 0);
        assert(s.subrange(1, 1) =~= Seq::<crate::level::MapMultiSlot>::empty());
        assert(enc_levels_set(s.drop_last()) == Seq::<u8>::empty());
        assert(enc_levels_set(s.subrange(1, 1)) == Seq::<u8>::empty());
        assert(enc_levels_set(s) =~= enc_level_set(s[0]) + enc_levels_set(s.subrange(1, 1)));
    } else {
        lemma_enc_levels_set_front(s.drop_last());
        assert(s.drop_last()[0] == s[0]);
        assert(s.drop_last().subrange(1, s.len() - 1) =~= s.subrange(1, s.len() as int).drop_last());
        assert(s.subrange(1, s.len() as int).last() == s.last());
        assert(enc_levels_set(s) =~= enc_level_set(s[0]) + enc_levels_set(
            s.subrange(1, s.len() as int),
        ));
    }
}

/// A set level section determines the level's capacity, mask and keys,
/// whatever follows it.
#[verifier::rlimit(100)]
#[verifier::spinoff_prover]
proof fn lemma_enc_level_set_prefix(
    l1: crate::level::MapMultiSlot,
    r1: Seq<u8>,
    l2: crate::level::MapMultiSlot,
    r2: Seq<u8>,
)
    requires
        enc_level_set(l1) + r1 == enc_level_set(l2) + r2,
    ensures
        l1.capacity == l2.capacity,
        l1.flags.words@ == l2.flags.words@,
        l1.keys@ == l2.keys@,
        r1 == r2,
{
    let w1 = l1.flags.words@;
    let w2 = l2.flags.words@;
    let k1 = l1.keys@;
    let k2 = l2.keys@;
    let t1a = u64_le(8) + (u64_le(w1.len() as u64) + (u64s_le(w1) + (u64_le(k1.len() as u64)
        + u64s_le(k1))));
    let t2a = u64_le(8) + (u64_le(w2.len() as u64) + (u64s_le(w2) + (u64_le(k2.len() as u64)
        + u64s_le(k2))));
    lemma_assoc(u64_le(l1.capacity as u64), t1a, r1);
    lemma_assoc(u64_le(l2.capacity as u64), t2a, r2);
    lemma_concat_parts(u64_le(l1.capacity as u64), t1a + r1, u64_le(l2.capacity as u64), t2a + r2);
    lemma_u64_le_inj(l1.capacity as u64, l2.capacity as u64);
    let t1b = u64_le(w1.len() as u64) + (u64s_le(w1) + (u64_le(k1.len() as u64) + u64s_le(k1)));
    let t2b = u64_le(w2.len() as u64) + (u64s_le(w2) + (u64_le(k2.len() as u64) + u64s_le(k2)));
    lemma_assoc(u64_le(8), t1b, r1);
    lemma_assoc(u64_le(8), t2b, r2);
    lemma_concat_parts(u64_le(8), t1b + r1, u64_le(8), t2b + r2);
    let t1c = u64s_le(w1) + (u64_le(k1.len() as u64) + u64s_le(k1));
    let t2c = u64s_le(w2) + (u64_le(k2.len() as u64) + u64s_le(k2));
    lemma_assoc(u64_le(w1.len() as u64), t1c, r1);
    lemma_assoc(u64_le(w2.len() as u64), t2c, r2);
    lemma_concat_parts(u64_le(w1.len() as u64), t1c + r1, u64_le(w2.len() as u64), t2c + r2);
    lemma_u64_le_inj(w1.len() as u64, w2.len() as u64);
    vstd::std_specs::vec::axiom_spec_len(&l1.flags.words);
    vstd::std_specs::vec::axiom_spec_len(&l2.flags.words);
    assert(w1.len() == w2.len());
    lemma_u64s_le_len(w1);
    lemma_u64s_le_len(w2);
    let t1d = u64_le(k1.len() as u64) + u64s_le(k1);
    let t2d = u64_le(k2.len() as u64) + u64s_le(k2);
    lemma_assoc(u64s_le(w1), t1d, r1);
    lemma_assoc(u64s_le(w2), t2d, r2);
    lemma_concat_parts(u64s_le(w1), t1d + r1, u64s_le(w2), t2d + r2);
    lemma_u64s_le_inj(w1, w2);
    lemma_assoc(u64_le(k1.len() as u64), u64s_le(k1), r1);
    lemma_assoc(u64_le(k2.len() as u64), u64s_le(k2), r2);
    lemma_concat_parts(
        u64_le(k1.len() as u64),
        u64s_le(k1) + r1,
        u64_le(k2.len() as u64),
        u64s_le(k2) + r2,
    );
    lemma_u64_le_inj(k1.len() as u64, k2.len() as u64);
    vstd::std_specs::vec::axiom_spec_len(&l1.keys);
    vstd::std_specs::vec::axiom_spec_len(&l2.keys);
    assert(k1.len() == k2.len());
    lemma_u64s_le_len(k1);
    lemma_u64s_le_len(k2);
    lemma_concat_parts(u64s_le(k1), r1, u64s_le(k2), r2);
    lemma_u64s_le_inj(k1, k2);
}

/// Equal set level lists of equal length agree level by level.
proof fn lemma_enc_levels_set_prefix(
    s1: Seq<crate::level::MapMultiSlot>,
    r1: Seq<u8>,
    s2: Seq<crate::level::MapMultiSlot>,
    r2: Seq<u8>,
)
    requires
        s1.len() == s2.len(),
        enc_levels_set(s1) + r1 == enc_levels_set(s2) + r2,
    ensures
        forall|i: int|
            0 <= i < s1.len() ==> (#[trigger] s1[i]).capacity == s2[i].capacity
                && s1[i].flags.words@ == s2[i].flags.words@ && s1[i].keys@ == s2[i].keys@,
        r1 == r2,
    decreases s1.len(),
{
    if s1.len() == 0 {
        assert(enc_levels_set(s1) =~= Seq::<u8>::empty());
        assert(enc_levels_set(s2) =~= Seq::<u8>::empty());
        assert(r1 =~= enc_levels_set(s1) + r1);
        assert(r2 =~= enc_levels_set(s2) + r2);
    } else {
        lemma_enc_levels_set_front(s1);
        lemma_enc_levels_set_front(s2);
        let t1 = s1.subrange(1, s1.len() as int);
        let t2 = s2.subrange(1, s2.len() as int);
        lemma_assoc(enc_level_set(s1[0]), enc_levels_set(t1), r1);
        lemma_assoc(enc_level_set(s2[0]), enc_levels_set(t2), r2);
        lemma_enc_level_set_prefix(s1[0], enc_levels_set(t1) + r1, s2[0], enc_levels_set(t2) + r2);
        lemma_enc_levels_set_prefix(t1, r1, t2, r2);
        assert forall|i: int|
            0 <= i < s1.len() implies (#[trigger] s1[i]).capacity == s2[i].capacity
            && s1[i].flags.words@ == s2[i].flags.words@ && s1[i].keys@ == s2[i].keys@ by {
            if i > 0 {
                assert(t1[i - 1] == s1[i] && t2[i - 1] == s2[i]);
            }
        }
    }
}

/// Stepping through a well-formed set cascade's sections.
proof fn lemma_levels_step_set(hd: Seq<crate::level::MapMultiSlot>, b: Seq<u8>, i: int, pos: int)
    requires
        0 <= i < hd.len(),
        crate::tiers::all_wf(hd),
        0 <= pos <= b.len(),
        enc_levels_set(hd.subrange(i, hd.len() as int)) == b.subrange(pos, b.len() as int),
    ensures
        enc_level_set(hd[i]) + enc_levels_set(hd.subrange(i + 1, hd.len() as int)) == b.subrange(
            pos,
            b.len() as int,
        ),
        valid_level_section_set(b, pos),
{
    lemma_enc_levels_set_front(hd.subrange(i, hd.len() as int));
    assert(hd.subrange(i, hd.len() as int)[0] == hd[i]);
    assert(hd.subrange(i, hd.len() as int).subrange(1, hd.len() - i) =~= hd.subrange(
        i + 1,
        hd.len() as int,
    ));
    assert(hd[i].wf());
}

/// The parsed set section of level `i` matches the cascade's level in
/// capacity, mask and keys; its values are the loader's zeroes.
#[verifier::rlimit(100)]
#[verifier::spinoff_prover]
proof fn lemma_levels_det_set(
    hd: Seq<crate::level::MapMultiSlot>,
    b: Seq<u8>,
    i: int,
    pos: int,
    newpos: int,
    lvl: crate::level::MapMultiSlot,
)
    requires
        0 <= i < hd.len(),
        crate::tiers::all_wf(hd),
        lvl.wf(),
        0 <= pos <= newpos <= b.len(),
        enc_levels_set(hd.subrange(i, hd.len() as int)) == b.subrange(pos, b.len() as int),
        enc_level_set(lvl) == b.subrange(pos, newpos),
    ensures
        lvl.capacity == hd[i].capacity,
        lvl.flags.words@ == hd[i].flags.words@,
        lvl.keys@ == hd[i].keys@,
        lvl.as_map().dom() == hd[i].as_map().dom(),
        lvl.live_count() == hd[i].live_count(),
        enc_levels_set(hd.subrange(i + 1, hd.len() as int)) == b.subrange(newpos, b.len() as int),
{
    lemma_levels_step_set(hd, b, i, pos);
    assert(b.subrange(pos, b.len() as int) =~= b.subrange(pos, newpos) + b.subrange(
        newpos,
        b.len() as int,
    ));
    lemma_enc_level_set_prefix(
        lvl,
        b.subrange(newpos, b.len() as int),
        hd[i],
        enc_levels_set(hd.subrange(i + 1, hd.len() as int)),
    );
    lemma_fields_same_level_set(lvl, hd[i]);
}

} // verus!
