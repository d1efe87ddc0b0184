//! Permissive UTF-16LE decoding for the double-byte CSV variant: byte pairs
//! become little-endian code units, surrogate pairs combine, and any lone
//! surrogate becomes the replacement character. The output is UTF-8 bytes,
//! which the CSV record handling then splits and classifies.

use vstd::prelude::*;

verus! {

/// Little-endian 16-bit code units of an even-length byte prefix.
pub open spec fn units_of(s: Seq<u8>) -> Seq<u16> {
    Seq::new((s.len() / 2) as nat, |i: int| (s[2 * i] + 256 * s[2 * i + 1]) as u16)
}

pub open spec fn is_high_surrogate(u: u16) -> bool {
    0xd800 <= u < 0xdc00
}

pub open spec fn is_low_surrogate(u: u16) -> bool {
    0xdc00 <= u < 0xe000
}

/// The three UTF-8 bytes of the replacement character.
pub open spec fn replacement() -> Seq<u8> {
    seq![0xefu8, 0xbfu8, 0xbdu8]
}

/// UTF-8 encoding of a code point below 0x10000 that is not a surrogate.
pub open spec fn enc_bmp(u: u16) -> Seq<u8> {
    if u < 0x80 {
        seq![u as u8]
    } else if u < 0x800 {
        seq![(0xc0 + u / 0x40) as u8, (0x80 + u % 0x40) as u8]
    } else {
        seq![(0xe0 + u / 0x1000) as u8, (0x80 + (u / 0x40) % 0x40) as u8, (0x80 + u % 0x40) as u8]
    }
}

/// UTF-8 encoding of the code point written by a surrogate pair.
pub open spec fn enc_pair(hi: u16, lo: u16) -> Seq<u8> {
    let cp = 0x10000 + (hi - 0xd800) * 0x400 + (lo - 0xdc00);
    seq![
        (0xf0 + cp / 0x40000) as u8,
        (0x80 + (cp / 0x1000) % 0x40) as u8,
        (0x80 + (cp / 0x40) % 0x40) as u8,
        (0x80 + cp % 0x40) as u8,
    ]
}

/// Permissive decode of a unit sequence: surrogate pairs combine, lone
/// surrogates become the replacement character, everything else maps
/// directly.
pub open spec fn utf16_to_utf8(units: Seq<u16>) -> Seq<u8>
    decreases units.len(),
{
    if units.len() == 0 {
        Seq::empty()
    } else {
        let u = units[0];
        if is_high_surrogate(u) {
            if units.len() >= 2 && is_low_surrogate(units[1]) {
                enc_pair(u, units[1]) + utf16_to_utf8(units.skip(2))
            } else {
                replacement() + utf16_to_utf8(units.skip(1))
            }
        } else if is_low_surrogate(u) {
            replacement() + utf16_to_utf8(units.skip(1))
        } else {
            enc_bmp(u) + utf16_to_utf8(units.skip(1))
        }
    }
}

/// Last index holding `u`, if any.
pub open spec fn rfind_unit(s: Seq<u16>, u: u16) -> Option<int>
    decreases s.len(),
{
    if s.len() == 0 {
        None
    } else if s[s.len() - 1] == u {
        Some(s.len() - 1)
    } else {
        rfind_unit(s.take(s.len() - 1), u)
    }
}

pub proof fn lemma_rfind_unit(s: Seq<u16>, u: u16)
    ensures
        match rfind_unit(s, u) {
            Some(i) => 0 <= i < s.len() && s[i] == u && forall|j: int| i < j < s.len() ==> s[j] != u,
            None => forall|j: int| 0 <= j < s.len() ==> s[j] != u,
        },
    decreases s.len(),
{
    if s.len() == 0 {
    } else if s[s.len() - 1] == u {
    } else {
        lemma_rfind_unit(s.take(s.len() - 1), u);
        match rfind_unit(s.take(s.len() - 1), u) {
            Some(i) => {
                assert(s.take(s.len() - 1)[i] == s[i]);
                assert forall|j: int| i < j < s.len() implies s[j] != u by {
                    if j < s.len() - 1 {
                        assert(s[j] == s.take(s.len() - 1)[j]);
                    }
                }
            },
            None => {
                assert forall|j: int| 0 <= j < s.len() implies s[j] != u by {
                    if j < s.len() - 1 {
                        assert(s[j] == s.take(s.len() - 1)[j]);
                    }
                }
            },
        }
    }
}

/// Executable last-occurrence search for a single unit.
#[verifier::loop_isolation(false)]
pub fn scan_unit_back(s: &[u16], u: u16) -> (r: Option<usize>)
    ensures
        match r {
            Some(i) => rfind_unit(s@, u) == Some(i as int),
            None => rfind_unit(s@, u) is None,
        },
{
    let mut i: usize = s.len();
    while i > 0
        invariant
            0 <= i <= s@.len(),
            forall|j: int| i <= j < s@.len() ==> s@[j] != u,
        decreases i,
    {
        i -= 1;
        if s[i] == u {
            proof {
                lemma_rfind_unit(s@, u);
            }
            return Some(i);
        }
    }
    proof {
        lemma_rfind_unit(s@, u);
    }
    None
}

/// The code units of the even prefix of `s`.
#[verifier::loop_isolation(false)]
pub fn units_from(s: &[u8]) -> (out: Vec<u16>)
    ensures
        out@ == units_of(s@.take(2 * (s@.len() as int / 2))),
{
    let half = s.len() / 2;
    let ghost even = s@.take(2 * (s@.len() as int / 2));
    let mut out: Vec<u16> = Vec::new();
    let mut i: usize = 0;
    while i < half
        invariant
            0 <= i <= half,
            half == s@.len() / 2,
            even == s@.take(2 * (s@.len() as int / 2)),
            out@.len() == i,
            forall|j: int| 0 <= j < i ==> out@[j] == units_of(even)[j],
        decreases half - i,
    {
        let lo = s[2 * i];
        let hi = s[2 * i + 1];
        let u: u16 = (lo as u16) + 256u16 * (hi as u16);
        proof {
            assert(even[2 * i as int] == s@[2 * i as int]);
            assert(even[2 * i as int + 1] == s@[2 * i as int + 1]);
        }
        out.push(u);
        i += 1;
    }
    proof {
        assert(out@ =~= units_of(even));
    }
    out
}

/// Executable decode mirroring [`utf16_to_utf8`].
#[verifier::loop_isolation(false)]
pub fn decode_units(units: &[u16]) -> (out: Vec<u8>)
    ensures
        out@ == utf16_to_utf8(units@),
{
    let n = units.len();
    let mut out: Vec<u8> = Vec::new();
    let mut i: usize = 0;
    proof {
        assert(units@.skip(0) =~= units@);
        assert(utf16_to_utf8(units@) =~= out@ + utf16_to_utf8(units@.skip(0)));
    }
    while i < n
        invariant
            0 <= i <= n,
            n == units@.len(),
            utf16_to_utf8(units@) == out@ + utf16_to_utf8(units@.skip(i as int)),
        decreases n - i,
    {
        let ghost rest = units@.skip(i as int);
        let ghost out0 = out@;
        proof {
            assert(rest[0] == units@[i as int]);
        }
        let u = units[i];
        if 0xd800 <= u && u < 0xdc00 {
            if i + 1 < n && 0xdc00 <= units[i + 1] && units[i + 1] < 0xe000 {
                let lo32 = units[i + 1] as u32;
                let cp: u32 = 0x10000u32 + (u as u32 - 0xd800u32) * 0x400u32 + (lo32 - 0xdc00u32);
                out.push((0xf0u32 + cp / 0x40000u32) as u8);
                out.push((0x80u32 + (cp / 0x1000u32) % 0x40u32) as u8);
                out.push((0x80u32 + (cp / 0x40u32) % 0x40u32) as u8);
                out.push((0x80u32 + cp % 0x40u32) as u8);
                proof {
                    assert(rest[1] == units@[i + 1]);
                    assert(rest.len() >= 2 && is_low_surrogate(rest[1]));
                    assert(out@ =~= out0 + enc_pair(rest[0], rest[1]));
                    assert(rest.skip(2) =~= units@.skip(i + 2));
                    assert(utf16_to_utf8(rest) == enc_pair(rest[0], rest[1]) + utf16_to_utf8(
                        units@.skip(i + 2),
                    ));
                    assert(utf16_to_utf8(units@) =~= out@ + utf16_to_utf8(units@.skip(i + 2)));
                }
                i += 2;
            } else {
                out.push(0xefu8);
                out.push(0xbfu8);
                out.push(0xbdu8);
                proof {
                    assert(!(rest.len() >= 2 && is_low_surrogate(rest[1]))) by {
                        if rest.len() >= 2 {
                            assert(rest[1] == units@[i + 1]);
                        }
                    }
                    assert(out@ =~= out0 + replacement());
                    assert(rest.skip(1) =~= units@.skip(i + 1));
                    assert(utf16_to_utf8(rest) == replacement() + utf16_to_utf8(
                        units@.skip(i + 1),
                    ));
                    assert(utf16_to_utf8(units@) =~= out@ + utf16_to_utf8(units@.skip(i + 1)));
                }
                i += 1;
            }
        } else if 0xdc00 <= u && u < 0xe000 {
            out.push(0xefu8);
            out.push(0xbfu8);
            out.push(0xbdu8);
            proof {
                assert(out@ =~= out0 + replacement());
                assert(rest.skip(1) =~= units@.skip(i + 1));
                assert(utf16_to_utf8(rest) == replacement() + utf16_to_utf8(units@.skip(i + 1)));
                assert(utf16_to_utf8(units@) =~= out@ + utf16_to_utf8(units@.skip(i + 1)));
            }
            i += 1;
        } else {
            if u < 0x80 {
                out.push(u as u8);
            } else if u < 0x800 {
                out.push((0xc0u16 + u / 0x40u16) as u8);
                out.push((0x80u16 + u % 0x40u16) as u8);
            } else {
                out.push((0xe0u16 + u / 0x1000u16) as u8);
                out.push((0x80u16 + (u / 0x40u16) % 0x40u16) as u8);
                out.push((0x80u16 + u % 0x40u16) as u8);
            }
            proof {
                assert(out@ =~= out0 + enc_bmp(rest[0]));
                assert(rest.skip(1) =~= units@.skip(i + 1));
                assert(utf16_to_utf8(rest) == enc_bmp(rest[0]) + utf16_to_utf8(
                    units@.skip(i + 1),
                ));
                assert(utf16_to_utf8(units@) =~= out@ + utf16_to_utf8(units@.skip(i + 1)));
            }
            i += 1;
        }
    }
    proof {
        assert(units@.skip(n as int) =~= Seq::<u16>::empty());
        assert(out@ =~= utf16_to_utf8(units@));
    }
    out
}

} // verus!
