//! The binary snapshot codec.
//!
//! The whole profile store is persisted as one compact, self-describing
//! byte string: little-endian fixed-width integers, length-prefixed
//! strings of 32-bit scalar values, and one tag byte in front of every
//! tagged value.  Encoding and decoding are specified by pure functions
//! over byte sequences, the executable code is proved to compute exactly
//! those functions, and decoding an encoding is proved to give back the
//! value that went in.

use vstd::bytes::{
    spec_u128_to_le_bytes, spec_u32_to_le_bytes, spec_u64_to_le_bytes, u128_to_le_bytes,
    u32_to_le_bytes, u64_to_le_bytes,
};
use vstd::prelude::*;

use crate::profile::{
    entries_of, flags_of, FFlagValue, FlagView, Profile, ProfileError, ProfileManager, ProfileView,
    Renderer, RobloxType,
};
use vstd::string::StrSliceExecFns;

verus! {

// ---------------------------------------------------------------------------
// Encoding, as pure functions over the mathematical values.
// ---------------------------------------------------------------------------
/// One byte.
pub open spec fn enc_u8(x: u8) -> Seq<u8> {
    seq![x]
}

/// Four bytes, little endian.
pub open spec fn enc_u32(x: u32) -> Seq<u8> {
    spec_u32_to_le_bytes(x)
}

/// Eight bytes, little endian.
pub open spec fn enc_u64(x: u64) -> Seq<u8> {
    spec_u64_to_le_bytes(x)
}

/// Sixteen bytes, little endian.
pub open spec fn enc_u128(x: u128) -> Seq<u8> {
    spec_u128_to_le_bytes(x)
}

/// A character: its scalar value, as four little-endian bytes.
pub open spec fn enc_char(c: char) -> Seq<u8> {
    enc_u32(c as u32)
}

/// The characters of a string, back to back.
pub open spec fn enc_chars(s: Seq<char>) -> Seq<u8>
    decreases s.len(),
{
    if s.len() == 0 {
        Seq::empty()
    } else {
        enc_char(s[0]) + enc_chars(s.drop_first())
    }
}

/// A string: its character count as a u64, then its characters.
pub open spec fn enc_str(s: Seq<char>) -> Seq<u8> {
    enc_u64(s.len() as u64) + enc_chars(s)
}

// ---------------------------------------------------------------------------
// Decoding, as pure functions from a byte sequence and a position to the
// decoded value and the next position.  Decoders are strict: they accept
// exactly the byte strings the encoders produce.
// ---------------------------------------------------------------------------
/// Read one byte.
pub open spec fn dec_u8(b: Seq<u8>, pos: int) -> Option<(u8, int)> {
    if 0 <= pos && pos + 1 <= b.len() {
        Option::Some((b[pos], pos + 1))
    } else {
        Option::None
    }
}

/// Read four little-endian bytes.
pub open spec fn dec_u32(b: Seq<u8>, pos: int) -> Option<(u32, int)> {
    if 0 <= pos && pos + 4 <= b.len() {
        Option::Some((vstd::bytes::spec_u32_from_le_bytes(b.subrange(pos, pos + 4)), pos + 4))
    } else {
        Option::None
    }
}

/// Read eight little-endian bytes.
pub open spec fn dec_u64(b: Seq<u8>, pos: int) -> Option<(u64, int)> {
    if 0 <= pos && pos + 8 <= b.len() {
        Option::Some((vstd::bytes::spec_u64_from_le_bytes(b.subrange(pos, pos + 8)), pos + 8))
    } else {
        Option::None
    }
}

/// Read sixteen little-endian bytes.
pub open spec fn dec_u128(b: Seq<u8>, pos: int) -> Option<(u128, int)> {
    if 0 <= pos && pos + 16 <= b.len() {
        Option::Some((vstd::bytes::spec_u128_from_le_bytes(b.subrange(pos, pos + 16)), pos + 16))
    } else {
        Option::None
    }
}

/// The 32-bit values that are Unicode scalar values, hence characters.
pub open spec fn valid_scalar(u: u32) -> bool {
    u <= 0x10FFFF && !(0xD800 <= u <= 0xDFFF)
}

/// Read one character; reject values that are not scalar values.
pub open spec fn dec_char(b: Seq<u8>, pos: int) -> Option<(char, int)> {
    match dec_u32(b, pos) {
        Option::Some((u, p)) => if valid_scalar(u) {
            Option::Some((u as char, p))
        } else {
            Option::None
        },
        Option::None => Option::None,
    }
}

/// Read exactly `n` characters.
pub open spec fn dec_chars(b: Seq<u8>, pos: int, n: nat) -> Option<(Seq<char>, int)>
    decreases n,
{
    if n == 0 {
        Option::Some((Seq::empty(), pos))
    } else {
        match dec_char(b, pos) {
            Option::Some((c, p1)) => match dec_chars(b, p1, (n - 1) as nat) {
                Option::Some((s, p2)) => Option::Some((seq![c] + s, p2)),
                Option::None => Option::None,
            },
            Option::None => Option::None,
        }
    }
}

/// Read a length-prefixed string.
pub open spec fn dec_str(b: Seq<u8>, pos: int) -> Option<(Seq<char>, int)> {
    match dec_u64(b, pos) {
        Option::Some((n, p1)) => dec_chars(b, p1, n as nat),
        Option::None => Option::None,
    }
}

// ---------------------------------------------------------------------------
// Round-trip lemmas: a decoder, pointed at the bytes its encoder wrote,
// reads back the encoded value and stops right after it.
// ---------------------------------------------------------------------------
/// Splitting a subrange known to be a concatenation.
proof fn lemma_subrange_split(b: Seq<u8>, pos: int, x: Seq<u8>, y: Seq<u8>)
    requires
        0 <= pos,
        pos + x.len() + y.len() <= b.len(),
        b.subrange(pos, pos + x.len() + y.len()) == x + y,
    ensures
        b.subrange(pos, pos + x.len()) == x,
        b.subrange(pos + x.len(), pos + x.len() + y.len()) == y,
{
    let whole = b.subrange(pos, pos + x.len() + y.len());
    assert forall|i: int| 0 <= i < x.len() implies b.subrange(pos, pos + x.len())[i] == x[i] by {
        assert(b.subrange(pos, pos + x.len())[i] == b[pos + i]);
        assert(whole[i] == b[pos + i]);
        assert(whole[i] == (x + y)[i]);
    }
    assert(b.subrange(pos, pos + x.len()) =~= x);
    assert forall|i: int| 0 <= i < y.len() implies b.subrange(
        pos + x.len(),
        pos + x.len() + y.len(),
    )[i] == y[i] by {
        assert(b.subrange(pos + x.len(), pos + x.len() + y.len())[i] == b[pos + x.len() + i]);
        assert(whole[x.len() + i] == b[pos + x.len() + i]);
        assert(whole[x.len() + i] == (x + y)[x.len() + i]);
        assert((x + y)[x.len() + i] == y[i]);
    }
    assert(b.subrange(pos + x.len(), pos + x.len() + y.len()) =~= y);
}

proof fn lemma_dec_enc_u8(b: Seq<u8>, pos: int, x: u8)
    requires
        0 <= pos,
        pos + 1 <= b.len(),
        b.subrange(pos, pos + 1) == enc_u8(x),
    ensures
        dec_u8(b, pos) == Option::Some((x, pos + 1)),
{
    assert(b[pos] == b.subrange(pos, pos + 1)[0]);
}

proof fn lemma_dec_enc_u32(b: Seq<u8>, pos: int, x: u32)
    requires
        0 <= pos,
        pos + 4 <= b.len(),
        b.subrange(pos, pos + 4) == enc_u32(x),
    ensures
        dec_u32(b, pos) == Option::Some((x, pos + 4)),
{
    vstd::bytes::lemma_auto_spec_u32_to_from_le_bytes();
    assert(spec_u32_to_le_bytes(x).len() == 4);
}

proof fn lemma_dec_enc_u64(b: Seq<u8>, pos: int, x: u64)
    requires
        0 <= pos,
        pos + 8 <= b.len(),
        b.subrange(pos, pos + 8) == enc_u64(x),
    ensures
        dec_u64(b, pos) == Option::Some((x, pos + 8)),
{
    vstd::bytes::lemma_auto_spec_u64_to_from_le_bytes();
}

proof fn lemma_dec_enc_u128(b: Seq<u8>, pos: int, x: u128)
    requires
        0 <= pos,
        pos + 16 <= b.len(),
        b.subrange(pos, pos + 16) == enc_u128(x),
    ensures
        dec_u128(b, pos) == Option::Some((x, pos + 16)),
{
    vstd::bytes::lemma_auto_spec_u128_to_from_le_bytes();
    assert(spec_u128_to_le_bytes(x).len() == 16);
}

proof fn lemma_dec_enc_char(b: Seq<u8>, pos: int, c: char)
    requires
        0 <= pos,
        pos + 4 <= b.len(),
        b.subrange(pos, pos + 4) == enc_char(c),
    ensures
        dec_char(b, pos) == Option::Some((c, pos + 4)),
{
    lemma_dec_enc_u32(b, pos, c as u32);
    vstd::utf8::char_is_scalar(c);
    assert(valid_scalar(c as u32));
    vstd::utf8::char_u32_cast(c, c as u32);
}

/// Each character takes four bytes.
pub proof fn lemma_enc_chars_len(s: Seq<char>)
    ensures
        enc_chars(s).len() == 4 * s.len(),
    decreases s.len(),
{
    vstd::bytes::lemma_auto_spec_u32_to_from_le_bytes();
    if s.len() > 0 {
        lemma_enc_chars_len(s.drop_first());
    }
}

/// Appending a character extends the encoding at the back.
pub proof fn lemma_enc_chars_push(s: Seq<char>, c: char)
    ensures
        enc_chars(s.push(c)) == enc_chars(s) + enc_char(c),
    decreases s.len(),
{
    let t = s.push(c);
    if s.len() == 0 {
        assert(t[0] == c);
        assert(t.drop_first() =~= Seq::<char>::empty());
        assert(enc_chars(t) == enc_char(c) + enc_chars(Seq::<char>::empty()));
        assert(enc_char(c) + Seq::<u8>::empty() =~= enc_char(c));
        assert(enc_chars(s) + enc_char(c) =~= enc_char(c));
    } else {
        assert(t.drop_first() =~= s.drop_first().push(c));
        lemma_enc_chars_push(s.drop_first(), c);
        assert(t[0] == s[0]);
        assert(enc_char(s[0]) + (enc_chars(s.drop_first()) + enc_char(c)) =~= (enc_char(s[0])
            + enc_chars(s.drop_first())) + enc_char(c));
    }
}

proof fn lemma_dec_enc_chars(b: Seq<u8>, pos: int, s: Seq<char>)
    requires
        0 <= pos,
        pos + 4 * s.len() <= b.len(),
        b.subrange(pos, pos + 4 * s.len()) == enc_chars(s),
    ensures
        dec_chars(b, pos, s.len()) == Option::Some((s, pos + 4 * s.len())),
    decreases s.len(),
{
    if s.len() > 0 {
        let rest = s.drop_first();
        vstd::bytes::lemma_auto_spec_u32_to_from_le_bytes();
        assert(enc_char(s[0]).len() == 4);
        lemma_enc_chars_len(rest);
        lemma_subrange_split(b, pos, enc_char(s[0]), enc_chars(rest));
        lemma_dec_enc_char(b, pos, s[0]);
        lemma_dec_enc_chars(b, pos + 4, rest);
        assert(seq![s[0]] + rest =~= s);
    }
}

pub proof fn lemma_dec_enc_str(b: Seq<u8>, pos: int, s: Seq<char>)
    requires
        0 <= pos,
        pos + enc_str(s).len() <= b.len(),
        b.subrange(pos, pos + enc_str(s).len()) == enc_str(s),
        s.len() < 0x1_0000_0000_0000_0000,
    ensures
        dec_str(b, pos) == Option::Some((s, pos + enc_str(s).len())),
{
    vstd::bytes::lemma_auto_spec_u64_to_from_le_bytes();
    lemma_enc_chars_len(s);
    lemma_subrange_split(b, pos, enc_u64(s.len() as u64), enc_chars(s));
    lemma_dec_enc_u64(b, pos, s.len() as u64);
    lemma_dec_enc_chars(b, pos + 8, s);
}

// ---------------------------------------------------------------------------
// Tagged values and records.
// ---------------------------------------------------------------------------
/// The tag byte of an application variant.
pub open spec fn roblox_tag(t: RobloxType) -> u8 {
    match t {
        RobloxType::RobloxPlayer => 0,
        RobloxType::RobloxStudio => 1,
    }
}

/// The tag byte of a render backend.
pub open spec fn renderer_tag(t: Renderer) -> u8 {
    match t {
        Renderer::D3D11 => 0,
        Renderer::Vulkan => 1,
        Renderer::OpenGL => 2,
    }
}

/// A flag value: a tag byte, then the payload.
pub open spec fn enc_flag(v: FlagView) -> Seq<u8> {
    match v {
        FlagView::Text(s) => enc_u8(0) + enc_str(s),
        FlagView::Number(n) => enc_u8(1) + enc_u64(n as u64),
        FlagView::Boolean(b) => enc_u8(2) + enc_u8(if b { 1 } else { 0 }),
    }
}

/// A named flag: the name, then the value.
pub open spec fn enc_flag_pair(p: (Seq<char>, FlagView)) -> Seq<u8> {
    enc_str(p.0) + enc_flag(p.1)
}

/// Named flags, back to back.
pub open spec fn enc_flag_seq(s: Seq<(Seq<char>, FlagView)>) -> Seq<u8>
    decreases s.len(),
{
    if s.len() == 0 {
        Seq::empty()
    } else {
        enc_flag_pair(s[0]) + enc_flag_seq(s.drop_first())
    }
}

/// A profile: name, variant tag, backend tag, then its flags with their
/// count in front.
pub open spec fn enc_profile(p: ProfileView) -> Seq<u8> {
    enc_str(p.name) + enc_u8(roblox_tag(p.roblox)) + enc_u8(renderer_tag(p.renderer)) + enc_u64(
        p.fflags.len() as u64,
    ) + enc_flag_seq(p.fflags)
}

/// A store entry: the identifier, then the profile.
pub open spec fn enc_entry(e: (u128, ProfileView)) -> Seq<u8> {
    enc_u128(e.0) + enc_profile(e.1)
}

/// Store entries, back to back.
pub open spec fn enc_entry_seq(s: Seq<(u128, ProfileView)>) -> Seq<u8>
    decreases s.len(),
{
    if s.len() == 0 {
        Seq::empty()
    } else {
        enc_entry(s[0]) + enc_entry_seq(s.drop_first())
    }
}

/// The whole store: the entry count, then the entries.
pub open spec fn enc_manager(s: Seq<(u128, ProfileView)>) -> Seq<u8> {
    enc_u64(s.len() as u64) + enc_entry_seq(s)
}

/// Read a flag value.
pub open spec fn dec_flag(b: Seq<u8>, pos: int) -> Option<(FlagView, int)> {
    match dec_u8(b, pos) {
        Option::Some((tag, p1)) => if tag == 0 {
            match dec_str(b, p1) {
                Option::Some((s, p2)) => Option::Some((FlagView::Text(s), p2)),
                Option::None => Option::None,
            }
        } else if tag == 1 {
            match dec_u64(b, p1) {
                Option::Some((u, p2)) => Option::Some((FlagView::Number(u as i64), p2)),
                Option::None => Option::None,
            }
        } else if tag == 2 {
            match dec_u8(b, p1) {
                Option::Some((x, p2)) => if x == 0 {
                    Option::Some((FlagView::Boolean(false), p2))
                } else if x == 1 {
                    Option::Some((FlagView::Boolean(true), p2))
                } else {
                    Option::None
                },
                Option::None => Option::None,
            }
        } else {
            Option::None
        },
        Option::None => Option::None,
    }
}

/// Read a named flag.
pub open spec fn dec_flag_pair(b: Seq<u8>, pos: int) -> Option<((Seq<char>, FlagView), int)> {
    match dec_str(b, pos) {
        Option::Some((k, p1)) => match dec_flag(b, p1) {
            Option::Some((v, p2)) => Option::Some(((k, v), p2)),
            Option::None => Option::None,
        },
        Option::None => Option::None,
    }
}

/// Read exactly `n` named flags.
pub open spec fn dec_flag_seq(b: Seq<u8>, pos: int, n: nat) -> Option<
    (Seq<(Seq<char>, FlagView)>, int),
>
    decreases n,
{
    if n == 0 {
        Option::Some((Seq::empty(), pos))
    } else {
        match dec_flag_pair(b, pos) {
            Option::Some((x, p1)) => match dec_flag_seq(b, p1, (n - 1) as nat) {
                Option::Some((s, p2)) => Option::Some((seq![x] + s, p2)),
                Option::None => Option::None,
            },
            Option::None => Option::None,
        }
    }
}

/// Read a profile.
pub open spec fn dec_profile(b: Seq<u8>, pos: int) -> Option<(ProfileView, int)> {
    match dec_str(b, pos) {
        Option::Some((name, p1)) => match dec_u8(b, p1) {
            Option::Some((rt, p2)) => if rt <= 1 {
                let roblox = if rt == 0 {
                    RobloxType::RobloxPlayer
                } else {
                    RobloxType::RobloxStudio
                };
                match dec_u8(b, p2) {
                    Option::Some((bt, p3)) => if bt <= 2 {
                        let renderer = if bt == 0 {
                            Renderer::D3D11
                        } else if bt == 1 {
                            Renderer::Vulkan
                        } else {
                            Renderer::OpenGL
                        };
                        match dec_u64(b, p3) {
                            Option::Some((n, p4)) => match dec_flag_seq(b, p4, n as nat) {
                                Option::Some((flags, p5)) => Option::Some(
                                    (
                                        ProfileView {
                                            name,
                                            roblox,
                                            renderer,
                                            fflags: flags,
                                        },
                                        p5,
                                    ),
                                ),
                                Option::None => Option::None,
                            },
                            Option::None => Option::None,
                        }
                    } else {
                        Option::None
                    },
                    Option::None => Option::None,
                }
            } else {
                Option::None
            },
            Option::None => Option::None,
        },
        Option::None => Option::None,
    }
}

/// Read a store entry.
pub open spec fn dec_entry(b: Seq<u8>, pos: int) -> Option<((u128, ProfileView), int)> {
    match dec_u128(b, pos) {
        Option::Some((id, p1)) => match dec_profile(b, p1) {
            Option::Some((p, p2)) => Option::Some(((id, p), p2)),
            Option::None => Option::None,
        },
        Option::None => Option::None,
    }
}

/// Read exactly `n` store entries.
pub open spec fn dec_entry_seq(b: Seq<u8>, pos: int, n: nat) -> Option<
    (Seq<(u128, ProfileView)>, int),
>
    decreases n,
{
    if n == 0 {
        Option::Some((Seq::empty(), pos))
    } else {
        match dec_entry(b, pos) {
            Option::Some((x, p1)) => match dec_entry_seq(b, p1, (n - 1) as nat) {
                Option::Some((s, p2)) => Option::Some((seq![x] + s, p2)),
                Option::None => Option::None,
            },
            Option::None => Option::None,
        }
    }
}

/// Read a whole store snapshot; trailing bytes are rejected.
pub open spec fn dec_manager(b: Seq<u8>) -> Option<Seq<(u128, ProfileView)>> {
    match dec_u64(b, 0) {
        Option::Some((n, p1)) => match dec_entry_seq(b, p1, n as nat) {
            Option::Some((s, p2)) => if p2 == b.len() {
                Option::Some(s)
            } else {
                Option::None
            },
            Option::None => Option::None,
        },
        Option::None => Option::None,
    }
}

// ---------------------------------------------------------------------------
// The strings a snapshot can hold: anything whose length fits the u64
// count in front of it.  Executable values always do.
// ---------------------------------------------------------------------------
/// All length prefixes of the profile fit their u64 fields.
pub open spec fn bounded_profile(p: ProfileView) -> bool {
    &&& p.name.len() < 0x1_0000_0000_0000_0000
    &&& p.fflags.len() < 0x1_0000_0000_0000_0000
    &&& forall|i: int|
        0 <= i < p.fflags.len() ==> (#[trigger] p.fflags[i]).0.len() < 0x1_0000_0000_0000_0000
            && (p.fflags[i].1 matches FlagView::Text(s) ==> s.len() < 0x1_0000_0000_0000_0000)
}

/// All length prefixes of the snapshot fit their u64 fields.
pub open spec fn bounded_entries(s: Seq<(u128, ProfileView)>) -> bool {
    &&& s.len() < 0x1_0000_0000_0000_0000
    &&& forall|i: int| 0 <= i < s.len() ==> bounded_profile((#[trigger] s[i]).1)
}

proof fn lemma_dec_enc_flag(b: Seq<u8>, pos: int, v: FlagView)
    requires
        0 <= pos,
        pos + enc_flag(v).len() <= b.len(),
        b.subrange(pos, pos + enc_flag(v).len()) == enc_flag(v),
        v matches FlagView::Text(s) ==> s.len() < 0x1_0000_0000_0000_0000,
    ensures
        dec_flag(b, pos) == Option::Some((v, pos + enc_flag(v).len())),
{
    match v {
        FlagView::Text(s) => {
            lemma_subrange_split(b, pos, enc_u8(0), enc_str(s));
            lemma_dec_enc_u8(b, pos, 0);
            lemma_dec_enc_str(b, pos + 1, s);
        },
        FlagView::Number(n) => {
            vstd::bytes::lemma_auto_spec_u64_to_from_le_bytes();
            lemma_subrange_split(b, pos, enc_u8(1), enc_u64(n as u64));
            lemma_dec_enc_u8(b, pos, 1);
            lemma_dec_enc_u64(b, pos + 1, n as u64);
            assert((n as u64) as i64 == n) by (bit_vector);
        },
        FlagView::Boolean(x) => {
            let payload: u8 = if x {
                1
            } else {
                0
            };
            lemma_subrange_split(b, pos, enc_u8(2), enc_u8(payload));
            lemma_dec_enc_u8(b, pos, 2);
            lemma_dec_enc_u8(b, pos + 1, payload);
        },
    }
}

proof fn lemma_dec_enc_flag_pair(b: Seq<u8>, pos: int, p: (Seq<char>, FlagView))
    requires
        0 <= pos,
        pos + enc_flag_pair(p).len() <= b.len(),
        b.subrange(pos, pos + enc_flag_pair(p).len()) == enc_flag_pair(p),
        p.0.len() < 0x1_0000_0000_0000_0000,
        p.1 matches FlagView::Text(s) ==> s.len() < 0x1_0000_0000_0000_0000,
    ensures
        dec_flag_pair(b, pos) == Option::Some((p, pos + enc_flag_pair(p).len())),
{
    lemma_subrange_split(b, pos, enc_str(p.0), enc_flag(p.1));
    lemma_dec_enc_str(b, pos, p.0);
    lemma_dec_enc_flag(b, pos + enc_str(p.0).len(), p.1);
}

proof fn lemma_dec_enc_flag_seq(b: Seq<u8>, pos: int, s: Seq<(Seq<char>, FlagView)>)
    requires
        0 <= pos,
        pos + enc_flag_seq(s).len() <= b.len(),
        b.subrange(pos, pos + enc_flag_seq(s).len()) == enc_flag_seq(s),
        forall|i: int|
            0 <= i < s.len() ==> (#[trigger] s[i]).0.len() < 0x1_0000_0000_0000_0000 && (s[i].1
                matches FlagView::Text(t) ==> t.len() < 0x1_0000_0000_0000_0000),
    ensures
        dec_flag_seq(b, pos, s.len()) == Option::Some((s, pos + enc_flag_seq(s).len())),
    decreases s.len(),
{
    if s.len() > 0 {
        let rest = s.drop_first();
        lemma_subrange_split(b, pos, enc_flag_pair(s[0]), enc_flag_seq(rest));
        lemma_dec_enc_flag_pair(b, pos, s[0]);
        assert(forall|i: int|
            0 <= i < rest.len() ==> (#[trigger] rest[i]).0.len() < 0x1_0000_0000_0000_0000 && (
            rest[i].1 matches FlagView::Text(t) ==> t.len() < 0x1_0000_0000_0000_0000)) by {
            assert(forall|i: int| 0 <= i < rest.len() ==> #[trigger] rest[i] == s[i + 1]);
        }
        lemma_dec_enc_flag_seq(b, pos + enc_flag_pair(s[0]).len(), rest);
        assert(seq![s[0]] + rest =~= s);
    }
}

proof fn lemma_dec_enc_profile(b: Seq<u8>, pos: int, p: ProfileView)
    requires
        0 <= pos,
        pos + enc_profile(p).len() <= b.len(),
        b.subrange(pos, pos + enc_profile(p).len()) == enc_profile(p),
        bounded_profile(p),
    ensures
        dec_profile(b, pos) == Option::Some((p, pos + enc_profile(p).len())),
{
    let e1 = enc_str(p.name);
    let e2 = enc_u8(roblox_tag(p.roblox));
    let e3 = enc_u8(renderer_tag(p.renderer));
    let e4 = enc_u64(p.fflags.len() as u64);
    let e5 = enc_flag_seq(p.fflags);
    vstd::bytes::lemma_auto_spec_u64_to_from_le_bytes();
    assert(enc_profile(p) =~= e1 + (e2 + (e3 + (e4 + e5))));
    lemma_subrange_split(b, pos, e1, e2 + (e3 + (e4 + e5)));
    let q1 = pos + e1.len();
    lemma_subrange_split(b, q1, e2, e3 + (e4 + e5));
    let q2 = q1 + 1;
    lemma_subrange_split(b, q2, e3, e4 + e5);
    let q3 = q2 + 1;
    lemma_subrange_split(b, q3, e4, e5);
    let q4 = q3 + 8;
    lemma_dec_enc_str(b, pos, p.name);
    lemma_dec_enc_u8(b, q1, roblox_tag(p.roblox));
    lemma_dec_enc_u8(b, q2, renderer_tag(p.renderer));
    lemma_dec_enc_u64(b, q3, p.fflags.len() as u64);
    lemma_dec_enc_flag_seq(b, q4, p.fflags);
}

proof fn lemma_dec_enc_entry(b: Seq<u8>, pos: int, e: (u128, ProfileView))
    requires
        0 <= pos,
        pos + enc_entry(e).len() <= b.len(),
        b.subrange(pos, pos + enc_entry(e).len()) == enc_entry(e),
        bounded_profile(e.1),
    ensures
        dec_entry(b, pos) == Option::Some((e, pos + enc_entry(e).len())),
{
    vstd::bytes::lemma_auto_spec_u128_to_from_le_bytes();
    assert(enc_u128(e.0).len() == 16);
    lemma_subrange_split(b, pos, enc_u128(e.0), enc_profile(e.1));
    lemma_dec_enc_u128(b, pos, e.0);
    lemma_dec_enc_profile(b, pos + 16, e.1);
}

proof fn lemma_dec_enc_entry_seq(b: Seq<u8>, pos: int, s: Seq<(u128, ProfileView)>)
    requires
        0 <= pos,
        pos + enc_entry_seq(s).len() <= b.len(),
        b.subrange(pos, pos + enc_entry_seq(s).len()) == enc_entry_seq(s),
        forall|i: int| 0 <= i < s.len() ==> bounded_profile((#[trigger] s[i]).1),
    ensures
        dec_entry_seq(b, pos, s.len()) == Option::Some((s, pos + enc_entry_seq(s).len())),
    decreases s.len(),
{
    if s.len() > 0 {
        let rest = s.drop_first();
        lemma_subrange_split(b, pos, enc_entry(s[0]), enc_entry_seq(rest));
        lemma_dec_enc_entry(b, pos, s[0]);
        assert(forall|i: int| 0 <= i < rest.len() ==> #[trigger] rest[i] == s[i + 1]);
        lemma_dec_enc_entry_seq(b, pos + enc_entry(s[0]).len(), rest);
        assert(seq![s[0]] + rest =~= s);
    }
}

/// Appending a flag extends the encoding at the back.
pub proof fn lemma_enc_flag_seq_push(s: Seq<(Seq<char>, FlagView)>, x: (Seq<char>, FlagView))
    ensures
        enc_flag_seq(s.push(x)) == enc_flag_seq(s) + enc_flag_pair(x),
    decreases s.len(),
{
    let t = s.push(x);
    if s.len() == 0 {
        assert(t[0] == x);
        assert(t.drop_first() =~= Seq::<(Seq<char>, FlagView)>::empty());
        assert(enc_flag_seq(t) == enc_flag_pair(x) + enc_flag_seq(
            Seq::<(Seq<char>, FlagView)>::empty(),
        ));
        assert(enc_flag_pair(x) + Seq::<u8>::empty() =~= enc_flag_pair(x));
        assert(enc_flag_seq(s) + enc_flag_pair(x) =~= enc_flag_pair(x));
    } else {
        assert(t.drop_first() =~= s.drop_first().push(x));
        lemma_enc_flag_seq_push(s.drop_first(), x);
        assert(t[0] == s[0]);
        assert(enc_flag_pair(s[0]) + (enc_flag_seq(s.drop_first()) + enc_flag_pair(x)) =~= (
        enc_flag_pair(s[0]) + enc_flag_seq(s.drop_first())) + enc_flag_pair(x));
    }
}

/// Appending an entry extends the encoding at the back.
pub proof fn lemma_enc_entry_seq_push(s: Seq<(u128, ProfileView)>, x: (u128, ProfileView))
    ensures
        enc_entry_seq(s.push(x)) == enc_entry_seq(s) + enc_entry(x),
    decreases s.len(),
{
    let t = s.push(x);
    if s.len() == 0 {
        assert(t[0] == x);
        assert(t.drop_first() =~= Seq::<(u128, ProfileView)>::empty());
        assert(enc_entry_seq(t) == enc_entry(x) + enc_entry_seq(
            Seq::<(u128, ProfileView)>::empty(),
        ));
        assert(enc_entry(x) + Seq::<u8>::empty() =~= enc_entry(x));
        assert(enc_entry_seq(s) + enc_entry(x) =~= enc_entry(x));
    } else {
        assert(t.drop_first() =~= s.drop_first().push(x));
        lemma_enc_entry_seq_push(s.drop_first(), x);
        assert(t[0] == s[0]);
        assert(enc_entry(s[0]) + (enc_entry_seq(s.drop_first()) + enc_entry(x)) =~= (enc_entry(
            s[0],
        ) + enc_entry_seq(s.drop_first())) + enc_entry(x));
    }
}

/// Decoding an encoded snapshot gives back exactly the entries that were
/// encoded.  This is the round-trip guarantee behind save-then-load: once
/// the saved bytes come back unchanged, the reloaded store is the saved
/// one.
pub proof fn lemma_snapshot_round_trip(s: Seq<(u128, ProfileView)>)
    requires
        bounded_entries(s),
    ensures
        dec_manager(enc_manager(s)) == Option::Some(s),
{
    let b = enc_manager(s);
    vstd::bytes::lemma_auto_spec_u64_to_from_le_bytes();
    assert(b.subrange(0, b.len() as int) =~= b);
    lemma_subrange_split(b, 0, enc_u64(s.len() as u64), enc_entry_seq(s));
    lemma_dec_enc_u64(b, 0, s.len() as u64);
    lemma_dec_enc_entry_seq(b, 8, s);
}

// ---------------------------------------------------------------------------
// The executable encoder, proved to write exactly the specified bytes.
// ---------------------------------------------------------------------------
fn push_u8(out: &mut Vec<u8>, x: u8)
    ensures
        final(out)@ == old(out)@ + enc_u8(x),
{
    out.push(x);
    proof {
        assert(out@ =~= old(out)@ + enc_u8(x));
    }
}

fn push_u32(out: &mut Vec<u8>, x: u32)
    ensures
        final(out)@ == old(out)@ + enc_u32(x),
{
    let mut b = u32_to_le_bytes(x);
    out.append(&mut b);
}

fn push_u64(out: &mut Vec<u8>, x: u64)
    ensures
        final(out)@ == old(out)@ + enc_u64(x),
{
    let mut b = u64_to_le_bytes(x);
    out.append(&mut b);
}

fn push_u128(out: &mut Vec<u8>, x: u128)
    ensures
        final(out)@ == old(out)@ + enc_u128(x),
{
    let mut b = u128_to_le_bytes(x);
    out.append(&mut b);
}

pub(crate) fn push_str(out: &mut Vec<u8>, s: &String)
    ensures
        final(out)@ == old(out)@ + enc_str(s@),
{
    let n = s.as_str().unicode_len();
    push_u64(out, n as u64);
    let mut i: usize = 0;
    while i < n
        invariant
            n == s@.len(),
            i <= n,
            out@ == old(out)@ + enc_u64(n as u64) + enc_chars(s@.take(i as int)),
        decreases n - i,
    {
        let c = s.as_str().get_char(i);
        proof {
            lemma_enc_chars_push(s@.take(i as int), c);
            assert(s@.take(i as int).push(c) =~= s@.take(i as int + 1));
        }
        push_u32(out, c as u32);
        proof {
            assert(out@ =~= old(out)@ + enc_u64(n as u64) + enc_chars(s@.take(i as int + 1)));
        }
        i = i + 1;
    }
    proof {
        assert(s@.take(n as int) =~= s@);
        assert(out@ =~= old(out)@ + enc_str(s@));
    }
}

fn push_flag(out: &mut Vec<u8>, v: &FFlagValue)
    ensures
        final(out)@ == old(out)@ + enc_flag(v@),
{
    match v {
        FFlagValue::Text(s) => {
            push_u8(out, 0);
            push_str(out, s);
            proof {
                assert(out@ =~= old(out)@ + enc_flag(v@));
            }
        },
        FFlagValue::Number(n) => {
            push_u8(out, 1);
            push_u64(out, *n as u64);
            proof {
                assert(out@ =~= old(out)@ + enc_flag(v@));
            }
        },
        FFlagValue::Boolean(x) => {
            push_u8(out, 2);
            push_u8(out, if *x { 1 } else { 0 });
            proof {
                assert(out@ =~= old(out)@ + enc_flag(v@));
            }
        },
    }
}

fn push_profile(out: &mut Vec<u8>, p: &Profile)
    ensures
        final(out)@ == old(out)@ + enc_profile(p@),
{
    push_str(out, &p.name);
    let rt: u8 = match p.roblox {
        RobloxType::RobloxPlayer => 0,
        RobloxType::RobloxStudio => 1,
    };
    push_u8(out, rt);
    let bt: u8 = match p.renderer {
        Renderer::D3D11 => 0,
        Renderer::Vulkan => 1,
        Renderer::OpenGL => 2,
    };
    push_u8(out, bt);
    let m = p.fflags.len();
    push_u64(out, m as u64);
    let ghost base = out@;
    proof {
        assert(p.fflags@.take(0) =~= Seq::<(String, FFlagValue)>::empty());
        assert(flags_of(p.fflags@.take(0)) =~= Seq::<(Seq<char>, FlagView)>::empty());
        assert(out@ =~= base + enc_flag_seq(flags_of(p.fflags@.take(0))));
    }
    let mut i: usize = 0;
    while i < m
        invariant
            m == p.fflags@.len(),
            i <= m,
            out@ == base + enc_flag_seq(flags_of(p.fflags@.take(i as int))),
        decreases m - i,
    {
        let pair = &p.fflags[i];
        proof {
            lemma_enc_flag_seq_push(flags_of(p.fflags@.take(i as int)), (pair.0@, pair.1@));
            assert(flags_of(p.fflags@.take(i as int)).push((pair.0@, pair.1@)) =~= flags_of(
                p.fflags@.take(i as int + 1),
            ));
        }
        push_str(out, &pair.0);
        push_flag(out, &pair.1);
        proof {
            assert(out@ =~= base + enc_flag_seq(flags_of(p.fflags@.take(i as int + 1))));
        }
        i = i + 1;
    }
    proof {
        assert(p.fflags@.take(m as int) =~= p.fflags@);
        assert(out@ =~= old(out)@ + enc_profile(p@));
    }
}

impl ProfileManager {
    /// Encode the whole store as one snapshot byte string.
    pub fn serialize(&self) -> (r: Vec<u8>)
        ensures
            r@ == enc_manager(self@),
    {
        let mut out: Vec<u8> = Vec::new();
        let n = self.profiles.len();
        push_u64(&mut out, n as u64);
        proof {
            assert(self.profiles@.take(0) =~= Seq::<(u128, Profile)>::empty());
            assert(entries_of(self.profiles@.take(0)) =~= Seq::<(u128, ProfileView)>::empty());
            assert(out@ =~= enc_u64(n as u64) + enc_entry_seq(entries_of(self.profiles@.take(0))));
        }
        let mut i: usize = 0;
        while i < n
            invariant
                n == self.profiles@.len(),
                i <= n,
                out@ == enc_u64(n as u64) + enc_entry_seq(entries_of(self.profiles@.take(i as int))),
            decreases n - i,
        {
            let e = &self.profiles[i];
            proof {
                lemma_enc_entry_seq_push(entries_of(self.profiles@.take(i as int)), (e.0, e.1@));
                assert(entries_of(self.profiles@.take(i as int)).push((e.0, e.1@)) =~= entries_of(
                    self.profiles@.take(i as int + 1),
                ));
            }
            push_u128(&mut out, e.0);
            push_profile(&mut out, &e.1);
            proof {
                assert(out@ =~= enc_u64(n as u64) + enc_entry_seq(
                    entries_of(self.profiles@.take(i as int + 1)),
                ));
            }
            i = i + 1;
        }
        proof {
            assert(self.profiles@.take(n as int) =~= self.profiles@);
            assert(out@ =~= enc_manager(self@));
        }
        out
    }
}

// ---------------------------------------------------------------------------
// The executable decoder, proved to compute exactly the specified
// decoding functions.
// ---------------------------------------------------------------------------
/// Relies on char::from_u32 (std): `Some` exactly for Unicode scalar
/// values, that is everything up to 0x10FFFF except the surrogate range,
/// and the returned character has the given scalar value.
pub assume_specification[ char::from_u32 ](i: u32) -> (r: Option<char>)
    ensures
        r is Some <==> valid_scalar(i),
        r matches Some(c) ==> c as u32 == i,
;

fn read_u8(b: &[u8], pos: usize) -> (r: Option<(u8, usize)>)
    ensures
        r matches Option::Some(t) ==> dec_u8(b@, pos as int) == Option::Some((t.0, t.1 as int)),
        r is None ==> dec_u8(b@, pos as int) is None,
{
    if pos < b.len() {
        let x = *vstd::slice::slice_index_get(b, pos);
        Option::Some((x, pos + 1))
    } else {
        Option::None
    }
}

fn read_u32(b: &[u8], pos: usize) -> (r: Option<(u32, usize)>)
    ensures
        r matches Option::Some(t) ==> dec_u32(b@, pos as int) == Option::Some((t.0, t.1 as int)),
        r is None ==> dec_u32(b@, pos as int) is None,
{
    if b.len() >= 4 && pos <= b.len() - 4 {
        let s = vstd::slice::slice_subrange(b, pos, pos + 4);
        Option::Some((vstd::bytes::u32_from_le_bytes(s), pos + 4))
    } else {
        Option::None
    }
}

fn read_u64(b: &[u8], pos: usize) -> (r: Option<(u64, usize)>)
    ensures
        r matches Option::Some(t) ==> dec_u64(b@, pos as int) == Option::Some((t.0, t.1 as int)),
        r is None ==> dec_u64(b@, pos as int) is None,
{
    if b.len() >= 8 && pos <= b.len() - 8 {
        let s = vstd::slice::slice_subrange(b, pos, pos + 8);
        Option::Some((vstd::bytes::u64_from_le_bytes(s), pos + 8))
    } else {
        Option::None
    }
}

fn read_u128(b: &[u8], pos: usize) -> (r: Option<(u128, usize)>)
    ensures
        r matches Option::Some(t) ==> dec_u128(b@, pos as int) == Option::Some((t.0, t.1 as int)),
        r is None ==> dec_u128(b@, pos as int) is None,
{
    if b.len() >= 16 && pos <= b.len() - 16 {
        let s = vstd::slice::slice_subrange(b, pos, pos + 16);
        Option::Some((vstd::bytes::u128_from_le_bytes(s), pos + 16))
    } else {
        Option::None
    }
}

fn read_char(b: &[u8], pos: usize) -> (r: Option<(char, usize)>)
    ensures
        r matches Option::Some(t) ==> dec_char(b@, pos as int) == Option::Some((t.0, t.1 as int)),
        r is None ==> dec_char(b@, pos as int) is None,
{
    match read_u32(b, pos) {
        Option::Some((u, p)) => match char::from_u32(u) {
            Option::Some(c) => {
                proof {
                    vstd::utf8::char_u32_cast(c, u);
                }
                Option::Some((c, p))
            },
            Option::None => Option::None,
        },
        Option::None => Option::None,
    }
}

#[verifier::loop_isolation(false)]
pub(crate) fn read_str(b: &[u8], pos: usize) -> (r: Option<(String, usize)>)
    ensures
        r matches Option::Some(t) ==> dec_str(b@, pos as int) == Option::Some((t.0@, t.1 as int)),
        r is None ==> dec_str(b@, pos as int) is None,
{
    match read_u64(b, pos) {
        Option::Some((n, start)) => {
            let mut acc: Vec<char> = Vec::new();
            let mut cur: usize = start;
            let mut i: u64 = 0;
            proof {
                match dec_chars(b@, start as int, n as nat) {
                    Option::Some((s, p)) => {
                        assert(acc@ =~= Seq::<char>::empty());
                        assert(acc@ + s =~= s);
                    },
                    Option::None => {},
                }
            }
            while i < n
                invariant
                    i <= n,
                    (match dec_chars(b@, cur as int, (n - i) as nat) {
                        Option::Some((s, p)) => dec_chars(b@, start as int, n as nat)
                            == Option::Some((acc@ + s, p)),
                        Option::None => dec_chars(b@, start as int, n as nat) is None,
                    }),
                decreases n - i,
            {
                match read_char(b, cur) {
                    Option::Some((c, p2)) => {
                        proof {
                            let k = (n - i) as nat;
                            match dec_chars(b@, p2 as int, (k - 1) as nat) {
                                Option::Some((s, p)) => {
                                    assert(dec_chars(b@, cur as int, k) == Option::Some(
                                        (seq![c] + s, p),
                                    ));
                                    assert(acc@ + (seq![c] + s) =~= acc@.push(c) + s);
                                },
                                Option::None => {},
                            }
                        }
                        acc.push(c);
                        cur = p2;
                        i = i + 1;
                    },
                    Option::None => {
                        proof {
                            assert(dec_chars(b@, cur as int, (n - i) as nat) is None);
                        }
                        return Option::None;
                    },
                }
            }
            proof {
                assert(dec_chars(b@, cur as int, (n - i) as nat) == Option::Some(
                    (Seq::<char>::empty(), cur as int),
                ));
                assert(acc@ + Seq::<char>::empty() =~= acc@);
            }
            let s = crate::ident::chars_to_string(&acc);
            Option::Some((s, cur))
        },
        Option::None => Option::None,
    }
}

fn read_flag(b: &[u8], pos: usize) -> (r: Option<(FFlagValue, usize)>)
    ensures
        r matches Option::Some(t) ==> dec_flag(b@, pos as int) == Option::Some((t.0@, t.1 as int)),
        r is None ==> dec_flag(b@, pos as int) is None,
{
    match read_u8(b, pos) {
        Option::Some((tag, p1)) => {
            if tag == 0 {
                match read_str(b, p1) {
                    Option::Some((s, p2)) => Option::Some((FFlagValue::Text(s), p2)),
                    Option::None => Option::None,
                }
            } else if tag == 1 {
                match read_u64(b, p1) {
                    Option::Some((u, p2)) => Option::Some((FFlagValue::Number(u as i64), p2)),
                    Option::None => Option::None,
                }
            } else if tag == 2 {
                match read_u8(b, p1) {
                    Option::Some((x, p2)) => {
                        if x == 0 {
                            Option::Some((FFlagValue::Boolean(false), p2))
                        } else if x == 1 {
                            Option::Some((FFlagValue::Boolean(true), p2))
                        } else {
                            Option::None
                        }
                    },
                    Option::None => Option::None,
                }
            } else {
                Option::None
            }
        },
        Option::None => Option::None,
    }
}

fn read_flag_pair(b: &[u8], pos: usize) -> (r: Option<((String, FFlagValue), usize)>)
    ensures
        r matches Option::Some(t) ==> dec_flag_pair(b@, pos as int) == Option::Some(
            (((t.0).0@, (t.0).1@), t.1 as int),
        ),
        r is None ==> dec_flag_pair(b@, pos as int) is None,
{
    match read_str(b, pos) {
        Option::Some((k, p1)) => match read_flag(b, p1) {
            Option::Some((v, p2)) => Option::Some(((k, v), p2)),
            Option::None => Option::None,
        },
        Option::None => Option::None,
    }
}

#[verifier::loop_isolation(false)]
fn read_profile(b: &[u8], pos: usize) -> (r: Option<(Profile, usize)>)
    ensures
        r matches Option::Some(t) ==> dec_profile(b@, pos as int) == Option::Some(
            (t.0@, t.1 as int),
        ),
        r is None ==> dec_profile(b@, pos as int) is None,
{
    let (name, p1) = match read_str(b, pos) {
        Option::Some(t) => t,
        Option::None => {
            return Option::None;
        },
    };
    let (rt, p2) = match read_u8(b, p1) {
        Option::Some(t) => t,
        Option::None => {
            return Option::None;
        },
    };
    if rt > 1 {
        return Option::None;
    }
    let roblox = if rt == 0 {
        RobloxType::RobloxPlayer
    } else {
        RobloxType::RobloxStudio
    };
    let (bt, p3) = match read_u8(b, p2) {
        Option::Some(t) => t,
        Option::None => {
            return Option::None;
        },
    };
    if bt > 2 {
        return Option::None;
    }
    let renderer = if bt == 0 {
        Renderer::D3D11
    } else if bt == 1 {
        Renderer::Vulkan
    } else {
        Renderer::OpenGL
    };
    let (n, start) = match read_u64(b, p3) {
        Option::Some(t) => t,
        Option::None => {
            return Option::None;
        },
    };
    let mut acc: Vec<(String, FFlagValue)> = Vec::new();
    let mut cur: usize = start;
    let mut i: u64 = 0;
    proof {
        match dec_flag_seq(b@, start as int, n as nat) {
            Option::Some((s, p)) => {
                assert(flags_of(acc@) =~= Seq::<(Seq<char>, FlagView)>::empty());
                assert(flags_of(acc@) + s =~= s);
            },
            Option::None => {},
        }
    }
    while i < n
        invariant
            i <= n,
            (match dec_flag_seq(b@, cur as int, (n - i) as nat) {
                Option::Some((s, p)) => dec_flag_seq(b@, start as int, n as nat) == Option::Some(
                    (flags_of(acc@) + s, p),
                ),
                Option::None => dec_flag_seq(b@, start as int, n as nat) is None,
            }),
        decreases n - i,
    {
        match read_flag_pair(b, cur) {
            Option::Some((pair, p5)) => {
                proof {
                    let k = (n - i) as nat;
                    crate::profile::lemma_flags_of_push(acc@, pair);
                    match dec_flag_seq(b@, p5 as int, (k - 1) as nat) {
                        Option::Some((s, p)) => {
                            assert(dec_flag_seq(b@, cur as int, k) == Option::Some(
                                (seq![(pair.0@, pair.1@)] + s, p),
                            ));
                            assert(flags_of(acc@) + (seq![(pair.0@, pair.1@)] + s) =~= flags_of(
                                acc@,
                            ).push((pair.0@, pair.1@)) + s);
                        },
                        Option::None => {},
                    }
                }
                acc.push(pair);
                cur = p5;
                i = i + 1;
            },
            Option::None => {
                proof {
                    assert(dec_flag_seq(b@, cur as int, (n - i) as nat) is None);
                }
                return Option::None;
            },
        }
    }
    proof {
        assert(dec_flag_seq(b@, cur as int, (n - i) as nat) == Option::Some(
            (Seq::<(Seq<char>, FlagView)>::empty(), cur as int),
        ));
        assert(flags_of(acc@) + Seq::<(Seq<char>, FlagView)>::empty() =~= flags_of(acc@));
    }
    let p = Profile { name, roblox, renderer, fflags: acc };
    Option::Some((p, cur))
}

fn read_entry(b: &[u8], pos: usize) -> (r: Option<((u128, Profile), usize)>)
    ensures
        r matches Option::Some(t) ==> dec_entry(b@, pos as int) == Option::Some(
            (((t.0).0, (t.0).1@), t.1 as int),
        ),
        r is None ==> dec_entry(b@, pos as int) is None,
{
    match read_u128(b, pos) {
        Option::Some((id, p1)) => match read_profile(b, p1) {
            Option::Some((p, p2)) => Option::Some(((id, p), p2)),
            Option::None => Option::None,
        },
        Option::None => Option::None,
    }
}

/// Whether all entries carry distinct identifiers.
fn ids_all_distinct(v: &Vec<(u128, Profile)>) -> (r: bool)
    ensures
        r == crate::profile::ids_distinct(entries_of(v@)),
{
    let n = v.len();
    let mut i: usize = 0;
    while i < n
        invariant
            n == v@.len(),
            i <= n,
            forall|p: int, q: int| 0 <= p < q < n && p < i ==> v@[p].0 != v@[q].0,
        decreases n - i,
    {
        let mut j: usize = i + 1;
        while j < n
            invariant
                n == v@.len(),
                i < n,
                i < j <= n,
                forall|q: int| i < q < j ==> v@[i as int].0 != v@[q].0,
            decreases n - j,
        {
            if v[i].0 == v[j].0 {
                proof {
                    assert(entries_of(v@)[i as int].0 == v@[i as int].0);
                    assert(entries_of(v@)[j as int].0 == v@[j as int].0);
                    assert(!crate::profile::ids_distinct(entries_of(v@)));
                }
                return false;
            }
            j = j + 1;
        }
        i = i + 1;
    }
    proof {
        assert forall|p: int, q: int| 0 <= p < q < entries_of(v@).len() implies entries_of(
            v@,
        )[p].0 != entries_of(v@)[q].0 by {
            assert(entries_of(v@)[p].0 == v@[p].0);
            assert(entries_of(v@)[q].0 == v@[q].0);
        }
    }
    true
}

impl ProfileManager {
    /// The well-formedness check, executable for callers outside the
    /// proof.
    pub fn is_well_formed(&self) -> (r: bool)
        ensures
            r == self.wf(),
    {
        ids_all_distinct(&self.profiles)
    }

    /// Decode a snapshot byte string.  Succeeds exactly on the byte
    /// strings that decode to a snapshot whose identifiers are distinct;
    /// anything else is malformed and reported as a codec failure.
#[verifier::loop_isolation(false)]
        pub fn deserialize(bytes: &[u8]) -> (r: Result<ProfileManager, ProfileError>)
        ensures
            (r is Ok) <==> (dec_manager(bytes@) matches Option::Some(s)
                && crate::profile::ids_distinct(s)),
            r matches Result::Ok(m) ==> Option::Some(m@) == dec_manager(bytes@) && m.wf(),
            r matches Result::Err(e) ==> e matches ProfileError::CodecError(_),
    {
        let (n, start) = match read_u64(bytes, 0) {
            Option::Some(t) => t,
            Option::None => {
                return Result::Err(
                    ProfileError::CodecError(String::from_str("snapshot is truncated")),
                );
            },
        };
        let mut acc: Vec<(u128, Profile)> = Vec::new();
        let mut cur: usize = start;
        let mut i: u64 = 0;
        proof {
            match dec_entry_seq(bytes@, start as int, n as nat) {
                Option::Some((s, p)) => {
                    assert(entries_of(acc@) =~= Seq::<(u128, ProfileView)>::empty());
                    assert(entries_of(acc@) + s =~= s);
                },
                Option::None => {},
            }
        }
        while i < n
            invariant
                i <= n,
                (match dec_entry_seq(bytes@, cur as int, (n - i) as nat) {
                    Option::Some((s, p)) => dec_entry_seq(bytes@, start as int, n as nat)
                        == Option::Some((entries_of(acc@) + s, p)),
                    Option::None => dec_entry_seq(bytes@, start as int, n as nat) is None,
                }),
            decreases n - i,
        {
            match read_entry(bytes, cur) {
                Option::Some((e, p2)) => {
                    proof {
                        let k = (n - i) as nat;
                        crate::profile::lemma_entries_of_push(acc@, e);
                        match dec_entry_seq(bytes@, p2 as int, (k - 1) as nat) {
                            Option::Some((s, p)) => {
                                assert(dec_entry_seq(bytes@, cur as int, k) == Option::Some(
                                    (seq![(e.0, e.1@)] + s, p),
                                ));
                                assert(entries_of(acc@) + (seq![(e.0, e.1@)] + s) =~= entries_of(
                                    acc@,
                                ).push((e.0, e.1@)) + s);
                            },
                            Option::None => {},
                        }
                    }
                    acc.push(e);
                    cur = p2;
                    i = i + 1;
                },
                Option::None => {
                    proof {
                        assert(dec_entry_seq(bytes@, cur as int, (n - i) as nat) is None);
                    }
                    return Result::Err(
                        ProfileError::CodecError(String::from_str("snapshot is malformed")),
                    );
                },
            }
        }
        proof {
            assert(dec_entry_seq(bytes@, cur as int, (n - i) as nat) == Option::Some(
                (Seq::<(u128, ProfileView)>::empty(), cur as int),
            ));
            assert(entries_of(acc@) + Seq::<(u128, ProfileView)>::empty() =~= entries_of(acc@));
        }
        if cur != bytes.len() {
            return Result::Err(
                ProfileError::CodecError(String::from_str("snapshot has trailing bytes")),
            );
        }
        if ids_all_distinct(&acc) {
            Result::Ok(ProfileManager { profiles: acc })
        } else {
            Result::Err(
                ProfileError::CodecError(String::from_str("snapshot repeats an identifier")),
            )
        }
    }

    /// Build the store from the record read back from disk: absent means
    /// an empty store, present bytes are decoded.
    pub fn from_snapshot(snapshot: Option<Vec<u8>>) -> (r: Result<ProfileManager, ProfileError>)
        ensures
            snapshot is None ==> (r matches Result::Ok(m) && m@ == Seq::<(
                u128,
                ProfileView,
            )>::empty()),
            snapshot matches Option::Some(bts) ==> {
                &&& ((r is Ok) <==> (dec_manager(bts@) matches Option::Some(s)
                    && crate::profile::ids_distinct(s)))
                &&& (r matches Result::Ok(m) ==> Option::Some(m@) == dec_manager(bts@))
                &&& (r matches Result::Err(e) ==> e matches ProfileError::CodecError(_))
            },
            r matches Result::Ok(m) ==> m.wf(),
    {
        match snapshot {
            Option::Some(bts) => ProfileManager::deserialize(bts.as_slice()),
            Option::None => Result::Ok(ProfileManager::default()),
        }
    }
}

} // verus!
