//! The persisted atlas-config wire format: a versionless binary blob that
//! round-trips the location table, the frame table and the content hash
//! exactly. Integers are little-endian; characters are their scalar values;
//! lists are a length followed by their entries in order.
use vstd::prelude::*;

use vstd::bytes::{spec_u32_to_le_bytes, spec_u32_from_le_bytes, spec_u64_to_le_bytes,
    spec_u64_from_le_bytes, lemma_auto_spec_u32_to_from_le_bytes,
    lemma_auto_spec_u64_to_from_le_bytes, u32_to_le_bytes, u64_to_le_bytes, u32_from_le_bytes,
    u64_from_le_bytes};
use vstd::slice::slice_subrange;
use vstd::string::StringExecFns;
use vstd::string::StrSliceExecFns;

use crate::AtlasRect;
use crate::tile_atlas::{TileKind, AtlasTile, FrameView};

verus! {

pub open spec fn enc_u32(x: u32) -> Seq<u8> {
    spec_u32_to_le_bytes(x)
}

pub open spec fn enc_u64(x: u64) -> Seq<u8> {
    spec_u64_to_le_bytes(x)
}

pub open spec fn enc_bool(b: bool) -> Seq<u8> {
    seq![if b { 1u8 } else { 0u8 }]
}

pub open spec fn enc_char(c: char) -> Seq<u8> {
    enc_u32(c as u32)
}

/// The first `n` characters of `s`, in order.
pub open spec fn enc_chars(s: Seq<char>, n: int) -> Seq<u8>
    decreases n,
{
    if n <= 0 {
        Seq::empty()
    } else {
        enc_chars(s, n - 1) + enc_char(s[n - 1])
    }
}

pub open spec fn enc_str(s: Seq<char>) -> Seq<u8> {
    enc_u64(s.len() as u64) + enc_chars(s, s.len() as int)
}

pub open spec fn enc_rect(r: AtlasRect) -> Seq<u8> {
    enc_u32(r.x) + enc_u32(r.y) + enc_u32(r.w) + enc_u32(r.h)
}

pub open spec fn enc_kind(k: TileKind) -> Seq<u8> {
    match k {
        TileKind::Static => seq![0u8],
        TileKind::Animated(fc, d) => seq![1u8] + enc_u64(fc) + enc_u64(d),
    }
}

pub open spec fn enc_tile(t: AtlasTile) -> Seq<u8> {
    enc_u32(t.offset.0) + enc_u32(t.offset.1) + enc_bool(t.is_autotile) + enc_kind(t.tile_kind)
}

/// The first `n` tile entries, each an index and its tile.
pub open spec fn enc_tile_entries(s: Seq<(usize, AtlasTile)>, n: int) -> Seq<u8>
    decreases n,
{
    if n <= 0 {
        Seq::empty()
    } else {
        enc_tile_entries(s, n - 1) + enc_u64(s[n - 1].0 as u64) + enc_tile(s[n - 1].1)
    }
}

pub open spec fn enc_frame(f: FrameView) -> Seq<u8> {
    enc_u32(f.tile_size.0) + enc_u32(f.tile_size.1) + enc_u64(f.texture_idx as u64) + enc_rect(
        f.rect,
    ) + enc_u64(f.offsets.len() as u64) + enc_tile_entries(f.offsets, f.offsets.len() as int)
}

/// The first `n` location entries, each a tile index and its frame key.
pub open spec fn enc_loc_entries(s: Seq<(usize, Seq<char>)>, n: int) -> Seq<u8>
    decreases n,
{
    if n <= 0 {
        Seq::empty()
    } else {
        enc_loc_entries(s, n - 1) + enc_u64(s[n - 1].0 as u64) + enc_str(s[n - 1].1)
    }
}

/// The first `n` frame entries, each a key and its frame.
pub open spec fn enc_frame_entries(s: Seq<(Seq<char>, FrameView)>, n: int) -> Seq<u8>
    decreases n,
{
    if n <= 0 {
        Seq::empty()
    } else {
        enc_frame_entries(s, n - 1) + enc_str(s[n - 1].0) + enc_frame(s[n - 1].1)
    }
}

/// The whole config blob: locations, frames, content hash.
pub open spec fn spec_encode_config(
    locs: Seq<(usize, Seq<char>)>,
    frames: Seq<(Seq<char>, FrameView)>,
    file_hash: Seq<char>,
) -> Seq<u8> {
    enc_u64(locs.len() as u64) + enc_loc_entries(locs, locs.len() as int) + enc_u64(
        frames.len() as u64,
    ) + enc_frame_entries(frames, frames.len() as int) + enc_str(file_hash)
}

pub open spec fn dec_u32(b: Seq<u8>, i: int) -> Option<(u32, int)> {
    if 0 <= i && i + 4 <= b.len() {
        Some((spec_u32_from_le_bytes(b.subrange(i, i + 4)), i + 4))
    } else {
        None
    }
}

pub open spec fn dec_u64(b: Seq<u8>, i: int) -> Option<(u64, int)> {
    if 0 <= i && i + 8 <= b.len() {
        Some((spec_u64_from_le_bytes(b.subrange(i, i + 8)), i + 8))
    } else {
        None
    }
}

pub open spec fn dec_bool(b: Seq<u8>, i: int) -> Option<(bool, int)> {
    if 0 <= i && i + 1 <= b.len() {
        if b[i] == 0u8 {
            Some((false, i + 1))
        } else if b[i] == 1u8 {
            Some((true, i + 1))
        } else {
            None
        }
    } else {
        None
    }
}

/// A valid Unicode scalar value.
pub open spec fn scalar_ok(u: u32) -> bool {
    u < 0xD800 || (0xE000 <= u && u <= 0x10FFFF)
}

pub open spec fn dec_char(b: Seq<u8>, i: int) -> Option<(char, int)> {
    match dec_u32(b, i) {
        None => None,
        Some((u, j)) => if scalar_ok(u) {
            Some((u as char, j))
        } else {
            None
        },
    }
}

pub open spec fn dec_chars(b: Seq<u8>, i: int, n: int) -> Option<(Seq<char>, int)>
    decreases n,
{
    if n <= 0 {
        Some((Seq::empty(), i))
    } else {
        match dec_char(b, i) {
            None => None,
            Some((c, j)) => match dec_chars(b, j, n - 1) {
                None => None,
                Some((cs, k)) => Some((seq![c] + cs, k)),
            },
        }
    }
}

pub open spec fn dec_usize(b: Seq<u8>, i: int) -> Option<(usize, int)> {
    match dec_u64(b, i) {
        None => None,
        Some((v, j)) => if v <= usize::MAX as u64 {
            Some((v as usize, j))
        } else {
            None
        },
    }
}

pub open spec fn dec_str(b: Seq<u8>, i: int) -> Option<(Seq<char>, int)> {
    match dec_usize(b, i) {
        None => None,
        Some((n, j)) => dec_chars(b, j, n as int),
    }
}

pub open spec fn dec_rect(b: Seq<u8>, i: int) -> Option<(AtlasRect, int)> {
    match dec_u32(b, i) {
        None => None,
        Some((x, i1)) => match dec_u32(b, i1) {
            None => None,
            Some((y, i2)) => match dec_u32(b, i2) {
                None => None,
                Some((w, i3)) => match dec_u32(b, i3) {
                    None => None,
                    Some((h, i4)) => Some((AtlasRect { x, y, w, h }, i4)),
                },
            },
        },
    }
}

pub open spec fn dec_kind(b: Seq<u8>, i: int) -> Option<(TileKind, int)> {
    if 0 <= i && i + 1 <= b.len() {
        if b[i] == 0u8 {
            Some((TileKind::Static, i + 1))
        } else if b[i] == 1u8 {
            match dec_u64(b, i + 1) {
                None => None,
                Some((fc, j)) => match dec_u64(b, j) {
                    None => None,
                    Some((d, k)) => Some((TileKind::Animated(fc, d), k)),
                },
            }
        } else {
            None
        }
    } else {
        None
    }
}

pub open spec fn dec_tile(b: Seq<u8>, i: int) -> Option<(AtlasTile, int)> {
    match dec_u32(b, i) {
        None => None,
        Some((ox, i1)) => match dec_u32(b, i1) {
            None => None,
            Some((oy, i2)) => match dec_bool(b, i2) {
                None => None,
                Some((auto, i3)) => match dec_kind(b, i3) {
                    None => None,
                    Some((k, i4)) => Some(
                        (AtlasTile { offset: (ox, oy), is_autotile: auto, tile_kind: k }, i4),
                    ),
                },
            },
        },
    }
}

pub open spec fn dec_tile_entries(b: Seq<u8>, i: int, n: int) -> Option<
    (Seq<(usize, AtlasTile)>, int),
>
    decreases n,
{
    if n <= 0 {
        Some((Seq::empty(), i))
    } else {
        match dec_usize(b, i) {
            None => None,
            Some((idx, j)) => match dec_tile(b, j) {
                None => None,
                Some((t, k)) => match dec_tile_entries(b, k, n - 1) {
                    None => None,
                    Some((rest, m)) => Some((seq![(idx, t)] + rest, m)),
                },
            },
        }
    }
}

pub open spec fn dec_frame(b: Seq<u8>, i: int) -> Option<(FrameView, int)> {
    match dec_u32(b, i) {
        None => None,
        Some((tw, i1)) => match dec_u32(b, i1) {
            None => None,
            Some((th, i2)) => match dec_usize(b, i2) {
                None => None,
                Some((tex, i3)) => match dec_rect(b, i3) {
                    None => None,
                    Some((rect, i4)) => match dec_usize(b, i4) {
                        None => None,
                        Some((n, i5)) => match dec_tile_entries(b, i5, n as int) {
                            None => None,
                            Some((offsets, i6)) => Some(
                                (
                                    FrameView {
                                        tile_size: (tw, th),
                                        texture_idx: tex,
                                        rect,
                                        offsets,
                                    },
                                    i6,
                                ),
                            ),
                        },
                    },
                },
            },
        },
    }
}

pub open spec fn dec_loc_entries(b: Seq<u8>, i: int, n: int) -> Option<
    (Seq<(usize, Seq<char>)>, int),
>
    decreases n,
{
    if n <= 0 {
        Some((Seq::empty(), i))
    } else {
        match dec_usize(b, i) {
            None => None,
            Some((idx, j)) => match dec_str(b, j) {
                None => None,
                Some((s, k)) => match dec_loc_entries(b, k, n - 1) {
                    None => None,
                    Some((rest, m)) => Some((seq![(idx, s)] + rest, m)),
                },
            },
        }
    }
}

pub open spec fn dec_frame_entries(b: Seq<u8>, i: int, n: int) -> Option<
    (Seq<(Seq<char>, FrameView)>, int),
>
    decreases n,
{
    if n <= 0 {
        Some((Seq::empty(), i))
    } else {
        match dec_str(b, i) {
            None => None,
            Some((s, j)) => match dec_frame(b, j) {
                None => None,
                Some((f, k)) => match dec_frame_entries(b, k, n - 1) {
                    None => None,
                    Some((rest, m)) => Some((seq![(s, f)] + rest, m)),
                },
            },
        }
    }
}

/// The whole blob, which must be consumed exactly.
pub open spec fn spec_decode_config(b: Seq<u8>) -> Option<
    (Seq<(usize, Seq<char>)>, Seq<(Seq<char>, FrameView)>, Seq<char>),
> {
    match dec_usize(b, 0) {
        None => None,
        Some((nl, i1)) => match dec_loc_entries(b, i1, nl as int) {
            None => None,
            Some((locs, i2)) => match dec_usize(b, i2) {
                None => None,
                Some((nf, i3)) => match dec_frame_entries(b, i3, nf as int) {
                    None => None,
                    Some((frames, i4)) => match dec_str(b, i4) {
                        None => None,
                        Some((h, i5)) => if i5 == b.len() {
                            Some((locs, frames, h))
                        } else {
                            None
                        },
                    },
                },
            },
        },
    }
}

/// `enc_chars` length.
pub proof fn lemma_enc_chars_len(s: Seq<char>, n: int)
    requires
        0 <= n,
    ensures
        enc_chars(s, n).len() == 4 * n,
    decreases n,
{
    lemma_auto_spec_u32_to_from_le_bytes();
    if n > 0 {
        lemma_enc_chars_len(s, n - 1);
    }
}

/// `enc_chars` splits off its first character.
pub proof fn lemma_enc_chars_front(s: Seq<char>, n: int)
    requires
        1 <= n <= s.len(),
    ensures
        (enc_chars(s, n) =~= enc_char(s[0]) + enc_chars(s.subrange(1, s.len() as int), n - 1)),
    decreases n,
{
    let s1 = s.subrange(1, s.len() as int);
    if n == 1 {
        assert(enc_chars(s, 1) == enc_chars(s, 0) + enc_char(s[0]));
        assert(enc_chars(s, 0) =~= Seq::<u8>::empty());
        assert(enc_chars(s1, 0) =~= Seq::<u8>::empty());
        assert(enc_chars(s, 1) =~= enc_char(s[0]) + enc_chars(s1, 0));
    } else {
        lemma_enc_chars_front(s, n - 1);
        assert(enc_chars(s, n) == enc_chars(s, n - 1) + enc_char(s[n - 1]));
        assert(enc_chars(s1, n - 1) == enc_chars(s1, n - 2) + enc_char(s1[n - 2]));
        assert(s1[n - 2] == s[n - 1]);
        assert(enc_chars(s, n) =~= enc_char(s[0]) + enc_chars(s1, n - 1));
    }
}

/// Round trip of one `u32`.
pub proof fn rt_u32(pre: Seq<u8>, x: u32, post: Seq<u8>)
    ensures
        enc_u32(x).len() == 4,
        dec_u32(pre + enc_u32(x) + post, pre.len() as int) == Some((x, pre.len() as int + 4)),
{
    lemma_auto_spec_u32_to_from_le_bytes();
    let b = pre + enc_u32(x) + post;
    assert(b.subrange(pre.len() as int, pre.len() as int + 4) =~= enc_u32(x));
}

/// Round trip of one `u64`.
pub proof fn rt_u64(pre: Seq<u8>, x: u64, post: Seq<u8>)
    ensures
        enc_u64(x).len() == 8,
        dec_u64(pre + enc_u64(x) + post, pre.len() as int) == Some((x, pre.len() as int + 8)),
{
    lemma_auto_spec_u64_to_from_le_bytes();
    let b = pre + enc_u64(x) + post;
    assert(b.subrange(pre.len() as int, pre.len() as int + 8) =~= enc_u64(x));
}

/// Round trip of one `usize`, stored as a `u64`.
pub proof fn rt_usize(pre: Seq<u8>, x: usize, post: Seq<u8>)
    ensures
        enc_u64(x as u64).len() == 8,
        dec_usize(pre + enc_u64(x as u64) + post, pre.len() as int) == Some((x, pre.len() as int + 8)),
{
    rt_u64(pre, x as u64, post);
}

/// Round trip of one `bool`.
pub proof fn rt_bool(pre: Seq<u8>, x: bool, post: Seq<u8>)
    ensures
        enc_bool(x).len() == 1,
        dec_bool(pre + enc_bool(x) + post, pre.len() as int) == Some((x, pre.len() as int + 1)),
{
    let b = pre + enc_bool(x) + post;
    assert(b[pre.len() as int] == enc_bool(x)[0]);
}

/// Round trip of one character.
pub proof fn rt_char(pre: Seq<u8>, c: char, post: Seq<u8>)
    ensures
        enc_char(c).len() == 4,
        dec_char(pre + enc_char(c) + post, pre.len() as int) == Some((c, pre.len() as int + 4)),
{
    rt_u32(pre, c as u32, post);
    assert(scalar_ok(c as u32));
    assert((c as u32) as char == c);
}

/// Round trip of the first `n` characters of `s`.
pub proof fn rt_chars(pre: Seq<u8>, s: Seq<char>, n: int, post: Seq<u8>)
    requires
        0 <= n <= s.len(),
    ensures
        (dec_chars(pre + enc_chars(s, n) + post, pre.len() as int, n) == Some(
            (s.take(n), pre.len() as int + enc_chars(s, n).len()),
        )),
    decreases n,
{
    lemma_enc_chars_len(s, n);
    let b = pre + enc_chars(s, n) + post;
    if n == 0 {
        assert(s.take(0) =~= Seq::<char>::empty());
    } else {
        let s1 = s.subrange(1, s.len() as int);
        lemma_enc_chars_front(s, n);
        lemma_enc_chars_len(s1, n - 1);
        assert(b =~= pre + enc_char(s[0]) + (enc_chars(s1, n - 1) + post));
        rt_char(pre, s[0], enc_chars(s1, n - 1) + post);
        assert(b =~= (pre + enc_char(s[0])) + enc_chars(s1, n - 1) + post);
        rt_chars(pre + enc_char(s[0]), s1, n - 1, post);
        assert(dec_char(b, pre.len() as int) == Some((s[0], pre.len() as int + 4)));
        assert(dec_chars(b, pre.len() as int + 4, n - 1) == Some(
            (s1.take(n - 1), pre.len() as int + 4 + enc_chars(s1, n - 1).len()),
        ));
        assert(seq![s[0]] + s1.take(n - 1) =~= s.take(n));
    }
}

/// Round trip of one string.
pub proof fn rt_str(pre: Seq<u8>, s: Seq<char>, post: Seq<u8>)
    requires
        s.len() <= usize::MAX,
    ensures
        (dec_str(pre + enc_str(s) + post, pre.len() as int) == Some(
            (s, pre.len() as int + enc_str(s).len()),
        )),
{
    let n = s.len() as int;
    lemma_enc_chars_len(s, n);
    let b = pre + enc_str(s) + post;
    assert(b =~= pre + enc_u64(s.len() as u64) + (enc_chars(s, n) + post));
    rt_usize(pre, s.len() as usize, post + Seq::empty());
    rt_u64(pre, s.len() as u64, enc_chars(s, n) + post);
    assert(dec_usize(b, pre.len() as int) == Some((s.len() as usize, pre.len() as int + 8)));
    assert(b =~= (pre + enc_u64(s.len() as u64)) + enc_chars(s, n) + post);
    rt_chars(pre + enc_u64(s.len() as u64), s, n, post);
    assert(s.take(n) =~= s);
}

/// Round trip of one rectangle.
pub proof fn rt_rect(pre: Seq<u8>, r: AtlasRect, post: Seq<u8>)
    ensures
        enc_rect(r).len() == 16,
        (dec_rect(pre + enc_rect(r) + post, pre.len() as int) == Some((r, pre.len() as int + 16))),
{
    lemma_auto_spec_u32_to_from_le_bytes();
    let b = pre + enc_rect(r) + post;
    assert(b =~= pre + enc_u32(r.x) + (enc_u32(r.y) + enc_u32(r.w) + enc_u32(r.h) + post));
    rt_u32(pre, r.x, enc_u32(r.y) + enc_u32(r.w) + enc_u32(r.h) + post);
    assert(b =~= (pre + enc_u32(r.x)) + enc_u32(r.y) + (enc_u32(r.w) + enc_u32(r.h) + post));
    rt_u32(pre + enc_u32(r.x), r.y, enc_u32(r.w) + enc_u32(r.h) + post);
    assert(b =~= (pre + enc_u32(r.x) + enc_u32(r.y)) + enc_u32(r.w) + (enc_u32(r.h) + post));
    rt_u32(pre + enc_u32(r.x) + enc_u32(r.y), r.w, enc_u32(r.h) + post);
    assert(b =~= (pre + enc_u32(r.x) + enc_u32(r.y) + enc_u32(r.w)) + enc_u32(r.h) + post);
    rt_u32(pre + enc_u32(r.x) + enc_u32(r.y) + enc_u32(r.w), r.h, post);
}

/// Round trip of one tile kind.
pub proof fn rt_kind(pre: Seq<u8>, k: TileKind, post: Seq<u8>)
    ensures
        (dec_kind(pre + enc_kind(k) + post, pre.len() as int) == Some(
            (k, pre.len() as int + enc_kind(k).len()),
        )),
{
    let b = pre + enc_kind(k) + post;
    match k {
        TileKind::Static => {
            assert(b[pre.len() as int] == 0u8);
        },
        TileKind::Animated(fc, d) => {
            assert(b[pre.len() as int] == 1u8);
            assert(b =~= (pre + seq![1u8]) + enc_u64(fc) + (enc_u64(d) + post));
            rt_u64(pre + seq![1u8], fc, enc_u64(d) + post);
            assert(b =~= (pre + seq![1u8] + enc_u64(fc)) + enc_u64(d) + post);
            rt_u64(pre + seq![1u8] + enc_u64(fc), d, post);
        },
    }
}

/// Round trip of one tile.
pub proof fn rt_tile(pre: Seq<u8>, t: AtlasTile, post: Seq<u8>)
    ensures
        (dec_tile(pre + enc_tile(t) + post, pre.len() as int) == Some(
            (t, pre.len() as int + enc_tile(t).len()),
        )),
{
    lemma_auto_spec_u32_to_from_le_bytes();
    let b = pre + enc_tile(t) + post;
    let e1 = enc_u32(t.offset.0);
    let e2 = enc_u32(t.offset.1);
    let e3 = enc_bool(t.is_autotile);
    let e4 = enc_kind(t.tile_kind);
    assert(b =~= pre + e1 + (e2 + e3 + e4 + post));
    rt_u32(pre, t.offset.0, e2 + e3 + e4 + post);
    assert(b =~= (pre + e1) + e2 + (e3 + e4 + post));
    rt_u32(pre + e1, t.offset.1, e3 + e4 + post);
    assert(b =~= (pre + e1 + e2) + e3 + (e4 + post));
    rt_bool(pre + e1 + e2, t.is_autotile, e4 + post);
    assert(b =~= (pre + e1 + e2 + e3) + e4 + post);
    rt_kind(pre + e1 + e2 + e3, t.tile_kind, post);
}

/// `enc_tile_entries` splits off its first entry.
pub proof fn lemma_enc_tile_entries_front(s: Seq<(usize, AtlasTile)>, n: int)
    requires
        1 <= n <= s.len(),
    ensures
        (enc_tile_entries(s, n) =~= enc_u64(s[0].0 as u64) + enc_tile(s[0].1) + enc_tile_entries(
            s.subrange(1, s.len() as int),
            n - 1,
        )),
    decreases n,
{
    let s1 = s.subrange(1, s.len() as int);
    if n == 1 {
        assert(enc_tile_entries(s, 0) =~= Seq::<u8>::empty());
        assert(enc_tile_entries(s1, 0) =~= Seq::<u8>::empty());
    } else {
        lemma_enc_tile_entries_front(s, n - 1);
        assert(s1[n - 2] == s[n - 1]);
        assert(enc_tile_entries(s1, n - 1) == enc_tile_entries(s1, n - 2) + enc_u64(
            s1[n - 2].0 as u64,
        ) + enc_tile(s1[n - 2].1));
    }
}

/// Round trip of the first `n` tile entries.
#[verifier::rlimit(60)]
#[verifier::spinoff_prover]
pub proof fn rt_tile_entries(pre: Seq<u8>, s: Seq<(usize, AtlasTile)>, n: int, post: Seq<u8>)
    requires
        0 <= n <= s.len(),
    ensures
        (dec_tile_entries(pre + enc_tile_entries(s, n) + post, pre.len() as int, n) == Some(
            (s.take(n), pre.len() as int + enc_tile_entries(s, n).len()),
        )),
    decreases n,
{
    let b = pre + enc_tile_entries(s, n) + post;
    if n == 0 {
        assert(s.take(0) =~= Seq::<(usize, AtlasTile)>::empty());
    } else {
        let s1 = s.subrange(1, s.len() as int);
        lemma_enc_tile_entries_front(s, n);
        let e1 = enc_u64(s[0].0 as u64);
        let e2 = enc_tile(s[0].1);
        let rest = enc_tile_entries(s1, n - 1);
        assert(b =~= pre + e1 + (e2 + rest + post));
        rt_usize(pre, s[0].0, e2 + rest + post);
        assert(b =~= (pre + e1) + e2 + (rest + post));
        rt_tile(pre + e1, s[0].1, rest + post);
        assert(b =~= (pre + e1 + e2) + rest + post);
        rt_tile_entries(pre + e1 + e2, s1, n - 1, post);
        assert(seq![s[0]] + s1.take(n - 1) =~= s.take(n));
    }
}

/// Round trip of one frame.
pub proof fn rt_frame(pre: Seq<u8>, f: FrameView, post: Seq<u8>)
    requires
        f.offsets.len() <= usize::MAX,
    ensures
        (dec_frame(pre + enc_frame(f) + post, pre.len() as int) == Some(
            (f, pre.len() as int + enc_frame(f).len()),
        )),
{
    lemma_auto_spec_u32_to_from_le_bytes();
    let b = pre + enc_frame(f) + post;
    let e1 = enc_u32(f.tile_size.0);
    let e2 = enc_u32(f.tile_size.1);
    let e3 = enc_u64(f.texture_idx as u64);
    let e4 = enc_rect(f.rect);
    let e5 = enc_u64(f.offsets.len() as u64);
    let n = f.offsets.len() as int;
    let e6 = enc_tile_entries(f.offsets, n);
    assert(b =~= pre + e1 + (e2 + e3 + e4 + e5 + e6 + post));
    rt_u32(pre, f.tile_size.0, e2 + e3 + e4 + e5 + e6 + post);
    assert(b =~= (pre + e1) + e2 + (e3 + e4 + e5 + e6 + post));
    rt_u32(pre + e1, f.tile_size.1, e3 + e4 + e5 + e6 + post);
    assert(b =~= (pre + e1 + e2) + e3 + (e4 + e5 + e6 + post));
    rt_usize(pre + e1 + e2, f.texture_idx, e4 + e5 + e6 + post);
    assert(b =~= (pre + e1 + e2 + e3) + e4 + (e5 + e6 + post));
    rt_rect(pre + e1 + e2 + e3, f.rect, e5 + e6 + post);
    assert(b =~= (pre + e1 + e2 + e3 + e4) + e5 + (e6 + post));
    rt_usize(pre + e1 + e2 + e3 + e4, f.offsets.len() as usize, e6 + post);
    assert(b =~= (pre + e1 + e2 + e3 + e4 + e5) + e6 + post);
    rt_tile_entries(pre + e1 + e2 + e3 + e4 + e5, f.offsets, n, post);
    assert(f.offsets.take(n) =~= f.offsets);
    assert(dec_frame(b, pre.len() as int) matches Some((g, _)) ==> g =~~= f);
}

/// Every string in the location list fits a machine length.
pub open spec fn locs_bounded(s: Seq<(usize, Seq<char>)>) -> bool {
    forall|i: int| 0 <= i < s.len() ==> (#[trigger] s[i]).1.len() <= usize::MAX
}

/// Every key and tile list in the frame list fits a machine length.
pub open spec fn frames_bounded(s: Seq<(Seq<char>, FrameView)>) -> bool {
    forall|i: int|
        0 <= i < s.len() ==> (#[trigger] s[i]).0.len() <= usize::MAX && s[i].1.offsets.len()
            <= usize::MAX
}

/// `enc_loc_entries` splits off its first entry.
pub proof fn lemma_enc_loc_entries_front(s: Seq<(usize, Seq<char>)>, n: int)
    requires
        1 <= n <= s.len(),
    ensures
        (enc_loc_entries(s, n) =~= enc_u64(s[0].0 as u64) + enc_str(s[0].1) + enc_loc_entries(
            s.subrange(1, s.len() as int),
            n - 1,
        )),
    decreases n,
{
    let s1 = s.subrange(1, s.len() as int);
    if n == 1 {
        assert(enc_loc_entries(s, 0) =~= Seq::<u8>::empty());
        assert(enc_loc_entries(s1, 0) =~= Seq::<u8>::empty());
    } else {
        lemma_enc_loc_entries_front(s, n - 1);
        assert(s1[n - 2] == s[n - 1]);
        assert(enc_loc_entries(s1, n - 1) == enc_loc_entries(s1, n - 2) + enc_u64(
            s1[n - 2].0 as u64,
        ) + enc_str(s1[n - 2].1));
    }
}

/// Round trip of the first `n` location entries.
#[verifier::rlimit(60)]
#[verifier::spinoff_prover]
pub proof fn rt_loc_entries(pre: Seq<u8>, s: Seq<(usize, Seq<char>)>, n: int, post: Seq<u8>)
    requires
        0 <= n <= s.len(),
        locs_bounded(s),
    ensures
        (dec_loc_entries(pre + enc_loc_entries(s, n) + post, pre.len() as int, n) == Some(
            (s.take(n), pre.len() as int + enc_loc_entries(s, n).len()),
        )),
    decreases n,
{
    let b = pre + enc_loc_entries(s, n) + post;
    if n == 0 {
        assert(s.take(0) =~= Seq::<(usize, Seq<char>)>::empty());
    } else {
        let s1 = s.subrange(1, s.len() as int);
        assert(locs_bounded(s1));
        lemma_enc_loc_entries_front(s, n);
        let e1 = enc_u64(s[0].0 as u64);
        let e2 = enc_str(s[0].1);
        let rest = enc_loc_entries(s1, n - 1);
        assert(b =~= pre + e1 + (e2 + rest + post));
        rt_usize(pre, s[0].0, e2 + rest + post);
        assert(b =~= (pre + e1) + e2 + (rest + post));
        rt_str(pre + e1, s[0].1, rest + post);
        assert(b =~= (pre + e1 + e2) + rest + post);
        rt_loc_entries(pre + e1 + e2, s1, n - 1, post);
        assert(seq![s[0]] + s1.take(n - 1) =~= s.take(n));
    }
}

/// `enc_frame_entries` splits off its first entry.
pub proof fn lemma_enc_frame_entries_front(s: Seq<(Seq<char>, FrameView)>, n: int)
    requires
        1 <= n <= s.len(),
    ensures
        (enc_frame_entries(s, n) =~= enc_str(s[0].0) + enc_frame(s[0].1) + enc_frame_entries(
            s.subrange(1, s.len() as int),
            n - 1,
        )),
    decreases n,
{
    let s1 = s.subrange(1, s.len() as int);
    if n == 1 {
        assert(enc_frame_entries(s, 0) =~= Seq::<u8>::empty());
        assert(enc_frame_entries(s1, 0) =~= Seq::<u8>::empty());
    } else {
        lemma_enc_frame_entries_front(s, n - 1);
        assert(s1[n - 2] == s[n - 1]);
        assert(enc_frame_entries(s1, n - 1) == enc_frame_entries(s1, n - 2) + enc_str(
            s1[n - 2].0,
        ) + enc_frame(s1[n - 2].1));
    }
}

/// Round trip of the first `n` frame entries.
#[verifier::rlimit(60)]
#[verifier::spinoff_prover]
pub proof fn rt_frame_entries(pre: Seq<u8>, s: Seq<(Seq<char>, FrameView)>, n: int, post: Seq<u8>)
    requires
        0 <= n <= s.len(),
        frames_bounded(s),
    ensures
        (dec_frame_entries(pre + enc_frame_entries(s, n) + post, pre.len() as int, n) == Some(
            (s.take(n), pre.len() as int + enc_frame_entries(s, n).len()),
        )),
    decreases n,
{
    let b = pre + enc_frame_entries(s, n) + post;
    if n == 0 {
        assert(s.take(0) =~= Seq::<(Seq<char>, FrameView)>::empty());
    } else {
        let s1 = s.subrange(1, s.len() as int);
        assert(frames_bounded(s1));
        lemma_enc_frame_entries_front(s, n);
        let e1 = enc_str(s[0].0);
        let e2 = enc_frame(s[0].1);
        let rest = enc_frame_entries(s1, n - 1);
        assert(b =~= pre + e1 + (e2 + rest + post));
        rt_str(pre, s[0].0, e2 + rest + post);
        assert(b =~= (pre + e1) + e2 + (rest + post));
        rt_frame(pre + e1, s[0].1, rest + post);
        assert(b =~= (pre + e1 + e2) + rest + post);
        rt_frame_entries(pre + e1 + e2, s1, n - 1, post);
        assert(seq![s[0]] + s1.take(n - 1) =~= s.take(n));
    }
}

/// The round-trip law of the config blob: decoding an encoded config yields
/// exactly the locations, frames and content hash that were encoded.
pub proof fn lemma_config_round_trip(
    locs: Seq<(usize, Seq<char>)>,
    frames: Seq<(Seq<char>, FrameView)>,
    file_hash: Seq<char>,
)
    requires
        locs.len() <= usize::MAX,
        frames.len() <= usize::MAX,
        file_hash.len() <= usize::MAX,
        locs_bounded(locs),
        frames_bounded(frames),
    ensures
        (spec_decode_config(spec_encode_config(locs, frames, file_hash)) == Some(
            (locs, frames, file_hash),
        )),
{
    let b = spec_encode_config(locs, frames, file_hash);
    let nl = locs.len() as int;
    let nf = frames.len() as int;
    let e1 = enc_u64(locs.len() as u64);
    let e2 = enc_loc_entries(locs, nl);
    let e3 = enc_u64(frames.len() as u64);
    let e4 = enc_frame_entries(frames, nf);
    let e5 = enc_str(file_hash);
    let empty = Seq::<u8>::empty();
    assert(b =~= empty + e1 + (e2 + e3 + e4 + e5));
    rt_usize(empty, locs.len() as usize, e2 + e3 + e4 + e5);
    assert(b =~= (empty + e1) + e2 + (e3 + e4 + e5));
    rt_loc_entries(empty + e1, locs, nl, e3 + e4 + e5);
    assert(locs.take(nl) =~= locs);
    assert(b =~= (empty + e1 + e2) + e3 + (e4 + e5));
    rt_usize(empty + e1 + e2, frames.len() as usize, e4 + e5);
    assert(b =~= (empty + e1 + e2 + e3) + e4 + e5);
    rt_frame_entries(empty + e1 + e2 + e3, frames, nf, e5);
    assert(frames.take(nf) =~= frames);
    assert(b =~= (empty + e1 + e2 + e3 + e4) + e5 + empty);
    rt_str(empty + e1 + e2 + e3 + e4, file_hash, empty);
    assert((empty + e1 + e2 + e3 + e4).len() as int + e5.len() == b.len());
}

/// Appends a copy of `b` to `out`.
fn push_bytes(out: &mut Vec<u8>, b: &Vec<u8>)
    ensures
        final(out)@ == old(out)@ + b@,
{
    let mut i: usize = 0;
    while i < b.len()
        invariant
            i <= b@.len(),
            out@ == old(out)@ + b@.take(i as int),
        decreases b@.len() - i,
    {
        out.push(b[i]);
        proof {
            assert(out@ =~= old(out)@ + b@.take(i + 1));
        }
        i += 1;
    }
    proof {
        assert(b@.take(b@.len() as int) =~= b@);
    }
}

fn enc_u32_into(out: &mut Vec<u8>, x: u32)
    ensures
        final(out)@ == old(out)@ + enc_u32(x),
{
    let b = u32_to_le_bytes(x);
    push_bytes(out, &b);
}

fn enc_u64_into(out: &mut Vec<u8>, x: u64)
    ensures
        final(out)@ == old(out)@ + enc_u64(x),
{
    let b = u64_to_le_bytes(x);
    push_bytes(out, &b);
}

fn enc_bool_into(out: &mut Vec<u8>, x: bool)
    ensures
        final(out)@ == old(out)@ + enc_bool(x),
{
    if x {
        out.push(1u8);
    } else {
        out.push(0u8);
    }
    proof {
        assert(out@ =~= old(out)@ + enc_bool(x));
    }
}

fn enc_str_into(out: &mut Vec<u8>, s: &String)
    ensures
        final(out)@ == old(out)@ + enc_str(s@),
{
    let n = s.as_str().unicode_len();
    enc_u64_into(out, n as u64);
    let mut i: usize = 0;
    while i < n
        invariant
            i <= n,
            n == s@.len(),
            out@ == old(out)@ + enc_u64(n as u64) + enc_chars(s@, i as int),
        decreases n - i,
    {
        let c = s.as_str().get_char(i);
        enc_u32_into(out, c as u32);
        proof {
            assert(enc_chars(s@, i + 1) == enc_chars(s@, i as int) + enc_char(s@[i as int]));
            assert(out@ =~= old(out)@ + enc_u64(n as u64) + enc_chars(s@, i + 1));
        }
        i += 1;
    }
}

fn enc_rect_into(out: &mut Vec<u8>, r: &AtlasRect)
    ensures
        final(out)@ == old(out)@ + enc_rect(*r),
{
    enc_u32_into(out, r.x);
    enc_u32_into(out, r.y);
    enc_u32_into(out, r.w);
    enc_u32_into(out, r.h);
    proof {
        assert(out@ =~= old(out)@ + enc_rect(*r));
    }
}

fn enc_kind_into(out: &mut Vec<u8>, k: &TileKind)
    ensures
        final(out)@ == old(out)@ + enc_kind(*k),
{
    match k {
        TileKind::Static => {
            out.push(0u8);
            proof {
                assert(out@ =~= old(out)@ + enc_kind(*k));
            }
        },
        TileKind::Animated(fc, d) => {
            out.push(1u8);
            enc_u64_into(out, *fc);
            enc_u64_into(out, *d);
            proof {
                assert(out@ =~= old(out)@ + enc_kind(*k));
            }
        },
    }
}

fn enc_tile_into(out: &mut Vec<u8>, t: &AtlasTile)
    ensures
        final(out)@ == old(out)@ + enc_tile(*t),
{
    enc_u32_into(out, t.offset.0);
    enc_u32_into(out, t.offset.1);
    enc_bool_into(out, t.is_autotile);
    enc_kind_into(out, &t.tile_kind);
    proof {
        assert(out@ =~= old(out)@ + enc_tile(*t));
    }
}

fn enc_tile_entries_into(out: &mut Vec<u8>, v: &Vec<(usize, AtlasTile)>)
    ensures
        final(out)@ == old(out)@ + enc_tile_entries(v@, v@.len() as int),
{
    let mut i: usize = 0;
    while i < v.len()
        invariant
            i <= v@.len(),
            out@ == old(out)@ + enc_tile_entries(v@, i as int),
        decreases v@.len() - i,
    {
        enc_u64_into(out, v[i].0 as u64);
        enc_tile_into(out, &v[i].1);
        proof {
            assert(enc_tile_entries(v@, i + 1) == enc_tile_entries(v@, i as int) + enc_u64(
                v@[i as int].0 as u64,
            ) + enc_tile(v@[i as int].1));
            assert(out@ =~= old(out)@ + enc_tile_entries(v@, i + 1));
        }
        i += 1;
    }
}

fn enc_frame_into(out: &mut Vec<u8>, f: &crate::tile_atlas::AtlasFrame)
    ensures
        final(out)@ == old(out)@ + enc_frame(f@),
{
    enc_u32_into(out, f.tile_size.0);
    enc_u32_into(out, f.tile_size.1);
    enc_u64_into(out, f.texture_idx as u64);
    enc_rect_into(out, &f.rect);
    enc_u64_into(out, f.offsets.len() as u64);
    enc_tile_entries_into(out, &f.offsets);
    proof {
        assert(out@ =~= old(out)@ + enc_frame(f@));
    }
}

fn enc_loc_entries_into(out: &mut Vec<u8>, v: &Vec<(usize, String)>)
    ensures
        final(out)@ == old(out)@ + enc_loc_entries(
            crate::tile_atlas::loc_view(v@),
            v@.len() as int,
        ),
{
    let ghost lv = crate::tile_atlas::loc_view(v@);
    proof {
        crate::tile_atlas::lemma_loc_view_index(v@, 0);
    }
    let mut i: usize = 0;
    while i < v.len()
        invariant
            i <= v@.len(),
            lv == crate::tile_atlas::loc_view(v@),
            lv.len() == v@.len(),
            out@ == old(out)@ + enc_loc_entries(lv, i as int),
        decreases v@.len() - i,
    {
        enc_u64_into(out, v[i].0 as u64);
        enc_str_into(out, &v[i].1);
        proof {
            crate::tile_atlas::lemma_loc_view_index(v@, i as int);
            assert(enc_loc_entries(lv, i + 1) == enc_loc_entries(lv, i as int) + enc_u64(
                lv[i as int].0 as u64,
            ) + enc_str(lv[i as int].1));
            assert(out@ =~= old(out)@ + enc_loc_entries(lv, i + 1));
        }
        i += 1;
    }
}

fn enc_frame_entries_into(out: &mut Vec<u8>, v: &Vec<(String, crate::tile_atlas::AtlasFrame)>)
    ensures
        final(out)@ == old(out)@ + enc_frame_entries(
            crate::tile_atlas::frames_view(v@),
            v@.len() as int,
        ),
{
    let ghost fv = crate::tile_atlas::frames_view(v@);
    proof {
        crate::tile_atlas::lemma_frames_view_index(v@, 0);
    }
    let mut i: usize = 0;
    while i < v.len()
        invariant
            i <= v@.len(),
            fv == crate::tile_atlas::frames_view(v@),
            fv.len() == v@.len(),
            out@ == old(out)@ + enc_frame_entries(fv, i as int),
        decreases v@.len() - i,
    {
        enc_str_into(out, &v[i].0);
        enc_frame_into(out, &v[i].1);
        proof {
            crate::tile_atlas::lemma_frames_view_index(v@, i as int);
            assert(enc_frame_entries(fv, i + 1) == enc_frame_entries(fv, i as int) + enc_str(
                fv[i as int].0,
            ) + enc_frame(fv[i as int].1));
            assert(out@ =~= old(out)@ + enc_frame_entries(fv, i + 1));
        }
        i += 1;
    }
}

/// Encodes the three parts of a config into one blob.
pub(crate) fn encode_parts(
    locations: &Vec<(usize, String)>,
    frames: &Vec<(String, crate::tile_atlas::AtlasFrame)>,
    file_hash: &String,
) -> (out: Vec<u8>)
    ensures
        (out@ == spec_encode_config(
            crate::tile_atlas::loc_view(locations@),
            crate::tile_atlas::frames_view(frames@),
            file_hash@,
        )),
{
    let mut out: Vec<u8> = Vec::new();
    proof {
        crate::tile_atlas::lemma_loc_view_index(locations@, 0);
        crate::tile_atlas::lemma_frames_view_index(frames@, 0);
    }
    enc_u64_into(&mut out, locations.len() as u64);
    enc_loc_entries_into(&mut out, locations);
    enc_u64_into(&mut out, frames.len() as u64);
    enc_frame_entries_into(&mut out, frames);
    enc_str_into(&mut out, file_hash);
    proof {
        assert(out@ =~= spec_encode_config(
            crate::tile_atlas::loc_view(locations@),
            crate::tile_atlas::frames_view(frames@),
            file_hash@,
        ));
    }
    out
}

/// Relies on `char::from_u32`: it returns a char exactly for valid Unicode
/// scalar values (not a surrogate, at most 0x10FFFF), the char whose scalar
/// value is the argument.
#[verifier::external_body]
fn char_from_u32(u: u32) -> (r: Option<char>)
    ensures
        r is Some <==> scalar_ok(u),
        r matches Some(c) ==> c == (u as char),
{
    char::from_u32(u)
}

/// Relies on `String::push`: it appends exactly the given character.
#[verifier::external_body]
fn string_push(s: &mut String, c: char)
    ensures
        final(s)@ == old(s)@.push(c),
{
    s.push(c);
}

fn dex_u32(b: &Vec<u8>, pos: usize) -> (r: Option<(u32, usize)>)
    ensures
        match r {
            Some((x, p)) => dec_u32(b@, pos as int) == Some((x, p as int)),
            None => dec_u32(b@, pos as int) is None,
        },
{
    if b.len() >= 4 && pos <= b.len() - 4 {
        let s = slice_subrange(b.as_slice(), pos, pos + 4);
        let x = u32_from_le_bytes(s);
        Some((x, pos + 4))
    } else {
        None
    }
}

fn dex_u64(b: &Vec<u8>, pos: usize) -> (r: Option<(u64, usize)>)
    ensures
        match r {
            Some((x, p)) => dec_u64(b@, pos as int) == Some((x, p as int)),
            None => dec_u64(b@, pos as int) is None,
        },
{
    if b.len() >= 8 && pos <= b.len() - 8 {
        let s = slice_subrange(b.as_slice(), pos, pos + 8);
        let x = u64_from_le_bytes(s);
        Some((x, pos + 8))
    } else {
        None
    }
}

fn dex_usize(b: &Vec<u8>, pos: usize) -> (r: Option<(usize, usize)>)
    ensures
        match r {
            Some((x, p)) => dec_usize(b@, pos as int) == Some((x, p as int)),
            None => dec_usize(b@, pos as int) is None,
        },
{
    match dex_u64(b, pos) {
        None => None,
        Some((v, p)) => if v <= usize::MAX as u64 {
            Some((v as usize, p))
        } else {
            None
        },
    }
}

fn dex_bool(b: &Vec<u8>, pos: usize) -> (r: Option<(bool, usize)>)
    ensures
        match r {
            Some((x, p)) => dec_bool(b@, pos as int) == Some((x, p as int)),
            None => dec_bool(b@, pos as int) is None,
        },
{
    if pos < b.len() {
        let byte = b[pos];
        if byte == 0u8 {
            Some((false, pos + 1))
        } else if byte == 1u8 {
            Some((true, pos + 1))
        } else {
            None
        }
    } else {
        None
    }
}

fn dex_char(b: &Vec<u8>, pos: usize) -> (r: Option<(char, usize)>)
    ensures
        match r {
            Some((x, p)) => dec_char(b@, pos as int) == Some((x, p as int)),
            None => dec_char(b@, pos as int) is None,
        },
{
    match dex_u32(b, pos) {
        None => None,
        Some((u, p)) => match char_from_u32(u) {
            None => None,
            Some(c) => Some((c, p)),
        },
    }
}

fn dex_chars(b: &Vec<u8>, pos: usize, n: usize) -> (r: Option<(String, usize)>)
    ensures
        match r {
            Some((s, p)) => dec_chars(b@, pos as int, n as int) == Some((s@, p as int)),
            None => dec_chars(b@, pos as int, n as int) is None,
        },
    decreases n,
{
    if n == 0 {
        let s = String::new();
        proof {
            assert(s@ =~= Seq::<char>::empty());
        }
        Some((s, pos))
    } else {
        match dex_char(b, pos) {
            None => None,
            Some((c, p1)) => match dex_chars(b, p1, n - 1) {
                None => None,
                Some((rest, p2)) => {
                    let mut s = String::new();
                    string_push(&mut s, c);
                    s.append(rest.as_str());
                    proof {
                        assert(s@ =~= seq![c] + rest@);
                    }
                    Some((s, p2))
                },
            },
        }
    }
}

fn dex_str(b: &Vec<u8>, pos: usize) -> (r: Option<(String, usize)>)
    ensures
        match r {
            Some((s, p)) => dec_str(b@, pos as int) == Some((s@, p as int)),
            None => dec_str(b@, pos as int) is None,
        },
{
    match dex_usize(b, pos) {
        None => None,
        Some((n, p)) => dex_chars(b, p, n),
    }
}

fn dex_rect(b: &Vec<u8>, pos: usize) -> (r: Option<(AtlasRect, usize)>)
    ensures
        match r {
            Some((x, p)) => dec_rect(b@, pos as int) == Some((x, p as int)),
            None => dec_rect(b@, pos as int) is None,
        },
{
    match dex_u32(b, pos) {
        None => None,
        Some((x, p1)) => match dex_u32(b, p1) {
            None => None,
            Some((y, p2)) => match dex_u32(b, p2) {
                None => None,
                Some((w, p3)) => match dex_u32(b, p3) {
                    None => None,
                    Some((h, p4)) => Some((AtlasRect { x, y, w, h }, p4)),
                },
            },
        },
    }
}

fn dex_kind(b: &Vec<u8>, pos: usize) -> (r: Option<(TileKind, usize)>)
    ensures
        match r {
            Some((x, p)) => dec_kind(b@, pos as int) == Some((x, p as int)),
            None => dec_kind(b@, pos as int) is None,
        },
{
    if pos < b.len() {
        let tag = b[pos];
        if tag == 0u8 {
            Some((TileKind::Static, pos + 1))
        } else if tag == 1u8 {
            match dex_u64(b, pos + 1) {
                None => None,
                Some((fc, p1)) => match dex_u64(b, p1) {
                    None => None,
                    Some((d, p2)) => Some((TileKind::Animated(fc, d), p2)),
                },
            }
        } else {
            None
        }
    } else {
        None
    }
}

fn dex_tile(b: &Vec<u8>, pos: usize) -> (r: Option<(AtlasTile, usize)>)
    ensures
        match r {
            Some((x, p)) => dec_tile(b@, pos as int) == Some((x, p as int)),
            None => dec_tile(b@, pos as int) is None,
        },
{
    match dex_u32(b, pos) {
        None => None,
        Some((ox, p1)) => match dex_u32(b, p1) {
            None => None,
            Some((oy, p2)) => match dex_bool(b, p2) {
                None => None,
                Some((auto, p3)) => match dex_kind(b, p3) {
                    None => None,
                    Some((k, p4)) => Some(
                        (AtlasTile { offset: (ox, oy), is_autotile: auto, tile_kind: k }, p4),
                    ),
                },
            },
        },
    }
}

fn dex_tile_entries(b: &Vec<u8>, pos: usize, n: usize) -> (r: Option<
    (Vec<(usize, AtlasTile)>, usize),
>)
    ensures
        match r {
            Some((v, p)) => dec_tile_entries(b@, pos as int, n as int) == Some((v@, p as int)),
            None => dec_tile_entries(b@, pos as int, n as int) is None,
        },
    decreases n,
{
    if n == 0 {
        let v: Vec<(usize, AtlasTile)> = Vec::new();
        proof {
            assert(v@ =~= Seq::<(usize, AtlasTile)>::empty());
        }
        Some((v, pos))
    } else {
        match dex_usize(b, pos) {
            None => None,
            Some((idx, p1)) => match dex_tile(b, p1) {
                None => None,
                Some((t, p2)) => match dex_tile_entries(b, p2, n - 1) {
                    None => None,
                    Some((mut rest, p3)) => {
                        rest.insert(0, (idx, t));
                        proof {
                            assert(rest@ =~= seq![(idx, t)] + rest@.subrange(
                                1,
                                rest@.len() as int,
                            ));
                        }
                        Some((rest, p3))
                    },
                },
            },
        }
    }
}

fn dex_frame(b: &Vec<u8>, pos: usize) -> (r: Option<(crate::tile_atlas::AtlasFrame, usize)>)
    ensures
        match r {
            Some((f, p)) => dec_frame(b@, pos as int) == Some((f@, p as int)),
            None => dec_frame(b@, pos as int) is None,
        },
{
    match dex_u32(b, pos) {
        None => None,
        Some((tw, p1)) => match dex_u32(b, p1) {
            None => None,
            Some((th, p2)) => match dex_usize(b, p2) {
                None => None,
                Some((tex, p3)) => match dex_rect(b, p3) {
                    None => None,
                    Some((rect, p4)) => match dex_usize(b, p4) {
                        None => None,
                        Some((n, p5)) => match dex_tile_entries(b, p5, n) {
                            None => None,
                            Some((offsets, p6)) => Some(
                                (
                                    crate::tile_atlas::AtlasFrame {
                                        tile_size: (tw, th),
                                        texture_idx: tex,
                                        rect,
                                        offsets,
                                    },
                                    p6,
                                ),
                            ),
                        },
                    },
                },
            },
        },
    }
}

fn dex_loc_entries(b: &Vec<u8>, pos: usize, n: usize) -> (r: Option<
    (Vec<(usize, String)>, usize),
>)
    ensures
        match r {
            Some((v, p)) => dec_loc_entries(b@, pos as int, n as int) == Some(
                (crate::tile_atlas::loc_view(v@), p as int),
            ),
            None => dec_loc_entries(b@, pos as int, n as int) is None,
        },
    decreases n,
{
    if n == 0 {
        let v: Vec<(usize, String)> = Vec::new();
        proof {
            crate::tile_atlas::lemma_loc_view_index(v@, 0);
            assert(crate::tile_atlas::loc_view(v@) =~= Seq::<(usize, Seq<char>)>::empty());
        }
        Some((v, pos))
    } else {
        match dex_usize(b, pos) {
            None => None,
            Some((idx, p1)) => match dex_str(b, p1) {
                None => None,
                Some((s, p2)) => match dex_loc_entries(b, p2, n - 1) {
                    None => None,
                    Some((mut rest, p3)) => {
                        let ghost rv = crate::tile_atlas::loc_view(rest@);
                        let ghost sv = s@;
                        rest.insert(0, (idx, s));
                        proof {
                            let lv = crate::tile_atlas::loc_view(rest@);
                            crate::tile_atlas::lemma_loc_view_index(rest@, 0);
                            assert forall|j: int| 0 <= j < lv.len() implies lv[j] == (seq![
                                (idx, sv),
                            ] + rv)[j] by {
                                crate::tile_atlas::lemma_loc_view_index(rest@, j);
                                if j > 0 {
                                    crate::tile_atlas::lemma_loc_view_index(
                                        rest@.subrange(1, rest@.len() as int),
                                        j - 1,
                                    );
                                }
                            }
                            assert(lv =~= seq![(idx, sv)] + rv);
                        }
                        Some((rest, p3))
                    },
                },
            },
        }
    }
}

fn dex_frame_entries(b: &Vec<u8>, pos: usize, n: usize) -> (r: Option<
    (Vec<(String, crate::tile_atlas::AtlasFrame)>, usize),
>)
    ensures
        match r {
            Some((v, p)) => dec_frame_entries(b@, pos as int, n as int) == Some(
                (crate::tile_atlas::frames_view(v@), p as int),
            ),
            None => dec_frame_entries(b@, pos as int, n as int) is None,
        },
    decreases n,
{
    if n == 0 {
        let v: Vec<(String, crate::tile_atlas::AtlasFrame)> = Vec::new();
        proof {
            crate::tile_atlas::lemma_frames_view_index(v@, 0);
            assert(crate::tile_atlas::frames_view(v@) =~= Seq::<
                (Seq<char>, crate::tile_atlas::FrameView),
            >::empty());
        }
        Some((v, pos))
    } else {
        match dex_str(b, pos) {
            None => None,
            Some((s, p1)) => match dex_frame(b, p1) {
                None => None,
                Some((f, p2)) => match dex_frame_entries(b, p2, n - 1) {
                    None => None,
                    Some((mut rest, p3)) => {
                        let ghost rv = crate::tile_atlas::frames_view(rest@);
                        let ghost sv = s@;
                        let ghost fv = f@;
                        rest.insert(0, (s, f));
                        proof {
                            let lv = crate::tile_atlas::frames_view(rest@);
                            crate::tile_atlas::lemma_frames_view_index(rest@, 0);
                            assert forall|j: int| 0 <= j < lv.len() implies lv[j] == (seq![
                                (sv, fv),
                            ] + rv)[j] by {
                                crate::tile_atlas::lemma_frames_view_index(rest@, j);
                                if j > 0 {
                                    crate::tile_atlas::lemma_frames_view_index(
                                        rest@.subrange(1, rest@.len() as int),
                                        j - 1,
                                    );
                                }
                            }
                            assert(lv =~= seq![(sv, fv)] + rv);
                        }
                        Some((rest, p3))
                    },
                },
            },
        }
    }
}

/// Decodes one blob into the three parts of a config; the blob must be
/// consumed exactly.
pub(crate) fn decode_parts(b: &Vec<u8>) -> (r: Option<
    (Vec<(usize, String)>, Vec<(String, crate::tile_atlas::AtlasFrame)>, String),
>)
    ensures
        match r {
            Some((locs, frames, h)) => spec_decode_config(b@) == Some(
                (
                    crate::tile_atlas::loc_view(locs@),
                    crate::tile_atlas::frames_view(frames@),
                    h@,
                ),
            ),
            None => spec_decode_config(b@) is None,
        },
{
    match dex_usize(b, 0) {
        None => None,
        Some((nl, p1)) => match dex_loc_entries(b, p1, nl) {
            None => None,
            Some((locs, p2)) => match dex_usize(b, p2) {
                None => None,
                Some((nf, p3)) => match dex_frame_entries(b, p3, nf) {
                    None => None,
                    Some((frames, p4)) => match dex_str(b, p4) {
                        None => None,
                        Some((h, p5)) => if p5 == b.len() {
                            Some((locs, frames, h))
                        } else {
                            None
                        },
                    },
                },
            },
        },
    }
}

} // verus!
